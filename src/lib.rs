//! A minimal cooperative task executor, modelled as verified state machines.
//!
//! The executor keeps an arena of tasks addressed by stable handles and a FIFO
//! ready-queue of those handles. Every wake of a task that is not complete
//! appends an entry for it, also while it runs, so the queue keeps the order
//! of wakes; an entry whose task has meanwhile completed, or already ran since,
//! is dropped unresumed. A task is resumed by at most one caller at a time.
//! Wakers carry the identity of their executor. `Delay` is the timed
//! suspension point: it decides when a timing agent must be started and when
//! the deadline has been reached.
pub mod task;
pub mod executor;
pub mod delay;
