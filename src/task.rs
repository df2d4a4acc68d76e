//! Task states, resumption outcomes and the waker token bound to one task.
use vstd::prelude::*;

verus! {

/// Where a task stands in its life cycle.
#[derive(PartialEq, Eq, Structural, Clone, Copy, Debug)]
pub enum TaskStatus {
    /// Suspended; only a wake makes it eligible again.
    Idle,
    /// In the ready-queue, waiting to be resumed.
    Scheduled,
    /// Being resumed; the resumption guard is held.
    Running,
    /// Being resumed, and woken while running: it is already back in the
    /// ready-queue, and stays there when the resumption suspends.
    Notified,
    /// The computation has finished; it is never resumed again.
    Complete,
}

/// What one resumption of a computation reported.
#[derive(PartialEq, Eq, Structural, Clone, Copy, Debug)]
pub enum Progress {
    /// The computation ran to completion.
    Done,
    /// The computation reached a suspension point.
    Suspended,
}

/// Whether a task in this state holds its exclusive resumption guard.
pub open spec fn holds_guard(s: TaskStatus) -> bool {
    s == TaskStatus::Running || s == TaskStatus::Notified
}

/// Whether a task in this state has an entry in the ready-queue.
pub open spec fn queued(s: TaskStatus) -> bool {
    s == TaskStatus::Scheduled || s == TaskStatus::Notified
}

/// The state of a task after its waker has been invoked.
pub open spec fn woken_status(s: TaskStatus) -> TaskStatus {
    match s {
        TaskStatus::Idle => TaskStatus::Scheduled,
        TaskStatus::Running => TaskStatus::Notified,
        _ => s,
    }
}

/// The state of a task once a resumption of it has returned `p`.
pub open spec fn finished_status(s: TaskStatus, p: Progress) -> TaskStatus {
    match p {
        Progress::Done => TaskStatus::Complete,
        Progress::Suspended => if s == TaskStatus::Notified {
            TaskStatus::Scheduled
        } else {
            TaskStatus::Idle
        },
    }
}

/// A resumption token bound to one task of one executor; its identity is
/// that pair.
#[derive(PartialEq, Eq, Structural, Clone, Copy, Debug)]
pub struct TaskWaker {
    pub executor: u64,
    pub task: usize,
}

impl TaskWaker {
    pub fn new(executor: u64, task: usize) -> (r: TaskWaker)
        ensures
            r.executor == executor,
            r.task == task,
    {
        TaskWaker { executor, task }
    }

    /// The identity of the executor this waker schedules on.
    pub fn executor(&self) -> (r: u64)
        ensures
            r == self.executor,
    {
        self.executor
    }

    /// The handle of the task this waker resumes.
    pub fn task(&self) -> (r: usize)
        ensures
            r == self.task,
    {
        self.task
    }

    /// Whether waking `self` and waking `other` resume the same task on the
    /// same executor.
    pub fn will_wake(&self, other: &TaskWaker) -> (r: bool)
        ensures
            r == (self.executor == other.executor && self.task == other.task),
    {
        self.executor == other.executor && self.task == other.task
    }
}

} // verus!
