//! Timed suspension: a deadline, the waker to resume, and the decisions taken
//! on each resumption attempt. Instants are nanoseconds on a monotonic clock.
use vstd::prelude::*;
use crate::task::TaskWaker;

verus! {

/// What a resumption attempt of a `Delay` observed and asks for.
#[derive(PartialEq, Eq, Structural, Clone, Copy, Debug)]
pub struct DelayPoll {
    /// The deadline has been reached: the suspension is over.
    pub ready: bool,
    /// This was the first attempt: a timing agent must be started that sleeps
    /// until the deadline, at once if it has passed, and then invokes the
    /// stored waker once.
    pub arm: bool,
}

/// A suspension point that resumes no earlier than its deadline.
pub struct Delay {
    when: u64,
    waker: Option<TaskWaker>,
}

impl Delay {
    /// The deadline.
    pub closed spec fn when_spec(&self) -> u64 {
        self.when
    }

    /// The waker the timing agent invokes; `None` until the agent is armed.
    pub closed spec fn waker_spec(&self) -> Option<TaskWaker> {
        self.waker
    }

    /// The deadline.
    pub fn deadline(&self) -> (r: u64)
        ensures
            r == self.when_spec(),
    {
        self.when
    }

    /// The waker that the timing agent invokes, once armed.
    pub fn stored_waker(&self) -> (r: Option<TaskWaker>)
        ensures
            r == self.waker_spec(),
    {
        self.waker
    }

    /// Whether a timing agent has been started for this delay.
    pub fn is_armed(&self) -> (r: bool)
        ensures
            r == self.waker_spec() is Some,
    {
        self.waker.is_some()
    }

    /// A resumption attempt at instant `now` on behalf of the waker `cx`.
    /// The first attempt stores `cx` and asks for a timing agent; a later one
    /// replaces the stored waker only when it wakes another task. Then the
    /// attempt reports whether the deadline has been reached.
    pub fn poll(&mut self, now: u64, cx: TaskWaker) -> (r: DelayPoll)
        ensures
            final(self).when_spec() == old(self).when_spec(),
            final(self).waker_spec() == Some(cx),
            r.arm == (old(self).waker_spec() is None),
            r.ready == (now >= old(self).when_spec()),
    {
        let arm = match self.waker {
            Some(stored) => {
                if !stored.will_wake(&cx) {
                    self.waker = Some(cx);
                }
                false
            },
            None => {
                self.waker = Some(cx);
                true
            },
        };
        DelayPoll { ready: now >= self.when, arm }
    }
}

/// A delay of `dur` nanoseconds from the instant `now`, not yet armed.
pub fn delay(now: u64, dur: u64) -> (r: Delay)
    requires
        now + dur <= u64::MAX,
    ensures
        r.when_spec() == now + dur,
        r.waker_spec() is None,
{
    Delay { when: now + dur, waker: None }
}

/// How long a timing agent started at `now` sleeps before it invokes the
/// waker: the time left until `when`, and zero once it has passed.
pub fn sleep_for(when: u64, now: u64) -> (r: u64)
    ensures
        r == (if now < when {
            when - now
        } else {
            0
        }),
{
    if now < when {
        when - now
    } else {
        0
    }
}

} // verus!
