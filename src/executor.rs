//! The scheduler: an arena of task states and a FIFO ready-queue of handles.
use std::collections::VecDeque;
use vstd::prelude::*;
use crate::task::{
    TaskStatus, Progress, TaskWaker, holds_guard, queued, woken_status, finished_status,
};

verus! {

/// Why a resumption could not start or end.
#[derive(PartialEq, Eq, Structural, Clone, Copy, Debug)]
pub enum ResumeError {
    /// A task is already being resumed: its guard is held.
    Contention,
    /// No task is being resumed, so there is nothing to end.
    NotResuming,
}

/// The abstract state of a scheduler.
pub ghost struct SchedModel {
    /// The identity of the executor, which its wakers carry.
    pub id: u64,
    /// The state of each task, indexed by its handle.
    pub tasks: Seq<TaskStatus>,
    /// One entry per wake or spawn not yet consumed, oldest first; a task may
    /// have several.
    pub ready: Seq<usize>,
    /// The task being resumed, if any.
    pub current: Option<usize>,
}

impl SchedModel {
    /// Every entry names a task, every task that is queued by its state has
    /// an entry, and only the current task holds its resumption guard.
    pub open spec fn wf(self) -> bool {
        &&& forall|k: int| 0 <= k < self.ready.len() ==> (#[trigger] self.ready[k]) < self.tasks.len()
        &&& forall|i: int|
            0 <= i < self.tasks.len() && queued(#[trigger] self.tasks[i])
                ==> self.ready.contains(i as usize)
        &&& forall|i: int|
            0 <= i < self.tasks.len() && holds_guard(#[trigger] self.tasks[i])
                ==> self.current == Some(i as usize)
        &&& self.current matches Some(c) ==> c < self.tasks.len() && holds_guard(
            self.tasks[c as int],
        )
        &&& self.tasks.len() <= usize::MAX
    }

    /// A new task, enqueued at the back.
    pub open spec fn spawned(self) -> SchedModel {
        SchedModel {
            id: self.id,
            tasks: self.tasks.push(TaskStatus::Scheduled),
            ready: self.ready.push(self.tasks.len() as usize),
            current: self.current,
        }
    }

    /// The waker of task `id` was invoked: unless the task is complete, an
    /// entry for it is appended at the back, whatever entries it already has.
    /// An unknown handle or a complete task changes nothing.
    pub open spec fn woken(self, id: usize) -> SchedModel {
        if id >= self.tasks.len() || self.tasks[id as int] == TaskStatus::Complete {
            self
        } else {
            SchedModel {
                id: self.id,
                tasks: self.tasks.update(id as int, woken_status(self.tasks[id as int])),
                ready: self.ready.push(id),
                current: self.current,
            }
        }
    }

    /// The queue without its front entry.
    pub open spec fn dropped_front(self) -> SchedModel {
        SchedModel { ready: self.ready.drop_first(), ..self }
    }

    /// Entries are taken from the front until one names a scheduled task,
    /// whose guard is then acquired. An entry of a task that is complete, or
    /// suspended with no wake since its last resumption, is dropped without a
    /// resumption. Nothing changes while a task is being resumed.
    pub open spec fn popped(self) -> SchedModel
        decreases self.ready.len(),
    {
        if self.current is Some || self.ready.len() == 0 {
            self
        } else if self.tasks[self.ready[0] as int] == TaskStatus::Scheduled {
            SchedModel {
                id: self.id,
                tasks: self.tasks.update(self.ready[0] as int, TaskStatus::Running),
                ready: self.ready.drop_first(),
                current: Some(self.ready[0]),
            }
        } else {
            self.dropped_front().popped()
        }
    }

    /// The resumption of the current task returned `p` and its guard is
    /// released; nothing changes when no task is being resumed.
    pub open spec fn finished(self, p: Progress) -> SchedModel {
        match self.current {
            None => self,
            Some(c) => SchedModel {
                id: self.id,
                tasks: self.tasks.update(c as int, finished_status(self.tasks[c as int], p)),
                ready: self.ready,
                current: None,
            },
        }
    }
}

/// Spawning keeps the executor well formed.
pub proof fn lemma_spawned_wf(m: SchedModel)
    requires
        m.wf(),
        m.tasks.len() < usize::MAX,
    ensures
        m.spawned().wf(),
{
    let n = m.spawned();
    assert forall|k: int| 0 <= k < n.ready.len() implies (#[trigger] n.ready[k]) < n.tasks.len() by {
        if k < m.ready.len() {
            assert(n.ready[k] == m.ready[k]);
        }
    }
    assert forall|i: int|
        0 <= i < n.tasks.len() && queued(#[trigger] n.tasks[i]) implies n.ready.contains(
        i as usize,
    ) by {
        if i < m.tasks.len() {
            assert(m.tasks[i] == n.tasks[i]);
            let k = choose|k: int| 0 <= k < m.ready.len() && m.ready[k] == i as usize;
            assert(n.ready[k] == i as usize);
        } else {
            assert(n.ready[m.ready.len() as int] == i as usize);
        }
    }
    assert forall|i: int|
        0 <= i < n.tasks.len() && holds_guard(#[trigger] n.tasks[i]) implies n.current == Some(
        i as usize,
    ) by {
        if i < m.tasks.len() {
            assert(m.tasks[i] == n.tasks[i]);
        }
    }
}

/// Waking any handle keeps the executor well formed.
pub proof fn lemma_woken_wf(m: SchedModel, id: usize)
    requires
        m.wf(),
    ensures
        m.woken(id).wf(),
{
    if id < m.tasks.len() && m.tasks[id as int] != TaskStatus::Complete {
        let n = m.woken(id);
        assert forall|k: int| 0 <= k < n.ready.len() implies (#[trigger] n.ready[k])
            < n.tasks.len() by {
            if k < m.ready.len() {
                assert(n.ready[k] == m.ready[k]);
            }
        }
        assert forall|i: int|
            0 <= i < n.tasks.len() && queued(#[trigger] n.tasks[i]) implies n.ready.contains(
            i as usize,
        ) by {
            if i != id as int {
                assert(m.tasks[i] == n.tasks[i]);
                let k = choose|k: int| 0 <= k < m.ready.len() && m.ready[k] == i as usize;
                assert(n.ready[k] == i as usize);
            } else {
                assert(n.ready[m.ready.len() as int] == id);
            }
        }
        assert forall|i: int|
            0 <= i < n.tasks.len() && holds_guard(#[trigger] n.tasks[i]) implies n.current
            == Some(i as usize) by {
            if i != id as int {
                assert(m.tasks[i] == n.tasks[i]);
            }
        }
    }
}

/// Dropping a front entry whose task is not scheduled keeps the executor
/// well formed while no task is being resumed.
pub proof fn lemma_dropped_front_wf(m: SchedModel)
    requires
        m.wf(),
        m.current is None,
        m.ready.len() > 0,
        m.tasks[m.ready[0] as int] != TaskStatus::Scheduled,
    ensures
        m.dropped_front().wf(),
{
    let n = m.dropped_front();
    let h = m.ready[0];
    assert(h < m.tasks.len());
    assert(!queued(m.tasks[h as int])) by {
        if holds_guard(m.tasks[h as int]) {
            assert(m.current == Some(h));
        }
    }
    assert forall|k: int| 0 <= k < n.ready.len() implies (#[trigger] n.ready[k]) < n.tasks.len() by {
        assert(n.ready[k] == m.ready[k + 1]);
    }
    assert forall|i: int|
        0 <= i < n.tasks.len() && queued(#[trigger] n.tasks[i]) implies n.ready.contains(
        i as usize,
    ) by {
        let k = choose|k: int| 0 <= k < m.ready.len() && m.ready[k] == i as usize;
        assert(k != 0);
        assert(n.ready[k - 1] == i as usize);
    }
}

/// Taking the next task keeps the executor well formed. With no task being
/// resumed, the task acquired is the one of the first entry naming a
/// scheduled task, the entries up to it are consumed and the others kept;
/// when no entry names a scheduled task, the queue is emptied and no task
/// changes.
pub proof fn lemma_popped(m: SchedModel)
    requires
        m.wf(),
    ensures
        m.popped().wf(),
        m.popped().id == m.id,
        m.current is Some ==> m.popped() == m,
        m.current is None ==> ((m.popped().current is None) == (forall|k: int|
            0 <= k < m.ready.len() ==> m.tasks[#[trigger] m.ready[k] as int]
                != TaskStatus::Scheduled)),
        m.current is None && m.popped().current is None ==> {
            &&& m.popped().ready.len() == 0
            &&& m.popped().tasks == m.tasks
        },
        m.current is None ==> (m.popped().current matches Some(id) ==> exists|k: int|
            {
                &&& 0 <= k < m.ready.len()
                &&& m.ready[k] == id
                &&& m.tasks[id as int] == TaskStatus::Scheduled
                &&& (forall|j: int|
                    0 <= j < k ==> m.tasks[#[trigger] m.ready[j] as int]
                        != TaskStatus::Scheduled)
                &&& m.popped().ready == m.ready.subrange(k + 1, m.ready.len() as int)
                &&& m.popped().tasks == m.tasks.update(id as int, TaskStatus::Running)
            }),
    decreases m.ready.len(),
{
    if m.current is None && m.ready.len() > 0 {
        let h = m.ready[0];
        assert(h < m.tasks.len());
        if m.tasks[h as int] == TaskStatus::Scheduled {
            let n = m.popped();
            assert forall|k: int| 0 <= k < n.ready.len() implies (#[trigger] n.ready[k])
                < n.tasks.len() by {
                assert(n.ready[k] == m.ready[k + 1]);
            }
            assert forall|i: int|
                0 <= i < n.tasks.len() && queued(#[trigger] n.tasks[i]) implies n.ready.contains(
                i as usize,
            ) by {
                assert(i != h as int);
                assert(m.tasks[i] == n.tasks[i]);
                let k = choose|k: int| 0 <= k < m.ready.len() && m.ready[k] == i as usize;
                assert(k != 0);
                assert(n.ready[k - 1] == i as usize);
            }
            assert forall|i: int|
                0 <= i < n.tasks.len() && holds_guard(#[trigger] n.tasks[i]) implies n.current
                == Some(i as usize) by {
                if i != h as int {
                    assert(m.tasks[i] == n.tasks[i]);
                }
            }
            assert(m.ready.subrange(1, m.ready.len() as int) =~= m.ready.drop_first());
            assert(m.tasks[m.ready[0] as int] == TaskStatus::Scheduled);
        } else {
            let d = m.dropped_front();
            lemma_dropped_front_wf(m);
            lemma_popped(d);
            assert(m.popped() == d.popped());
            assert forall|k: int| 0 <= k < d.ready.len() implies #[trigger] d.ready[k]
                == m.ready[k + 1] by {}
            if d.popped().current is None {
                assert forall|k: int|
                    0 <= k < m.ready.len() implies m.tasks[#[trigger] m.ready[k] as int]
                    != TaskStatus::Scheduled by {
                    if k > 0 {
                        assert(d.ready[k - 1] == m.ready[k]);
                    }
                }
            } else {
                let id = d.popped().current.unwrap();
                let k = choose|k: int|
                    {
                        &&& 0 <= k < d.ready.len()
                        &&& d.ready[k] == id
                        &&& d.tasks[id as int] == TaskStatus::Scheduled
                        &&& (forall|j: int|
                            0 <= j < k ==> d.tasks[#[trigger] d.ready[j] as int]
                                != TaskStatus::Scheduled)
                        &&& d.popped().ready == d.ready.subrange(k + 1, d.ready.len() as int)
                        &&& d.popped().tasks == d.tasks.update(id as int, TaskStatus::Running)
                    };
                assert(m.ready[k + 1] == id);
                assert forall|j: int| 0 <= j < k + 1 implies m.tasks[#[trigger] m.ready[j] as int]
                    != TaskStatus::Scheduled by {
                    if j > 0 {
                        assert(d.ready[j - 1] == m.ready[j]);
                    }
                }
                assert(d.ready.subrange(k + 1, d.ready.len() as int) =~= m.ready.subrange(
                    k + 2,
                    m.ready.len() as int,
                ));
                assert(m.tasks[m.ready[k + 1] as int] == TaskStatus::Scheduled);
            }
        }
    }
}

/// Ending a resumption keeps the executor well formed.
pub proof fn lemma_finished_wf(m: SchedModel, p: Progress)
    requires
        m.wf(),
    ensures
        m.finished(p).wf(),
{
    if let Some(c) = m.current {
        let n = m.finished(p);
        assert forall|i: int|
            0 <= i < n.tasks.len() && queued(#[trigger] n.tasks[i]) implies n.ready.contains(
            i as usize,
        ) by {
            if i != c as int {
                assert(m.tasks[i] == n.tasks[i]);
            }
            assert(queued(m.tasks[i]));
        }
        assert forall|i: int|
            0 <= i < n.tasks.len() && holds_guard(#[trigger] n.tasks[i]) implies n.current
            == Some(i as usize) by {
            if i != c as int {
                assert(m.tasks[i] == n.tasks[i]);
            }
        }
    }
}

/// The executor: task states by handle, the ready-queue, and the task whose
/// resumption guard is held.
pub struct MiniTokio {
    id: u64,
    tasks: Vec<TaskStatus>,
    ready: VecDeque<usize>,
    current: Option<usize>,
}

impl View for MiniTokio {
    type V = SchedModel;

    closed spec fn view(&self) -> SchedModel {
        SchedModel { id: self.id, tasks: self.tasks@, ready: self.ready@, current: self.current }
    }
}

impl MiniTokio {
    pub open spec fn wf(&self) -> bool {
        self@.wf()
    }

    /// An executor with no tasks, known to its wakers as `id`. Executors that
    /// live at the same time must be given distinct identities: a waker acts
    /// on any executor whose identity it carries.
    pub fn new(id: u64) -> (r: MiniTokio)
        ensures
            r.wf(),
            r@.id == id,
            r@.tasks.len() == 0,
            r@.ready.len() == 0,
            r@.current is None,
    {
        let r = MiniTokio { id, tasks: Vec::new(), ready: VecDeque::new(), current: None };
        assert(r@.tasks.len() == 0);
        r
    }

    /// Adds a new task and enqueues it; returns its handle.
    pub fn spawn(&mut self) -> (id: usize)
        requires
            old(self).wf(),
            old(self)@.tasks.len() < usize::MAX,
        ensures
            final(self).wf(),
            final(self)@ == old(self)@.spawned(),
            id == old(self)@.tasks.len(),
    {
        spawn(self)
    }

    /// Invokes the waker of task `id`: unless the task is complete, an entry
    /// for it is appended at the back of the ready-queue; a suspended task
    /// becomes scheduled and a running one is marked as woken.
    pub fn wake(&mut self, id: usize)
        requires
            old(self).wf(),
        ensures
            final(self).wf(),
            final(self)@ == old(self)@.woken(id),
    {
        proof {
            lemma_woken_wf(self@, id);
        }
        if id < self.tasks.len() {
            let s = self.tasks[id];
            match s {
                TaskStatus::Complete => {},
                TaskStatus::Idle => {
                    self.tasks.set(id, TaskStatus::Scheduled);
                    self.ready.push_back(id);
                },
                TaskStatus::Running => {
                    self.tasks.set(id, TaskStatus::Notified);
                    self.ready.push_back(id);
                },
                _ => {
                    assert(self.tasks@.update(id as int, s) =~= self.tasks@);
                    self.ready.push_back(id);
                },
            }
        }
    }

    /// Takes entries off the front of the ready-queue until one names a
    /// scheduled task, and acquires that task's resumption guard; entries of
    /// other tasks are dropped. Fails while another resumption holds a guard.
    pub fn next_task(&mut self) -> (r: Result<Option<usize>, ResumeError>)
        requires
            old(self).wf(),
        ensures
            final(self).wf(),
            final(self)@ == old(self)@.popped(),
            match r {
                Err(e) => e == ResumeError::Contention && old(self)@.current is Some,
                Ok(None) => old(self)@.current is None && final(self)@.current is None,
                Ok(Some(id)) => old(self)@.current is None && final(self)@.current == Some(id),
            },
    {
        proof {
            lemma_popped(self@);
        }
        if self.current.is_some() {
            return Err(ResumeError::Contention);
        }
        assert(self@ == old(self)@);
        loop
            invariant
                self.wf(),
                self@.current is None,
                old(self)@.current is None,
                self@.popped() == old(self)@.popped(),
            decreases self.ready@.len(),
        {
            let ghost before = self@;
            proof {
                lemma_popped(before);
            }
            match self.ready.pop_front() {
                None => {
                    return Ok(None);
                },
                Some(h) => {
                    assert(before.ready[0] == h);
                    if self.tasks[h] == TaskStatus::Scheduled {
                        self.tasks.set(h, TaskStatus::Running);
                        self.current = Some(h);
                        assert(self@ == before.popped());
                        return Ok(Some(h));
                    }
                    assert(self@ == before.dropped_front());
                    proof {
                        lemma_dropped_front_wf(before);
                    }
                }
            }
        }
    }

    /// Ends the resumption of the current task, which reported `p`, and
    /// releases its guard; returns the task's handle.
    pub fn end_resume(&mut self, p: Progress) -> (r: Result<usize, ResumeError>)
        requires
            old(self).wf(),
        ensures
            final(self).wf(),
            final(self)@ == old(self)@.finished(p),
            match r {
                Err(e) => e == ResumeError::NotResuming && old(self)@.current is None,
                Ok(id) => old(self)@.current == Some(id),
            },
    {
        proof {
            lemma_finished_wf(self@, p);
        }
        match self.current {
            None => Err(ResumeError::NotResuming),
            Some(c) => {
                let s = self.tasks[c];
                match p {
                    Progress::Done => {
                        self.tasks.set(c, TaskStatus::Complete);
                    },
                    Progress::Suspended => {
                        if s == TaskStatus::Notified {
                            self.tasks.set(c, TaskStatus::Scheduled);
                        } else {
                            self.tasks.set(c, TaskStatus::Idle);
                        }
                    },
                }
                self.current = None;
                Ok(c)
            },
        }
    }

    /// The state of task `id`, or `None` for a handle never handed out.
    pub fn status(&self, id: usize) -> (r: Option<TaskStatus>)
        ensures
            r == (if id < self@.tasks.len() {
                Some(self@.tasks[id as int])
            } else {
                None::<TaskStatus>
            }),
    {
        if id < self.tasks.len() {
            Some(self.tasks[id])
        } else {
            None
        }
    }

    /// How many tasks were spawned.
    pub fn num_tasks(&self) -> (r: usize)
        ensures
            r == self@.tasks.len(),
    {
        self.tasks.len()
    }

    /// How many tasks wait in the ready-queue.
    pub fn num_ready(&self) -> (r: usize)
        ensures
            r == self@.ready.len(),
    {
        self.ready.len()
    }

    /// The identity that this executor's wakers carry.
    pub fn id(&self) -> (r: u64)
        ensures
            r == self@.id,
    {
        self.id
    }

    /// The waker of task `task` on this executor.
    pub fn waker(&self, task: usize) -> (r: TaskWaker)
        ensures
            r.executor == self@.id,
            r.task == task,
    {
        TaskWaker::new(self.id, task)
    }

    /// The task being resumed, if any.
    pub fn current(&self) -> (r: Option<usize>)
        ensures
            r == self@.current,
    {
        self.current
    }
}

impl TaskWaker {
    /// Invokes this waker on `executor`: re-schedules the task it is bound to
    /// when `executor` is the one it belongs to, and does nothing otherwise.
    pub fn wake_by_ref(&self, executor: &mut MiniTokio)
        requires
            old(executor).wf(),
        ensures
            final(executor).wf(),
            final(executor)@ == if self.executor == old(executor)@.id {
                old(executor)@.woken(self.task)
            } else {
                old(executor)@
            },
    {
        if self.executor == executor.id {
            executor.wake(self.task);
        }
    }
}

/// Spawns a new task onto `executor`, also from inside a running task, and
/// enqueues it at the back of the ready-queue; returns its handle.
pub fn spawn(executor: &mut MiniTokio) -> (id: usize)
    requires
        old(executor).wf(),
        old(executor)@.tasks.len() < usize::MAX,
    ensures
        final(executor).wf(),
        final(executor)@ == old(executor)@.spawned(),
        id == old(executor)@.tasks.len(),
{
    proof {
        lemma_spawned_wf(executor@);
    }
    let id = executor.tasks.len();
    executor.tasks.push(TaskStatus::Scheduled);
    executor.ready.push_back(id);
    id
}

/// The executor after the waker of task `id` was invoked `n` times in a row.
pub open spec fn woken_times(m: SchedModel, id: usize, n: nat) -> SchedModel
    decreases n,
{
    if n == 0 {
        m
    } else {
        woken_times(m, id, (n - 1) as nat).woken(id)
    }
}

/// Task `id` is complete.
pub open spec fn settled(m: SchedModel, id: usize) -> bool {
    id < m.tasks.len() && m.tasks[id as int] == TaskStatus::Complete
}

/// A resumption that reports completion, as one of a computation without a
/// suspension point does the first time, leaves its task complete.
pub proof fn lemma_completion(m: SchedModel, id: usize)
    requires
        m.wf(),
        m.current == Some(id),
    ensures
        settled(m.finished(Progress::Done), id),
        m.finished(Progress::Done).wf(),
        m.finished(Progress::Done).current is None,
{
    lemma_finished_wf(m, Progress::Done);
}

/// A completed task is never resumed or enqueued again: its waker adds no
/// entry, taking the next task never acquires it, and spawning, waking any
/// task, taking the next task and ending a resumption all leave it complete.
pub proof fn lemma_complete_is_final(m: SchedModel, id: usize, w: usize, p: Progress)
    requires
        m.wf(),
        settled(m, id),
    ensures
        m.woken(id) == m,
        m.popped().current != Some(id),
        m.tasks.len() < usize::MAX ==> settled(m.spawned(), id),
        settled(m.woken(w), id),
        settled(m.popped(), id),
        settled(m.finished(p), id),
{
    lemma_popped(m);
    if m.current is None {
        if let Some(x) = m.popped().current {
            let k = choose|k: int|
                {
                    &&& 0 <= k < m.ready.len()
                    &&& m.ready[k] == x
                    &&& m.tasks[x as int] == TaskStatus::Scheduled
                    &&& (forall|j: int|
                        0 <= j < k ==> m.tasks[#[trigger] m.ready[j] as int]
                            != TaskStatus::Scheduled)
                    &&& m.popped().ready == m.ready.subrange(k + 1, m.ready.len() as int)
                    &&& m.popped().tasks == m.tasks.update(x as int, TaskStatus::Running)
                };
            assert(x != id);
        }
    }
    if let Some(c) = m.current {
        assert(holds_guard(m.tasks[c as int]));
    }
    if m.tasks.len() < usize::MAX {
        assert(m.spawned().tasks[id as int] == TaskStatus::Complete);
    }
}

/// At most one task holds its resumption guard, and it is the current one;
/// while it is held no other resumption can start.
pub proof fn lemma_single_resumer(m: SchedModel, i: int, j: int)
    requires
        m.wf(),
        0 <= i < m.tasks.len(),
        0 <= j < m.tasks.len(),
        holds_guard(m.tasks[i]),
        holds_guard(m.tasks[j]),
    ensures
        i == j,
        m.current == Some(i as usize),
        m.popped() == m,
{
}

/// Invoking the waker of a scheduled task `n` times appends `n` entries for
/// it and changes nothing else: the task stays scheduled, its computation is
/// not resumed by the wakes, no guard is taken, and the next resumption on a
/// free executor resumes a task.
pub proof fn lemma_wake_repeated(m: SchedModel, id: usize, n: nat)
    requires
        m.wf(),
        id < m.tasks.len(),
        m.tasks[id as int] == TaskStatus::Scheduled,
    ensures
        woken_times(m, id, n) == (SchedModel {
            ready: m.ready + Seq::new(n, |i: int| id),
            ..m
        }),
        woken_times(m, id, n).wf(),
        m.current is None ==> woken_times(m, id, n).popped().current is Some,
    decreases n,
{
    if n > 0 {
        lemma_wake_repeated(m, id, (n - 1) as nat);
        assert(m.tasks.update(id as int, TaskStatus::Scheduled) =~= m.tasks);
        assert(m.ready + Seq::new(n, |i: int| id) =~= (m.ready + Seq::new(
            (n - 1) as nat,
            |i: int| id,
        )).push(id));
        lemma_woken_wf(woken_times(m, id, (n - 1) as nat), id);
    }
    let w = woken_times(m, id, n);
    lemma_popped(w);
    if m.current is None {
        let k = choose|k: int| 0 <= k < m.ready.len() && m.ready[k] == id;
        assert(w.ready[k] == id);
    }
}

/// A task spawned while another is being resumed is queued on the same
/// executor, behind what was queued before, and stays scheduled and queued
/// when that resumption ends: the same run loop resumes it later.
pub proof fn lemma_spawn_during_resumption(m: SchedModel, a: usize, p: Progress)
    requires
        m.wf(),
        m.current == Some(a),
        m.tasks.len() < usize::MAX,
    ensures
        m.spawned().ready == m.ready.push(m.tasks.len() as usize),
        m.spawned().current == Some(a),
        m.spawned().finished(p).wf(),
        m.spawned().finished(p).current is None,
        m.spawned().finished(p).tasks[m.tasks.len() as int] == TaskStatus::Scheduled,
        m.spawned().finished(p).ready.contains(m.tasks.len() as usize),
        m.spawned().finished(p).popped().current is Some,
{
    lemma_spawned_wf(m);
    lemma_finished_wf(m.spawned(), p);
    let n = m.spawned().finished(p);
    assert(queued(n.tasks[m.tasks.len() as int]));
    lemma_popped(n);
    let k = choose|k: int| 0 <= k < n.ready.len() && n.ready[k] == m.tasks.len() as usize;
    assert(n.tasks[n.ready[k] as int] == TaskStatus::Scheduled);
}

/// Wakes by one caller of task `a` and then task `b`, neither complete, put
/// their entries in that order at the back of the ready-queue; from an empty
/// queue `a` is then resumed before `b`, also when `a` is the running task
/// that wakes itself. Spawned tasks are queued in the order of spawning.
pub proof fn lemma_fifo(m: SchedModel, a: usize, b: usize, p: Progress)
    requires
        m.wf(),
        a != b,
        a < m.tasks.len(),
        b < m.tasks.len(),
        m.tasks[a as int] != TaskStatus::Complete,
        m.tasks[b as int] != TaskStatus::Complete,
    ensures
        m.woken(a).woken(b).ready == m.ready.push(a).push(b),
        m.current is None && m.ready.len() == 0 ==> {
            &&& m.woken(a).woken(b).popped().current == Some(a)
            &&& m.woken(a).woken(b).popped().finished(p).popped().current == Some(b)
        },
        m.current == Some(a) && m.ready.len() == 0 ==> m.woken(a).woken(b).finished(p).popped().current
            == if p == Progress::Suspended {
            Some(a)
        } else {
            Some(b)
        },
        m.tasks.len() + 1 < usize::MAX ==> m.spawned().spawned().ready == m.ready.push(
            m.tasks.len() as usize,
        ).push((m.tasks.len() + 1) as usize),
{
    let n = m.woken(a).woken(b);
    if m.ready.len() == 0 {
        assert(!queued(m.tasks[b as int])) by {
            if queued(m.tasks[b as int]) {
                assert(m.ready.contains(b));
            }
        }
        assert(!queued(m.tasks[a as int])) by {
            if queued(m.tasks[a as int]) {
                assert(m.ready.contains(a));
            }
        }
    }
    if m.current is None && m.ready.len() == 0 {
        assert(m.tasks[a as int] == TaskStatus::Idle) by {
            if holds_guard(m.tasks[a as int]) {
                assert(m.current == Some(a));
            }
        }
        assert(m.tasks[b as int] == TaskStatus::Idle) by {
            if holds_guard(m.tasks[b as int]) {
                assert(m.current == Some(b));
            }
        }
        assert(n.ready =~= seq![a, b]);
        let q = n.popped();
        assert(q.ready =~= seq![b]);
        assert(q.tasks[a as int] == TaskStatus::Running);
        let r = q.finished(p);
        assert(r.ready =~= seq![b]);
        assert(r.tasks[b as int] == TaskStatus::Scheduled);
    }
    if m.current == Some(a) && m.ready.len() == 0 {
        assert(m.tasks[a as int] == TaskStatus::Running);
        assert(m.tasks[b as int] == TaskStatus::Idle);
        assert(n.ready =~= seq![a, b]);
        let r = n.finished(p);
        assert(r.ready =~= seq![a, b]);
        if p == Progress::Suspended {
            assert(r.tasks[a as int] == TaskStatus::Scheduled);
        } else {
            assert(r.tasks[a as int] == TaskStatus::Complete);
            assert(r.dropped_front().ready =~= seq![b]);
            assert(r.popped() == r.dropped_front().popped());
            assert(r.dropped_front().tasks[b as int] == TaskStatus::Scheduled);
        }
    }
}

} // verus!
