use mini_tokio::delay::{delay, DelayPoll};
use mini_tokio::executor::{spawn, MiniTokio, ResumeError};
use mini_tokio::task::{Progress, TaskStatus};

const MS: u64 = 1_000_000;

#[test]
fn hello_before_world() {
    let mut ex = MiniTokio::new(1);
    let mut log: Vec<&str> = Vec::new();
    let first = spawn(&mut ex);
    let second = spawn(&mut ex);
    let mut d = delay(0, 100 * MS);

    // The first task suspends on its delay and arms a timing agent.
    assert_eq!(ex.next_task(), Ok(Some(first)));
    assert_eq!(d.poll(0, ex.waker(first)), DelayPoll { ready: false, arm: true });
    assert_eq!(ex.end_resume(Progress::Suspended), Ok(first));

    // The second task runs to completion.
    assert_eq!(ex.next_task(), Ok(Some(second)));
    log.push("hello");
    assert_eq!(ex.end_resume(Progress::Done), Ok(second));
    assert_eq!(ex.next_task(), Ok(None));

    // The timing agent fires at the deadline.
    d.stored_waker().unwrap().wake_by_ref(&mut ex);
    assert_eq!(ex.next_task(), Ok(Some(first)));
    assert_eq!(d.poll(100 * MS, ex.waker(first)), DelayPoll { ready: true, arm: false });
    log.push("world");
    assert_eq!(ex.end_resume(Progress::Done), Ok(first));
    assert_eq!(log, vec!["hello", "world"]);
}

#[test]
fn nested_spawn_runs_in_same_loop() {
    let mut ex = MiniTokio::new(1);
    let a = ex.spawn();
    assert_eq!(ex.next_task(), Ok(Some(a)));
    let b = spawn(&mut ex);
    assert_eq!(ex.status(b), Some(TaskStatus::Scheduled));
    assert_eq!(ex.end_resume(Progress::Suspended), Ok(a));
    assert_eq!(ex.next_task(), Ok(Some(b)));
    assert_eq!(ex.end_resume(Progress::Done), Ok(b));
    assert_eq!(ex.next_task(), Ok(None));
}

#[test]
fn completed_task_is_never_requeued() {
    let mut ex = MiniTokio::new(1);
    let a = spawn(&mut ex);
    assert_eq!(ex.next_task(), Ok(Some(a)));
    assert_eq!(ex.end_resume(Progress::Done), Ok(a));
    ex.wake(a);
    ex.wake(a);
    assert_eq!(ex.status(a), Some(TaskStatus::Complete));
    assert_eq!(ex.num_ready(), 0);
    assert_eq!(ex.next_task(), Ok(None));
}

#[test]
fn second_resumption_is_refused() {
    let mut ex = MiniTokio::new(1);
    let a = spawn(&mut ex);
    let b = spawn(&mut ex);
    assert_eq!(ex.next_task(), Ok(Some(a)));
    assert_eq!(ex.next_task(), Err(ResumeError::Contention));
    assert_eq!(ex.current(), Some(a));
    assert_eq!(ex.status(b), Some(TaskStatus::Scheduled));
    assert_eq!(ex.num_ready(), 1);
}

#[test]
fn end_without_resumption_is_refused() {
    let mut ex = MiniTokio::new(1);
    assert_eq!(ex.end_resume(Progress::Done), Err(ResumeError::NotResuming));
    spawn(&mut ex);
    assert_eq!(ex.end_resume(Progress::Suspended), Err(ResumeError::NotResuming));
    assert_eq!(ex.num_ready(), 1);
}

#[test]
fn repeated_wake_of_queued_task() {
    let mut ex = MiniTokio::new(1);
    let a = spawn(&mut ex);
    for _ in 0..3 {
        ex.wake(a);
    }
    assert_eq!(ex.num_ready(), 4);
    assert_eq!(ex.status(a), Some(TaskStatus::Scheduled));
    assert_eq!(ex.next_task(), Ok(Some(a)));
    assert_eq!(ex.num_ready(), 3);
    assert_eq!(ex.end_resume(Progress::Done), Ok(a));
    // The surplus entries of the completed task are dropped unresumed.
    assert_eq!(ex.next_task(), Ok(None));
    assert_eq!(ex.num_ready(), 0);
    assert_eq!(ex.current(), None);
}

#[test]
fn fifo_order_of_wakes() {
    let mut ex = MiniTokio::new(1);
    let a = spawn(&mut ex);
    let b = spawn(&mut ex);
    for t in [a, b] {
        assert_eq!(ex.next_task(), Ok(Some(t)));
        assert_eq!(ex.end_resume(Progress::Suspended), Ok(t));
    }
    assert_eq!(ex.status(a), Some(TaskStatus::Idle));
    ex.wake(a);
    ex.wake(b);
    assert_eq!(ex.next_task(), Ok(Some(a)));
    assert_eq!(ex.end_resume(Progress::Done), Ok(a));
    assert_eq!(ex.next_task(), Ok(Some(b)));
}

#[test]
fn fifo_order_of_spawns() {
    let mut ex = MiniTokio::new(1);
    let ids: Vec<usize> = (0..4).map(|_| spawn(&mut ex)).collect();
    assert_eq!(ids, vec![0, 1, 2, 3]);
    for t in ids {
        assert_eq!(ex.next_task(), Ok(Some(t)));
        assert_eq!(ex.end_resume(Progress::Done), Ok(t));
    }
    assert_eq!(ex.num_tasks(), 4);
}

#[test]
fn wake_while_running_requeues_on_suspend() {
    let mut ex = MiniTokio::new(1);
    let a = spawn(&mut ex);
    assert_eq!(ex.next_task(), Ok(Some(a)));
    assert_eq!(ex.status(a), Some(TaskStatus::Running));
    ex.wake(a);
    assert_eq!(ex.status(a), Some(TaskStatus::Notified));
    assert_eq!(ex.num_ready(), 1);
    assert_eq!(ex.end_resume(Progress::Suspended), Ok(a));
    assert_eq!(ex.num_ready(), 1);
    assert_eq!(ex.status(a), Some(TaskStatus::Scheduled));
    assert_eq!(ex.next_task(), Ok(Some(a)));
}

#[test]
fn wake_while_running_then_done_completes() {
    let mut ex = MiniTokio::new(1);
    let a = spawn(&mut ex);
    assert_eq!(ex.next_task(), Ok(Some(a)));
    ex.waker(a).wake_by_ref(&mut ex);
    assert_eq!(ex.num_ready(), 1);
    assert_eq!(ex.end_resume(Progress::Done), Ok(a));
    assert_eq!(ex.num_ready(), 1);
    assert_eq!(ex.status(a), Some(TaskStatus::Complete));
    assert_eq!(ex.next_task(), Ok(None));
}

#[test]
fn wake_of_unknown_handle_does_nothing() {
    let mut ex = MiniTokio::new(1);
    ex.wake(7);
    assert_eq!(ex.num_tasks(), 0);
    assert_eq!(ex.num_ready(), 0);
    assert_eq!(ex.status(7), None);
}

#[test]
fn self_wake_keeps_wake_order() {
    let mut ex = MiniTokio::new(1);
    let a = spawn(&mut ex);
    let b = spawn(&mut ex);
    for t in [a, b] {
        assert_eq!(ex.next_task(), Ok(Some(t)));
        assert_eq!(ex.end_resume(Progress::Suspended), Ok(t));
    }
    ex.wake(a);
    assert_eq!(ex.next_task(), Ok(Some(a)));
    // The running task wakes itself, then wakes another, then suspends.
    ex.wake(a);
    ex.wake(b);
    assert_eq!(ex.end_resume(Progress::Suspended), Ok(a));
    assert_eq!(ex.next_task(), Ok(Some(a)));
    assert_eq!(ex.end_resume(Progress::Done), Ok(a));
    assert_eq!(ex.next_task(), Ok(Some(b)));
}

#[test]
fn waker_of_other_executor_does_nothing() {
    let mut one = MiniTokio::new(1);
    let mut two = MiniTokio::new(2);
    let a = spawn(&mut one);
    let b = spawn(&mut two);
    for ex in [&mut one, &mut two] {
        let t = ex.next_task().unwrap().unwrap();
        assert_eq!(ex.end_resume(Progress::Suspended), Ok(t));
    }
    let w = one.waker(a);
    assert_eq!(w.executor(), 1);
    assert_eq!(two.id(), 2);
    w.wake_by_ref(&mut two);
    assert_eq!(two.status(b), Some(TaskStatus::Idle));
    assert_eq!(two.num_ready(), 0);
    w.wake_by_ref(&mut one);
    assert_eq!(one.status(a), Some(TaskStatus::Scheduled));
    assert_eq!(one.num_ready(), 1);
}

#[test]
fn surplus_entry_of_suspended_task_is_skipped() {
    let mut ex = MiniTokio::new(1);
    let a = spawn(&mut ex);
    let b = spawn(&mut ex);
    ex.wake(a);
    assert_eq!(ex.num_ready(), 3);
    assert_eq!(ex.next_task(), Ok(Some(a)));
    assert_eq!(ex.end_resume(Progress::Suspended), Ok(a));
    assert_eq!(ex.next_task(), Ok(Some(b)));
    assert_eq!(ex.end_resume(Progress::Suspended), Ok(b));
    // The second entry of `a` predates its resumption: it is dropped.
    assert_eq!(ex.next_task(), Ok(None));
    assert_eq!(ex.status(a), Some(TaskStatus::Idle));
}
