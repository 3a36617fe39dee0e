use schedular::{PollAction, PollRun, Schedular, SchedularPoll};

/// Runs one poll to its end; `drive` performs a task's step and says
/// whether it completed. Returns the status and the tasks driven, in order.
fn run_poll<F>(s: &mut Schedular, mut drive: F) -> (SchedularPoll, Vec<usize>)
where
    F: FnMut(&mut Schedular, usize) -> bool,
{
    let mut run = PollRun::new();
    let mut driven = Vec::new();
    loop {
        match s.poll(&mut run) {
            PollAction::Return(p) => return (p, driven),
            PollAction::Drive(id) => {
                driven.push(id);
                let ready = drive(s, id);
                if let Some(p) = s.complete_drive(&mut run, ready) {
                    return (p, driven);
                }
            }
        }
    }
}

#[test]
fn poll_on_empty_scheduler_returns_empty() {
    let mut s = Schedular::new();
    let mut run = PollRun::new();
    assert_eq!(s.poll(&mut run), PollAction::Return(SchedularPoll::Empty));
    assert!(s.is_empty());
    assert_eq!(s.len(), 0);
    assert_eq!(s.task_count(), 0);
    assert_eq!(s.queue_len(), 0);
    assert_eq!(run.iteration(), 0);
    assert_eq!(run.driving(), None);
}

#[test]
fn spawn_links_and_queues_without_driving() {
    let mut s = Schedular::new();
    let a = s.push();
    let b = s.push();
    assert_eq!((a, b), (0, 1));
    assert!(!s.is_empty());
    assert_eq!(s.len(), 2);
    assert_eq!(s.queue_len(), 2);
    assert!(s.is_queued(a) && s.is_queued(b));
    assert!(!s.is_running(a) && !s.is_done(a));
    assert_eq!(s.ref_count(a), 2);
    assert_eq!(s.waker_count(a), 0);
}

#[test]
fn task_completing_on_first_drive_is_removed_once() {
    let mut s = Schedular::new();
    let a = s.push();
    let (p, driven) = run_poll(&mut s, |_, _| true);
    assert_eq!(p, SchedularPoll::PendingProgress);
    assert_eq!(driven, vec![a]);
    assert!(s.is_empty());
    assert_eq!(s.len(), 0);
    assert!(s.is_done(a));
    assert_eq!(s.ref_count(a), 0);
    assert!(s.is_released(a));
    // nothing is left to release a second time
    assert_eq!(s.clear(), Vec::<usize>::new());
    assert_eq!(s.ref_count(a), 0);
}

#[test]
fn one_poll_drives_pending_and_completing_tasks() {
    let mut s = Schedular::new();
    let a = s.push();
    let b = s.push();
    let (p, driven) = run_poll(&mut s, |_, id| id == b);
    assert_eq!(p, SchedularPoll::PendingProgress);
    assert_eq!(driven, vec![a, b]);
    assert!(!s.is_done(a));
    assert!(s.is_done(b));
    assert!(!s.is_empty());
    assert_eq!(s.len(), 1);
    assert!(!s.is_queued(a));
    assert_eq!(s.ref_count(a), 1);
    // a second poll finds nothing ready
    let (p, driven) = run_poll(&mut s, |_, _| true);
    assert_eq!(p, SchedularPoll::Pending);
    assert!(driven.is_empty());
}

#[test]
fn clear_finalizes_pending_tasks() {
    let mut s = Schedular::new();
    let ids = vec![s.push(), s.push(), s.push()];
    let (p, driven) = run_poll(&mut s, |_, _| false);
    assert_eq!(p, SchedularPoll::PendingProgress);
    assert_eq!(driven, ids);
    assert_eq!(s.len(), 3);
    let released = s.clear();
    assert_eq!(released, vec![2, 1, 0]);
    assert_eq!(s.len(), 0);
    assert!(s.is_empty());
    for id in ids {
        assert!(s.is_done(id));
        assert!(s.is_released(id));
    }
    let mut run = PollRun::new();
    assert_eq!(s.poll(&mut run), PollAction::Return(SchedularPoll::Empty));
}

#[test]
fn clear_drains_queue_entries() {
    let mut s = Schedular::new();
    let a = s.push();
    let b = s.push();
    assert_eq!(s.clear(), vec![b, a]);
    assert_eq!(s.queue_len(), 0);
    assert_eq!(s.ref_count(a), 0);
    assert_eq!(s.ref_count(b), 0);
}

#[test]
fn self_waking_task_makes_poll_yield() {
    let mut s = Schedular::new();
    let a = s.push();
    let (p, driven) = run_poll(&mut s, |s, id| {
        s.wake_by_ref(id);
        false
    });
    // the second drive has driven more tasks than are alive
    assert_eq!(p, SchedularPoll::ShouldYield);
    assert_eq!(driven, vec![a, a]);
    assert!(s.is_queued(a));
    assert_eq!(s.reentrant(), 0);
}

#[test]
fn many_self_waking_tasks_yield_after_three() {
    let mut s = Schedular::new();
    for _ in 0..5 {
        s.push();
    }
    let (p, driven) = run_poll(&mut s, |s, id| {
        s.wake_by_ref(id);
        false
    });
    assert_eq!(p, SchedularPoll::ShouldYield);
    assert_eq!(driven, vec![0, 1, 2]);
    assert_eq!(s.len(), 5);
}

#[test]
fn repeated_wakes_enqueue_once() {
    let mut s = Schedular::new();
    let a = s.push();
    let (_, _) = run_poll(&mut s, |s, id| {
        s.clone_waker(id);
        s.clone_waker(id);
        s.clone_waker(id);
        false
    });
    assert!(!s.is_queued(a));
    assert_eq!(s.waker_count(a), 3);
    assert_eq!(s.ref_count(a), 4);
    s.wake_by_ref(a);
    s.wake_by_ref(a);
    assert_eq!(s.queue_len(), 1);
    s.wake(a);
    s.wake(a);
    assert_eq!(s.queue_len(), 1);
    assert_eq!(s.waker_count(a), 1);
    // list, queue entry, one handle
    assert_eq!(s.ref_count(a), 3);
}

#[test]
fn wake_moves_handle_share_into_queue() {
    let mut s = Schedular::new();
    let a = s.push();
    let _ = run_poll(&mut s, |s, id| {
        s.clone_waker(id);
        false
    });
    assert_eq!(s.ref_count(a), 2);
    s.wake(a);
    assert!(s.is_queued(a));
    assert_eq!(s.waker_count(a), 0);
    assert_eq!(s.ref_count(a), 2);
    assert_eq!(s.queue_len(), 1);
}

#[test]
fn shares_outlive_completion_until_last_handle() {
    let mut s = Schedular::new();
    let a = s.push();
    let (p, _) = run_poll(&mut s, |s, id| {
        s.clone_waker(id);
        true
    });
    assert_eq!(p, SchedularPoll::PendingProgress);
    assert!(s.is_done(a));
    assert!(!s.is_released(a));
    assert_eq!(s.ref_count(a), 1);
    // waking a finished task enters nothing
    s.wake_by_ref(a);
    assert_eq!(s.queue_len(), 0);
    s.drop_waker(a);
    assert!(s.is_released(a));
}

#[test]
fn leftover_entry_of_finished_task_is_skipped() {
    let mut s = Schedular::new();
    let a = s.push();
    let b = s.push();
    // a wakes itself and then completes: its entry stays behind
    let (p, driven) = run_poll(&mut s, |s, id| {
        if id == a {
            s.wake_by_ref(id);
            true
        } else {
            false
        }
    });
    // b was driven while only one task was alive
    assert_eq!(p, SchedularPoll::ShouldYield);
    assert_eq!(driven, vec![a, b]);
    assert!(s.is_done(a));
    assert_eq!(s.ref_count(a), 1);
    assert_eq!(s.queue_len(), 1);
    let (p, driven) = run_poll(&mut s, |_, _| false);
    assert_eq!(p, SchedularPoll::Pending);
    assert!(driven.is_empty());
    assert!(s.is_released(a));
    assert_eq!(s.queue_len(), 0);
}

#[test]
fn nested_poll_does_not_drive_running_task() {
    let mut s = Schedular::new();
    let a = s.push();
    let b = s.push();
    let mut inner_statuses = Vec::new();
    let mut inner_driven = Vec::new();
    let (p, driven) = run_poll(&mut s, |s, id| {
        if id == a {
            s.wake_by_ref(a);
            let (q, d) = run_poll(s, |_, _| true);
            inner_statuses.push(q);
            inner_driven.extend(d);
            assert!(s.is_running(a));
            assert_eq!(s.reentrant(), 1);
            false
        } else {
            true
        }
    });
    // the first nested poll drives b and meets a twice; the second meets
    // only a
    assert_eq!(
        inner_statuses,
        vec![SchedularPoll::PendingProgress, SchedularPoll::Pending]
    );
    assert_eq!(inner_driven, vec![b]);
    assert!(s.is_done(b));
    assert!(!s.is_done(a));
    assert_eq!(driven, vec![a, a]);
    assert_eq!(p, SchedularPoll::ShouldYield);
    assert_eq!(s.len(), 1);
    assert_eq!(s.reentrant(), 0);
}

#[test]
fn nested_poll_with_only_running_task_returns_pending() {
    let mut s = Schedular::new();
    let a = s.push();
    let mut inner_status = None;
    let _ = run_poll(&mut s, |s, id| {
        s.wake_by_ref(id);
        let (q, d) = run_poll(s, |_, _| true);
        assert!(d.is_empty());
        inner_status = Some(q);
        true
    });
    assert_eq!(inner_status, Some(SchedularPoll::Pending));
    assert!(s.is_done(a));
}
