use ttsched::scheduler::Scheduler;
use ttsched::scheduler::StaticScheduler;
use ttsched::scheduler::StaticSchedulerInner;
use ttsched::scheduler::DEFAULT_TIME_SLICE;

#[test]
fn round_fairness_most_recent_first() {
    // Pushing {1: slice 10, 2: slice 10, 3: slice 10} with a round budget of
    // 25 regenerates one round holding exactly 3, 2, 1 in drain order.
    let mut s = StaticSchedulerInner::new(25);
    s.push(1, 10);
    s.push(2, 10);
    s.push(3, 10);
    assert_eq!(s.pop(), Some(3));
    assert_eq!(s.pop(), Some(2));
    assert_eq!(s.pop(), Some(1));
    assert_eq!(s.pop(), None);
}

#[test]
fn round_budget_bounds_regeneration() {
    // With four tasks of slice 10 and a budget of 25, the round closes once
    // the accumulated slices exceed the budget: 4, 3 and 2 enter the round,
    // 1 waits for the next one.
    let mut s = StaticSchedulerInner::new(25);
    s.push(1, 10);
    s.push(2, 10);
    s.push(3, 10);
    s.push(4, 10);
    assert_eq!(s.pop(), Some(4));
    assert_eq!(s.pop(), Some(3));
    assert_eq!(s.pop(), Some(2));
    assert_eq!(s.pop(), Some(1));
    assert_eq!(s.pop(), None);
}

#[test]
fn empty_scheduler_pops_nothing() {
    let mut s = StaticSchedulerInner::new(25);
    assert_eq!(s.pop(), None);
}

#[test]
fn slice_exhaustion_triggers_reschedule() {
    // A task running with remaining slice 3 reports "no reschedule" on the
    // first two ticks and demands one on the third, exactly when the slice
    // reaches zero.
    let mut s = StaticSchedulerInner::new(100);
    s.push(7, 3);
    assert_eq!(s.pop(), Some(7));
    assert!(!s.tick(7));
    assert!(!s.tick(7));
    assert!(s.tick(7));
}

#[test]
fn exhausted_task_readmitted_with_default_slice() {
    let mut s = StaticSchedulerInner::new(100);
    s.push(7, 1);
    assert_eq!(s.pop(), Some(7));
    assert!(s.tick(7));
    // the task is pending again, with a fresh default slice
    assert_eq!(s.pop(), Some(7));
    for _ in 0..DEFAULT_TIME_SLICE - 1 {
        assert!(!s.tick(7));
    }
    assert!(s.tick(7));
}

#[test]
fn shared_tick_reports_usage_error() {
    let s = StaticScheduler::new(25);
    s.push(1);
    // ticking a task still queued in a list is a usage error: refused,
    // state untouched
    assert_eq!(s.tick_checked(1), None);
    assert!(!s.tick(1));
    // once dispatched, the task is in neither list and its ticks count
    assert_eq!(s.pop(0), Some(1));
    assert_eq!(s.tick_checked(1), Some(false));
}

#[test]
fn shared_scheduler_round_trip() {
    // The same round fairness through the lock-guarded policy interface.
    let s = StaticScheduler::new(25);
    s.push(1);
    s.push(2);
    s.push(3);
    assert_eq!(s.pop(0), Some(3));
    assert_eq!(s.pop(0), Some(2));
    assert!(!s.tick(3));
    assert_eq!(s.pop(0), Some(1));
    assert_eq!(s.pop(0), None);
    s.set_priority(1, 5);
}
