use ttsched::tt_scheduler::NaiveTTInfo;
use ttsched::tt_scheduler::NaiveTTScheduler;
use ttsched::tt_scheduler::NaiveTTSchedulerInner;
use ttsched::tt_scheduler::TTScheduler;

#[test]
fn admission_rejects_overlapping_windows() {
    // Windows [0, 50] and [40, 60] of one 100 ms cycle overlap: the second
    // reservation is rejected.  [60, 80] is disjoint and admitted.
    let mut s = NaiveTTSchedulerInner::new(1);
    assert!(s.push(1, 100, 0, 50));
    assert!(!s.push(2, 100, 40, 20));
    assert!(s.push(3, 100, 60, 20));
}

#[test]
fn admission_rejects_window_larger_than_cycle() {
    let mut s = NaiveTTSchedulerInner::new(1);
    assert!(!s.push(1, 100, 90, 20));
    assert!(!s.push(1, 100, 0, 101));
    assert!(s.push(1, 100, 90, 10));
}

#[test]
fn admission_rejects_zero_cycle() {
    let mut s = NaiveTTSchedulerInner::new(1);
    assert!(!s.push(1, 0, 0, 0));
}

#[test]
fn endpoint_test_misses_containment() {
    // Known gap of the endpoint test: a window that strictly
    // contains an admitted one slips through, because only the new window's
    // endpoints are tested against the old window.  [0, 100] contains
    // [40, 60] yet is admitted.  This characterizes the gap; it does not
    // bless it.
    let mut s = NaiveTTSchedulerInner::new(1);
    assert!(s.push(1, 100, 40, 20));
    assert!(s.push(2, 100, 0, 100));
}

#[test]
fn conflict_test_is_symmetric_in_cycle_order() {
    let a = NaiveTTInfo::new(1, 50, 0, 10);
    let b = NaiveTTInfo::new(2, 100, 5, 10);
    // the shifted copies of [0, 10] at 0 and 50 both touch [5, 15]
    assert!(a.check_conflict(&b));
    assert!(b.check_conflict(&a));
    let c = NaiveTTInfo::new(3, 100, 20, 5);
    assert!(!a.check_conflict(&c));
    assert!(!c.check_conflict(&a));
}

#[test]
fn activation_punctuality() {
    // Admitted at logical time 0, a reservation with cycle 100 and offset 10
    // first activates at 10: the first instant at or after "now" whose phase
    // within the cycle equals the offset.
    let mut s = NaiveTTSchedulerInner::new(1);
    assert!(s.push(7, 100, 10, 5));
    assert_eq!(s.time_table, vec![(10, 0)]);
    for _ in 0..5 {
        s.tick();
    }
    // not yet due: pop returns nothing before the activation instant
    assert_eq!(s.time, 5);
    assert_eq!(s.pop(), None);
    for _ in 5..10 {
        s.tick();
    }
    assert_eq!(s.time, 10);
    assert_eq!(s.pop(), Some(7));
}

#[test]
fn tick_signals_reschedule_exactly_on_activation() {
    let mut s = NaiveTTSchedulerInner::new(1);
    assert!(s.push(7, 100, 10, 5));
    for t in 1..=10 {
        let due = s.tick();
        assert_eq!(due, t == 10, "tick at time {}", t);
    }
}

#[test]
fn periodicity_redispatches_one_cycle_later() {
    // After a dispatch at 10, the reservation is due again at exactly 110,
    // never earlier.
    let mut s = NaiveTTSchedulerInner::new(1);
    assert!(s.push(7, 100, 10, 5));
    for _ in 0..10 {
        s.tick();
    }
    assert_eq!(s.pop(), Some(7));
    for t in 11..=110 {
        s.tick();
        if t < 110 {
            assert_eq!(s.pop(), None, "pop at time {}", t);
        }
    }
    assert_eq!(s.time, 110);
    assert_eq!(s.pop(), Some(7));
}

#[test]
fn budget_consumed_then_idle() {
    let mut s = NaiveTTSchedulerInner::new(1);
    assert!(s.push(7, 100, 10, 5));
    for _ in 0..10 {
        s.tick();
    }
    assert_eq!(s.pop(), Some(7));
    assert!(s.working());
    assert_eq!(s.time_slice, 5);
    // the window's budget is consumed one millisecond per boundary
    for _ in 0..5 {
        assert!(!s.tick());
    }
    assert!(!s.working());
}

#[test]
fn stop_relinquishes_window() {
    let mut s = NaiveTTSchedulerInner::new(1);
    assert!(s.push(7, 100, 10, 5));
    for _ in 0..10 {
        s.tick();
    }
    assert_eq!(s.pop(), Some(7));
    assert!(s.working());
    s.stop();
    assert!(!s.working());
    assert_eq!(s.time_slice, 0);
}

#[test]
fn hardware_tick_ratio_drives_logical_clock() {
    // Three hardware ticks per millisecond: the clock reaches the first
    // activation at 4 ms only after 12 hardware ticks.
    let mut s = NaiveTTSchedulerInner::new(3);
    assert!(s.push(4, 10, 4, 2));
    for t in 1..=12 {
        let due = s.tick();
        assert_eq!(due, t == 12, "hardware tick {}", t);
    }
    assert_eq!(s.time, 4);
    assert_eq!(s.pop(), Some(4));
}

#[test]
fn shared_tt_scheduler_round_trip() {
    // The same punctuality through the lock-guarded policy interface.
    let s = NaiveTTScheduler::new(1);
    assert!(s.push(9, 10, 2, 1));
    assert!(!s.push(8, 10, 2, 1));
    for t in 1..=2 {
        let due = s.tick();
        assert_eq!(due, t == 2, "tick {}", t);
    }
    assert_eq!(s.pop(), Some(9));
    assert!(s.working());
    s.stop();
    assert!(!s.working());
}

#[test]
fn two_reservations_dispatch_at_their_own_phases() {
    let mut s = NaiveTTSchedulerInner::new(1);
    assert!(s.push(1, 100, 0, 50));
    assert!(s.push(2, 100, 60, 20));
    // first activations: phase 0 is "now", phase 60 comes at 60
    assert_eq!(s.pop(), Some(1));
    s.stop();
    for _ in 0..60 {
        s.tick();
    }
    assert_eq!(s.pop(), Some(2));
}
