use ttsched::processor::Context;
use ttsched::processor::DispatchAction;
use ttsched::processor::Processor;

#[test]
fn fresh_processor_is_idle_and_uninitialized() {
    let p = Processor::new();
    assert_eq!(p.tid_option(), None);
}

#[test]
fn dispatch_runs_the_chosen_task() {
    let mut p = Processor::new();
    p.init(0, Context::new(1));
    let action = p.dispatch(Some((5, Context::new(2))));
    match action {
        DispatchAction::Switch { from, to } => {
            assert_eq!(from, Context::new(1));
            assert_eq!(to, Context::new(2));
        },
        DispatchAction::WaitForInterrupt => panic!("a runnable task must be switched to"),
    }
    assert_eq!(p.tid(), 5);
    assert_eq!(p.tid_option(), Some(5));
    assert_eq!(*p.context(), Context::new(2));
}

#[test]
fn idle_dispatch_waits_for_interrupt() {
    // A pool that returns nothing makes the loop wait for an interrupt
    // instead of querying the pool again at once: the CPU never busy-spins.
    let mut p = Processor::new();
    p.init(3, Context::new(7));
    for _ in 0..4 {
        assert!(matches!(p.dispatch(None), DispatchAction::WaitForInterrupt));
        assert_eq!(p.tid_option(), None);
    }
}

#[test]
fn yield_switches_back_into_the_loop() {
    let mut p = Processor::new();
    p.init(0, Context::new(1));
    p.dispatch(Some((5, Context::new(2))));
    assert_eq!(p.yield_now(), (Context::new(2), Context::new(1)));
}

#[test]
fn tick_forces_a_yield_only_on_reschedule() {
    let mut p = Processor::new();
    p.init(0, Context::new(1));
    p.dispatch(Some((5, Context::new(2))));
    assert_eq!(p.tick(false), None);
    assert_eq!(p.tick(true), Some((Context::new(2), Context::new(1))));
}

#[test]
fn retire_clears_the_current_task() {
    let mut p = Processor::new();
    p.init(0, Context::new(1));
    p.dispatch(Some((5, Context::new(2))));
    let (tid, ctx) = p.retire();
    assert_eq!(tid, 5);
    assert_eq!(ctx, Context::new(2));
    assert_eq!(p.tid_option(), None);
}
