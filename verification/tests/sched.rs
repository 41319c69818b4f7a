use c10::sched::Scheduler;

// One C10 tick, as nanoseconds: the nominal render period of the clock.
const TICK_NS: i64 = 86_400_000;

#[test]
fn steady_when_drift_is_zero() {
    let mut s = Scheduler::new(TICK_NS, 4);
    for _ in 0..10 {
        assert_eq!(s.advance(TICK_NS), Some(TICK_NS as u64));
    }
}

#[test]
fn overshoot_decays_as_the_ring_refills() {
    let mut s = Scheduler::new(TICK_NS, 4);
    // one cycle overshoots by 500 ns: the average drift becomes 125 ns
    assert_eq!(s.advance(TICK_NS + 500), Some((TICK_NS - 125) as u64));
    // while the overshoot sample sits in the ring the correction persists
    for _ in 0..3 {
        assert_eq!(s.advance(TICK_NS), Some((TICK_NS - 125) as u64));
    }
    // once the ring has wrapped past the anomalous sample, it is gone
    for _ in 0..5 {
        assert_eq!(s.advance(TICK_NS), Some(TICK_NS as u64));
    }
}

#[test]
fn undershoot_lengthens_the_sleep() {
    let mut s = Scheduler::new(1_000_000, 4);
    assert_eq!(s.advance(1_000_000 - 400), Some(1_000_100));
}

#[test]
fn negative_computed_sleep_yields_none() {
    let mut s = Scheduler::new(10, 1);
    assert_eq!(s.advance(1_000), None);
}
