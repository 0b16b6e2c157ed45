//! Limits that adapt.

use std::sync::Arc;
use throttle_net::{AdaptiveLimiter, AdaptiveStrategy, Aimd, Duration, ManualClock, Outcome, Ratio, Vegas};

fn millis(n: u64) -> core::time::Duration {
    core::time::Duration::from_millis(n)
}

fn half() -> Ratio {
    Ratio::new(1, 2)
}

fn assert_send_sync<T: Send + Sync>() {}

#[test]
fn test_adaptive_is_send_sync() {
    assert_send_sync::<AdaptiveLimiter<Aimd>>();
    assert_send_sync::<AdaptiveLimiter<Vegas>>();
}

#[test]
fn test_aimd_adjust_rules() {
    let mut aimd = Aimd::new(2, half());
    // Saturated success grows by the increase.
    assert_eq!(aimd.adjust(10, 10, Outcome::Success { rtt: Duration::zero() }), 12);
    // Unsaturated success holds.
    assert_eq!(aimd.adjust(10, 3, Outcome::Success { rtt: Duration::zero() }), 10);
    // Failure halves.
    assert_eq!(aimd.adjust(10, 10, Outcome::Failure), 5);
}

#[test]
fn test_degradation_drives_limit_to_floor() {
    let mut limiter =
        AdaptiveLimiter::builder().floor(4).ceiling(100).initial(64).build(Aimd::new(4, half()));

    // A run of failures collapses the limit to the floor, never below.
    for _ in 0..10 {
        let permit = limiter.try_acquire().expect("a slot under the limit");
        permit.failure(&mut limiter);
    }
    assert_eq!(limiter.current_limit(), 4);
}

#[test]
fn test_recovery_drives_limit_up_bounded_by_ceiling() {
    let mut limiter =
        AdaptiveLimiter::builder().floor(1).ceiling(8).initial(1).build(Aimd::new(1, half()));

    // Saturated successes grow the limit one step at a time up to the ceiling,
    // and never past it. Hold `permit`s so the limit stays saturated.
    for _ in 0..50 {
        let mut held = Vec::new();
        while let Some(p) = limiter.try_acquire() {
            held.push(p);
        }
        // Settle one as a saturated success to nudge the limit up.
        if let Some(p) = held.pop() {
            p.success(&mut limiter);
        }
        for p in held {
            p.success(&mut limiter);
        }
    }
    assert_eq!(limiter.current_limit(), 8, "grows to the ceiling");
    // Many more successes can never push it past the ceiling.
    for _ in 0..20 {
        let p = limiter.try_acquire().expect("slot");
        p.success(&mut limiter);
    }
    assert_eq!(limiter.current_limit(), 8, "never exceeds the ceiling");
}

#[test]
fn test_never_admits_more_than_the_limit() {
    let mut limiter =
        AdaptiveLimiter::builder().floor(3).ceiling(3).initial(3).build(Aimd::default());

    let p1 = limiter.try_acquire().expect("1");
    let p2 = limiter.try_acquire().expect("2");
    let p3 = limiter.try_acquire().expect("3");
    assert_eq!(limiter.in_flight(), 3);
    // The limit (and ceiling) is 3, so a fourth is refused.
    assert!(limiter.try_acquire().is_none());
    p1.abandon(&mut limiter);
    p2.abandon(&mut limiter);
    p3.abandon(&mut limiter);
}

#[test]
fn adaptive_test_dropping_permit_counts_as_failure() {
    let mut limiter =
        AdaptiveLimiter::builder().floor(1).ceiling(100).initial(10).build(Aimd::new(1, half()));
    limiter.try_acquire().expect("slot").abandon(&mut limiter); // unsettled -> failure
    assert_eq!(limiter.current_limit(), 5);
    assert_eq!(limiter.in_flight(), 0, "the slot is released");
}

#[test]
fn test_vegas_grows_on_low_latency_shrinks_on_high() {
    let clock = Arc::new(ManualClock::new());
    let mut limiter = AdaptiveLimiter::builder()
        .floor(1)
        .ceiling(100)
        .initial(20)
        .build(Vegas::new(3, 6))
        .with_clock(clock.clone());

    // First success establishes the min RTT at 10ms (queue estimate 0 -> grow).
    let p = limiter.try_acquire().expect("slot");
    clock.advance(millis(10));
    p.success(&mut limiter);
    assert_eq!(limiter.current_limit(), 21);

    // A much slower request (200ms) implies a deep queue -> shrink.
    let p = limiter.try_acquire().expect("slot");
    clock.advance(millis(200));
    p.success(&mut limiter);
    assert!(limiter.current_limit() < 21, "high latency shrinks the limit");
}

#[test]
fn test_async_acquire_waits_for_a_freed_slot() {
    let mut limiter =
        AdaptiveLimiter::builder().floor(1).ceiling(1).initial(1).build(Aimd::default());
    let held = limiter.try_acquire().expect("the one slot");
    assert!(limiter.try_acquire().is_none());
    held.success(&mut limiter);
    limiter.try_acquire().expect("the freed slot").success(&mut limiter);
}

#[test]
fn single_slot_is_never_double_admitted() {
    let mut limiter =
        AdaptiveLimiter::builder().floor(1).ceiling(1).initial(1).build(Aimd::default());
    for _ in 0..10 {
        let permit = limiter.try_acquire().unwrap();
        // The ceiling is the hard cap; it can never be exceeded.
        assert!(limiter.in_flight() <= limiter.ceiling());
        assert!(limiter.try_acquire().is_none());
        permit.success(&mut limiter);
    }
    // Every reserved slot was released exactly once.
    assert_eq!(limiter.in_flight(), 0, "a slot leaked");
}

#[test]
fn two_slots_bound_in_flight_and_drain() {
    let mut limiter =
        AdaptiveLimiter::builder().floor(1).ceiling(2).initial(2).build(Aimd::default());
    let first = limiter.try_acquire().unwrap();
    let second = limiter.try_acquire().unwrap();
    assert!(limiter.in_flight() <= 2);
    first.abandon(&mut limiter);
    second.success(&mut limiter);
    assert_eq!(limiter.in_flight(), 0, "a slot leaked");
}

#[test]
fn a_decrease_leaves_at_least_one() {
    let mut aimd = Aimd::new(1, Ratio::new(1, 10));
    assert_eq!(aimd.adjust(5, 1, Outcome::Failure), 1);
    assert_eq!(aimd.adjust(95, 1, Outcome::Failure), 9);
    // A ratio above one is held to one, and no increase is less than one.
    let mut flat = Aimd::new(0, Ratio::new(7, 2));
    assert_eq!(flat.adjust(40, 1, Outcome::Failure), 40);
    assert_eq!(flat.adjust(40, 40, Outcome::Success { rtt: Duration::zero() }), 41);
    assert_eq!(flat.adjust(u32::MAX, u32::MAX, Outcome::Success { rtt: Duration::zero() }), u32::MAX);
}

#[test]
fn a_queue_estimate_between_the_bounds_holds_the_limit() {
    let ms = Duration::from_millis;
    let mut vegas = Vegas::new(3, 6);
    assert_eq!(vegas.adjust(20, 20, Outcome::Success { rtt: ms(10) }), 21);
    // 20 * (1 - 10/12) = 3.33: between the bounds.
    assert_eq!(vegas.adjust(20, 20, Outcome::Success { rtt: ms(12) }), 20);
    // 20 * (1 - 10/20) = 10: over the upper bound.
    assert_eq!(vegas.adjust(20, 20, Outcome::Success { rtt: ms(20) }), 19);
    // 20 * (1 - 10/11) = 1.8: under the lower bound.
    assert_eq!(vegas.adjust(20, 20, Outcome::Success { rtt: ms(11) }), 21);
    assert_eq!(vegas.adjust(20, 20, Outcome::Failure), 10);
}

#[test]
fn the_limit_stays_between_floor_and_ceiling() {
    let limiter = AdaptiveLimiter::builder().floor(5).ceiling(10).initial(99).build(Vegas::default());
    assert_eq!(limiter.current_limit(), 10);
    let limiter = AdaptiveLimiter::builder().floor(5).ceiling(10).initial(0).build(Vegas::default());
    assert_eq!(limiter.current_limit(), 5);
    // A ceiling below the floor is raised to it.
    let limiter = AdaptiveLimiter::builder().floor(8).ceiling(2).initial(8).build(Vegas::default());
    assert_eq!(limiter.ceiling(), 8);
    assert_eq!(limiter.current_limit(), 8);
}

#[test]
fn nothing_is_in_flight_once_every_place_has_come_back() {
    let mut limiter = AdaptiveLimiter::builder().floor(2).ceiling(6).initial(4).build(Aimd::new(1, half()));
    let mut held = 0u32;
    for i in 0..200u32 {
        if i % 5 < 3 {
            if limiter.try_reserve() {
                held += 1;
            }
        } else if held > 0 {
            let outcome = if i % 2 == 0 {
                Outcome::Failure
            } else {
                Outcome::Success { rtt: Duration::from_millis(1) }
            };
            limiter.settle(outcome);
            held -= 1;
        }
        assert_eq!(limiter.in_flight(), held);
        assert!(limiter.in_flight() <= limiter.ceiling());
    }
    while held > 0 {
        limiter.settle(Outcome::Failure);
        held -= 1;
    }
    assert_eq!(limiter.in_flight(), 0);
}
