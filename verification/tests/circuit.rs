//! The circuit breaker.

use std::sync::Arc;
use throttle_net::{
    BreakerState, CircuitBreaker, Duration, ManualClock, Ratio, Step, Throttle, ThrottleError, Trip,
};

fn secs(n: u64) -> core::time::Duration {
    core::time::Duration::from_secs(n)
}

fn assert_send_sync<T: Send + Sync>() {}

/// A generously-fast limiter so the breaker, not rate-limiting, is under test.
fn open_limiter() -> Throttle {
    Throttle::per_second(1_000_000)
}

fn breaker(
    trip: Trip,
    cooldown: Duration,
    clock: Arc<ManualClock>,
) -> CircuitBreaker<Throttle, Arc<ManualClock>> {
    CircuitBreaker::builder()
        .trip(trip)
        .cooldown(cooldown)
        .half_open(1, 1)
        .build(open_limiter())
        .with_clock(clock)
}

#[test]
fn test_breaker_is_send_sync() {
    assert_send_sync::<CircuitBreaker<Throttle>>();
}

#[test]
fn test_consecutive_failures_trip_open() {
    let clock = Arc::new(ManualClock::new());
    let mut cb = breaker(Trip::Consecutive(3), Duration::from_secs(10), clock);

    assert_eq!(cb.state(), BreakerState::Closed);
    cb.record_failure();
    cb.record_failure();
    assert_eq!(cb.state(), BreakerState::Closed);
    cb.record_failure(); // third in a row
    assert_eq!(cb.state(), BreakerState::Open);
}

#[test]
fn test_success_resets_consecutive_count() {
    let clock = Arc::new(ManualClock::new());
    let mut cb = breaker(Trip::Consecutive(3), Duration::from_secs(10), clock);

    cb.record_failure();
    cb.record_failure();
    cb.record_success(); // resets
    cb.record_failure();
    cb.record_failure();
    assert_eq!(cb.state(), BreakerState::Closed); // only two since reset
}

#[test]
fn test_open_sheds_requests_without_touching_limiter() {
    let clock = Arc::new(ManualClock::new());
    let mut cb = breaker(Trip::Consecutive(1), Duration::from_secs(10), clock);

    cb.record_failure(); // trips open
    assert_eq!(cb.state(), BreakerState::Open);

    let before = cb.inner().available();
    let result = cb.try_acquire();
    assert!(matches!(result, Err(ThrottleError::CircuitOpen { .. })));
    // The wrapped limiter was not consumed.
    assert_eq!(cb.inner().available(), before);
}

#[test]
fn test_half_open_after_cooldown_then_close_on_success() {
    let clock = Arc::new(ManualClock::new());
    let mut cb = breaker(Trip::Consecutive(1), Duration::from_secs(10), clock.clone());

    cb.record_failure(); // open
    assert_eq!(cb.state(), BreakerState::Open);

    clock.advance(secs(10)); // cooldown elapsed
    let permit = cb.try_acquire().unwrap().expect("a trial is admitted");
    assert_eq!(cb.state(), BreakerState::HalfOpen);
    permit.success(&mut cb);
    assert_eq!(cb.state(), BreakerState::Closed);
}

#[test]
fn test_half_open_failure_reopens() {
    let clock = Arc::new(ManualClock::new());
    let mut cb = breaker(Trip::Consecutive(1), Duration::from_secs(10), clock.clone());

    cb.record_failure(); // open
    clock.advance(secs(10));
    let permit = cb.try_acquire().unwrap().expect("a trial is admitted");
    assert_eq!(cb.state(), BreakerState::HalfOpen);
    permit.failure(&mut cb); // trial failed
    assert_eq!(cb.state(), BreakerState::Open);
}

#[test]
fn test_open_rejects_until_cooldown_elapses() {
    let clock = Arc::new(ManualClock::new());
    let mut cb = breaker(Trip::Consecutive(1), Duration::from_secs(10), clock.clone());

    cb.record_failure(); // open
    clock.advance(secs(9)); // not yet
    assert!(matches!(cb.try_acquire(), Err(ThrottleError::CircuitOpen { .. })));
    clock.advance(secs(1)); // now cooled down
    assert!(cb.try_acquire().unwrap().is_some());
}

#[test]
fn circuit_test_dropping_permit_counts_as_failure() {
    let clock = Arc::new(ManualClock::new());
    let mut cb = breaker(Trip::Consecutive(2), Duration::from_secs(10), clock);

    // Two acquired-but-dropped permits count as two failures and trip it.
    cb.try_acquire().unwrap().unwrap().abandon(&mut cb);
    assert_eq!(cb.state(), BreakerState::Closed);
    cb.try_acquire().unwrap().unwrap().abandon(&mut cb);
    assert_eq!(cb.state(), BreakerState::Open);
}

#[test]
fn test_ratio_trip() {
    let clock = Arc::new(ManualClock::new());
    let mut cb = breaker(
        Trip::Ratio { window: 10, ratio: Ratio::new(1, 2), min_calls: 4 },
        Duration::from_secs(10),
        clock,
    );

    cb.record_success();
    cb.record_success();
    assert_eq!(cb.state(), BreakerState::Closed);
    cb.record_failure();
    cb.record_failure(); // 2/4 = 0.5 with 4 calls
    assert_eq!(cb.state(), BreakerState::Open);
}

#[test]
fn test_windowed_trip_prunes_old_failures() {
    let clock = Arc::new(ManualClock::new());
    let mut cb = breaker(
        Trip::Windowed { failures: 3, period: Duration::from_secs(5) },
        Duration::from_secs(10),
        clock.clone(),
    );

    cb.record_failure();
    clock.advance(secs(6)); // first failure ages out of the window
    cb.record_failure();
    cb.record_failure();
    assert_eq!(cb.state(), BreakerState::Closed); // only 2 within 5s
    cb.record_failure();
    assert_eq!(cb.state(), BreakerState::Open); // 3 within 5s
}

/// A breaker that trips on failures in a row is open in the end exactly when the outcomes reach
/// that many failures in a row at some point. A long cooldown keeps it from recovering.
#[test]
fn a_breaker_is_open_exactly_after_enough_failures_in_a_row() {
    for threshold in 1u32..8 {
        for seed in 0..64u64 {
            let mut bits = seed.wrapping_mul(0x9E37_79B9_7F4A_7C15) ^ u64::from(threshold);
            let seq: Vec<bool> = (0..40)
                .map(|_| {
                    bits ^= bits << 13;
                    bits ^= bits >> 7;
                    bits ^= bits << 17;
                    bits % 4 != 0
                })
                .collect();

            let clock = Arc::new(ManualClock::new());
            let mut breaker = CircuitBreaker::builder()
                .trip(Trip::Consecutive(threshold))
                .cooldown(Duration::from_secs(3600))
                .build(open_limiter())
                .with_clock(clock);

            let mut run = 0u32;
            let mut should_trip = false;
            for &fail in &seq {
                if !should_trip {
                    run = if fail { run + 1 } else { 0 };
                    if run >= threshold {
                        should_trip = true;
                    }
                }
            }

            for &fail in &seq {
                if fail {
                    breaker.record_failure();
                } else {
                    breaker.record_success();
                }
            }
            assert_eq!(breaker.state() == BreakerState::Open, should_trip);
        }
    }
}

#[test]
fn half_open_recovery_closes_on_success_reopens_on_failure() {
    let clock = Arc::new(ManualClock::new());
    let mut breaker = CircuitBreaker::builder()
        .trip(Trip::Consecutive(1))
        .cooldown(Duration::from_secs(10))
        .half_open(1, 1)
        .build(open_limiter())
        .with_clock(clock.clone());

    // Trip open.
    breaker.record_failure();
    assert_eq!(breaker.state(), BreakerState::Open);

    // Before cooldown: still open, requests shed.
    assert!(matches!(breaker.try_acquire(), Err(ThrottleError::CircuitOpen { .. })));

    // After cooldown: a trial is admitted (half-open) and its failure reopens.
    clock.advance(secs(10));
    let trial = breaker.try_acquire().unwrap().expect("trial admitted");
    assert_eq!(breaker.state(), BreakerState::HalfOpen);
    trial.failure(&mut breaker);
    assert_eq!(breaker.state(), BreakerState::Open);

    // After another cooldown: a successful trial closes it.
    clock.advance(secs(10));
    let trial = breaker.try_acquire().unwrap().expect("trial admitted");
    assert_eq!(breaker.state(), BreakerState::HalfOpen);
    trial.success(&mut breaker);
    assert_eq!(breaker.state(), BreakerState::Closed);
}

#[test]
fn open_breaker_fails_fast_without_waiting() {
    let clock = Arc::new(ManualClock::new());
    let mut breaker = CircuitBreaker::builder()
        .trip(Trip::Consecutive(1))
        .cooldown(Duration::from_secs(60))
        .build(open_limiter())
        .with_clock(clock);

    breaker.record_failure(); // open

    // Entering fails at once with CircuitOpen — no waiting on the cooldown, no
    // consumption of the wrapped limiter.
    let before = breaker.inner().available();
    let result = breaker.enter();
    assert!(matches!(result, Err(ThrottleError::CircuitOpen { .. })));
    assert_eq!(breaker.inner().available(), before);
}

#[test]
fn a_shed_request_is_told_the_rest_of_the_cooldown() {
    let clock = Arc::new(ManualClock::new());
    let mut cb = breaker(Trip::Consecutive(1), Duration::from_secs(10), clock.clone());
    cb.record_failure();
    clock.advance(secs(4));
    assert!(matches!(
        cb.try_acquire(),
        Err(ThrottleError::CircuitOpen { retry_after }) if retry_after == Duration::from_secs(6)
    ));
}

#[test]
fn trials_are_limited_and_enough_must_succeed() {
    let clock = Arc::new(ManualClock::new());
    let mut cb = CircuitBreaker::builder()
        .trip(Trip::Consecutive(1))
        .cooldown(Duration::from_secs(10))
        .half_open(2, 9)
        .build(open_limiter())
        .with_clock(clock.clone());
    cb.record_failure();
    clock.advance(secs(10));
    let first = cb.try_acquire().unwrap().unwrap();
    let second = cb.try_acquire().unwrap().unwrap();
    // Both trials are under way: a third request is shed, with no wait.
    assert!(matches!(
        cb.try_acquire(),
        Err(ThrottleError::CircuitOpen { retry_after }) if retry_after.is_zero()
    ));
    // No more successes are required than there are trials.
    first.success(&mut cb);
    assert_eq!(cb.state(), BreakerState::HalfOpen);
    second.success(&mut cb);
    assert_eq!(cb.state(), BreakerState::Closed);
}

#[test]
fn a_request_the_limiter_refuses_is_no_trial() {
    let clock = Arc::new(ManualClock::new());
    let mut cb = CircuitBreaker::builder()
        .trip(Trip::Consecutive(1))
        .cooldown(Duration::from_secs(10))
        .build(Throttle::per_duration(1, Duration::from_secs(3600)))
        .with_clock(clock.clone());
    assert!(cb.try_acquire().unwrap().is_some());
    assert!(cb.try_acquire().unwrap().is_none());
    cb.record_failure();
    clock.advance(secs(10));
    // The limiter is empty, so the place of the trial is given back each time.
    assert!(cb.try_acquire().unwrap().is_none());
    assert!(cb.try_acquire().unwrap().is_none());
    assert_eq!(cb.state(), BreakerState::HalfOpen);
}

#[test]
fn a_waiting_request_enters_and_then_waits_for_the_limiter() {
    let clock = Arc::new(ManualClock::new());
    let mut cb = CircuitBreaker::builder()
        .build(Throttle::per_second(1).with_clock(clock.clone()))
        .with_clock(clock.clone());
    assert_eq!(cb.enter(), Ok(()));
    assert_eq!(cb.advance(), Step::Granted);
    assert_eq!(cb.enter(), Ok(()));
    assert_eq!(cb.advance(), Step::Sleep(Duration::from_secs(1)));
    clock.advance(secs(1));
    assert_eq!(cb.advance(), Step::Granted);
}

#[test]
fn a_limiter_that_can_never_grant_is_reported() {
    let mut cb = CircuitBreaker::builder().build(Throttle::per_second(0));
    assert!(matches!(
        cb.try_acquire(),
        Err(ThrottleError::CostExceedsCapacity { cost: 1, capacity: 0 })
    ));
    assert_eq!(cb.enter(), Ok(()));
    assert_eq!(
        cb.advance(),
        Step::Failed(ThrottleError::CostExceedsCapacity { cost: 1, capacity: 0 })
    );
}

#[test]
fn a_ratio_waits_for_enough_calls() {
    let clock = Arc::new(ManualClock::new());
    let trip = Trip::Ratio { window: 4, ratio: Ratio::new(3, 4), min_calls: 3 };
    let mut cb = breaker(trip, Duration::from_secs(10), clock);
    cb.record_failure();
    cb.record_failure();
    assert_eq!(cb.state(), BreakerState::Closed);
    cb.record_success(); // 2 of 3
    assert_eq!(cb.state(), BreakerState::Closed);
    cb.record_failure(); // 3 of 4
    assert_eq!(cb.state(), BreakerState::Open);
}

#[test]
fn outcomes_while_open_change_nothing() {
    let clock = Arc::new(ManualClock::new());
    let mut cb = breaker(Trip::Consecutive(1), Duration::from_secs(10), clock.clone());
    cb.record_failure();
    clock.advance(secs(5));
    cb.record_failure();
    cb.record_success();
    assert_eq!(cb.state(), BreakerState::Open);
    clock.advance(secs(5));
    assert!(cb.try_acquire().unwrap().is_some());
}

#[test]
fn a_ratio_counts_calls_that_its_window_no_longer_holds() {
    let clock = Arc::new(ManualClock::new());
    let trip = Trip::Ratio { window: 2, ratio: Ratio::new(1, 2), min_calls: 4 };
    let mut cb = breaker(trip, Duration::from_secs(10), clock.clone());
    cb.record_failure();
    cb.record_failure();
    cb.record_failure();
    assert_eq!(cb.state(), BreakerState::Closed);
    cb.record_failure(); // the fourth call, 2 of the last 2
    assert_eq!(cb.state(), BreakerState::Open);

    // Closing starts the count afresh.
    clock.advance(secs(10));
    cb.try_acquire().unwrap().unwrap().success(&mut cb);
    assert_eq!(cb.state(), BreakerState::Closed);
    cb.record_failure();
    cb.record_success();
    cb.record_success();
    assert_eq!(cb.state(), BreakerState::Closed);
    cb.record_failure(); // the fourth call, 1 of the last 2
    assert_eq!(cb.state(), BreakerState::Open);
}

#[test]
fn a_cooldown_of_part_of_a_millisecond_sheds() {
    let clock = Arc::new(ManualClock::new());
    let mut cb = breaker(Trip::Consecutive(1), Duration::from_nanos(500_000), clock.clone());
    cb.record_failure();
    assert!(matches!(
        cb.try_acquire(),
        Err(ThrottleError::CircuitOpen { retry_after }) if retry_after == Duration::from_millis(1)
    ));
    clock.advance(core::time::Duration::from_millis(1));
    assert!(cb.try_acquire().unwrap().is_some());
}
