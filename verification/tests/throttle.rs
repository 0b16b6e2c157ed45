//! The token bucket throttle.

use std::sync::Arc;
use throttle_net::{Decision, Duration, Limiter, ManualClock, Reading, Step, Throttle, ThrottleError};
use throttle_net::{TokenBucket, VERSION};

fn secs(n: u64) -> core::time::Duration {
    core::time::Duration::from_secs(n)
}

fn millis(n: u64) -> core::time::Duration {
    core::time::Duration::from_millis(n)
}

fn assert_send_sync<T: Send + Sync>() {}

#[test]
fn test_public_types_are_send_sync() {
    assert_send_sync::<Throttle>();
    assert_send_sync::<Decision>();
    assert_send_sync::<ThrottleError>();
}

#[test]
fn test_try_acquire_grants_up_to_capacity_then_refuses() {
    let mut throttle = Throttle::per_second(3);
    assert!(throttle.try_acquire());
    assert!(throttle.try_acquire());
    assert!(throttle.try_acquire());
    assert!(!throttle.try_acquire());
}

#[test]
fn test_try_acquire_with_cost_is_all_or_nothing() {
    let mut throttle = Throttle::per_second(10);
    assert!(throttle.try_acquire_with_cost(7));
    // Only 3 remain, so a cost of 7 takes nothing.
    assert!(!throttle.try_acquire_with_cost(7));
    assert!(throttle.try_acquire_with_cost(3));
}

#[test]
fn test_refill_after_a_full_period_under_manual_clock() {
    let clock = Arc::new(ManualClock::new());
    let mut throttle = Throttle::per_second(4).with_clock(clock.clone());

    for _ in 0..4 {
        assert!(throttle.try_acquire());
    }
    assert!(!throttle.try_acquire());

    clock.advance(secs(1));
    assert!(throttle.try_acquire());
}

#[test]
fn test_acquire_cost_reports_retry_then_impossible() {
    let mut throttle = Throttle::per_second(2);
    assert_eq!(throttle.acquire_cost(2), Decision::Acquired);
    // Drained: another unit must wait.
    assert!(matches!(throttle.acquire_cost(1), Decision::Retry { .. }));
    // A cost beyond capacity can never be granted.
    assert_eq!(throttle.acquire_cost(3), Decision::Impossible);
}

#[test]
fn test_available_tracks_consumption() {
    let mut throttle = Throttle::per_second(5);
    assert_eq!(throttle.available(), 5);
    assert!(throttle.try_acquire_with_cost(2));
    assert_eq!(throttle.available(), 3);
}

#[test]
fn test_acquire_returns_immediately_when_a_token_is_free() {
    let mut throttle = Throttle::per_second(1);
    assert_eq!(throttle.acquire_step(1), Step::Granted);
}

#[test]
fn test_acquire_with_cost_errors_when_cost_exceeds_capacity() {
    let mut throttle = Throttle::per_second(5);
    assert_eq!(
        throttle.acquire_step(9),
        Step::Failed(ThrottleError::CostExceedsCapacity { cost: 9, capacity: 5 })
    );
}

#[test]
fn test_acquire_waits_for_refill_then_succeeds() {
    // Capacity 1000 refilling at 1 token/ms: after draining, one token
    // returns in a millisecond.
    let clock = Arc::new(ManualClock::new());
    let mut throttle = Throttle::per_second(1000).with_clock(clock.clone());
    for _ in 0..1000 {
        assert!(throttle.try_acquire());
    }
    assert!(!throttle.try_acquire());
    let wait = match throttle.acquire_step(1) {
        Step::Sleep(wait) => wait,
        other => panic!("{other:?}"),
    };
    assert_eq!(wait, Duration::from_millis(1));
    clock.advance(millis(1));
    assert_eq!(throttle.acquire_step(1), Step::Granted);
}

#[test]
fn the_capacity_is_the_amount() {
    assert_eq!(Throttle::per_second(7).capacity(), 7);
    assert_eq!(Throttle::per_duration(12, Duration::from_secs(60)).capacity(), 12);
    assert_eq!(VERSION, "0.8.0");
}

#[test]
fn single_grants_stop_when_the_tokens_are_gone() {
    let clock = Arc::new(ManualClock::new());
    let mut throttle = Throttle::per_second(50).with_clock(clock);
    let granted = (0..200).filter(|_| throttle.try_acquire()).count();
    assert_eq!(granted, 50);
    assert_eq!(throttle.available(), 0);
}

#[test]
fn what_is_granted_and_what_is_left_make_up_what_was_there() {
    let clock = Arc::new(ManualClock::new());
    let mut throttle = Throttle::per_second(40).with_clock(clock);
    let mut granted = 0;
    for cost in [9u32, 20, 14, 3, 8, 1] {
        if throttle.try_acquire_with_cost(cost) {
            granted += cost;
        }
    }
    assert_eq!(granted, 40);
    assert_eq!(granted + throttle.available(), 40);
}

#[test]
fn a_peek_takes_nothing_and_says_what_a_request_gets() {
    let clock = Arc::new(ManualClock::new());
    let mut throttle = Throttle::per_second(4).with_clock(clock.clone());
    assert_eq!(throttle.peek(4), Decision::Acquired);
    assert_eq!(throttle.peek(5), Decision::Impossible);
    assert_eq!(throttle.available(), 4);
    assert!(throttle.try_acquire_with_cost(4));
    // Four tokens a second: one is back in a quarter of a second, three in three quarters.
    assert_eq!(throttle.peek(1), Decision::Retry { after: Duration::from_millis(250) });
    assert_eq!(throttle.peek(3), Decision::Retry { after: Duration::from_millis(750) });
    clock.advance(millis(250));
    assert_eq!(throttle.available(), 1);
    assert_eq!(throttle.peek(1), Decision::Acquired);
}

#[test]
fn the_wait_a_request_is_told_is_enough() {
    for cost in 1..=7u32 {
        let clock = Arc::new(ManualClock::new());
        let mut throttle = Throttle::per_second(7).with_clock(clock.clone());
        assert!(throttle.try_acquire_with_cost(7));
        let wait = throttle.acquire_cost(cost).retry_after().unwrap();
        let (s, n) = wait.to_parts();
        clock.advance(core::time::Duration::new(s, n));
        assert!(throttle.try_acquire_with_cost(cost), "cost {cost} after {wait:?}");
    }
}

#[test]
fn the_rate_is_kept_over_time() {
    let clock = Arc::new(ManualClock::new());
    let mut throttle = Throttle::per_second(10).with_clock(clock.clone());
    let mut granted = 0;
    // Ten seconds in steps of a hundred milliseconds, asking for more than there is each time.
    for _ in 0..100 {
        while throttle.try_acquire() {
            granted += 1;
        }
        clock.advance(millis(100));
    }
    // The initial ten and one more each hundred milliseconds.
    assert_eq!(granted, 10 + 99);
}

#[test]
fn draining_stops_at_the_target_and_never_adds() {
    let clock = Arc::new(ManualClock::new());
    let mut throttle = Throttle::per_second(100).with_clock(clock);
    assert_eq!(throttle.drain_to(30), 70);
    assert_eq!(throttle.available(), 30);
    assert_eq!(throttle.drain_to(30), 0);
    assert_eq!(throttle.drain_to(90), 0);
    assert_eq!(throttle.available(), 30);
    assert_eq!(throttle.drain_to(u64::MAX), 0);
    assert_eq!(throttle.drain_to(0), 30);
    assert_eq!(throttle.available(), 0);
}

#[test]
fn nothing_costs_nothing() {
    let mut empty = Throttle::per_second(0);
    assert!(empty.try_acquire_with_cost(0));
    assert_eq!(empty.peek(1), Decision::Impossible);
    // A bucket without a period holds nothing.
    let mut still = Throttle::per_duration(3, Duration::zero());
    assert_eq!(still.capacity(), 0);
    assert!(still.try_acquire_with_cost(0));
    assert_eq!(still.peek(1), Decision::Impossible);
}

#[test]
fn a_bucket_answers_for_given_instants() {
    let t = Duration::from_secs;
    let mut bucket = TokenBucket::new(6, t(3), t(10));
    assert_eq!(bucket.capacity(), 6);
    assert_eq!(bucket.available_at(t(10)), 6);
    assert_eq!(bucket.decide_at(6, t(10)), Decision::Acquired);
    assert_eq!(bucket.available_at(t(11)), 2);
    assert_eq!(bucket.peek_at(3, t(11)), Decision::Retry { after: Duration::from_millis(500) });
    assert_eq!(bucket.decide_at(2, t(11)), Decision::Acquired);
    assert_eq!(bucket.available_at(t(14)), 6);
    assert_eq!(bucket.available_at(t(500)), 6);
    let fresh = bucket.renewed(t(11));
    assert_eq!(fresh.available_at(t(11)), 6);
}

#[test]
fn a_throttle_answers_for_given_readings() {
    let clock = Arc::new(ManualClock::new());
    let mut throttle = Throttle::per_second(2).with_clock(clock.clone());
    let start = throttle.read();
    assert_eq!(throttle.acquire_cost_at(2, &start), Decision::Acquired);
    assert_eq!(throttle.available_at(&start), 0);
    clock.advance(secs(1));
    let later = throttle.read();
    assert_eq!(later.at, Duration::from_secs(1));
    assert_eq!(throttle.available_at(&later), 2);
    assert_eq!(throttle.available_at(&Reading::single(Duration::from_millis(500))), 1);
    assert_eq!(Limiter::capacity(&throttle), 2);
}

#[test]
fn boxed_limiters_answer_as_what_they_hold() {
    let clock = Arc::new(ManualClock::new());
    let mut boxed: Box<dyn Limiter> = Box::new(Throttle::per_second(3).with_clock(clock));
    assert_eq!(boxed.capacity(), 3);
    assert_eq!(boxed.peek(3), Decision::Acquired);
    assert_eq!(boxed.acquire_cost(2), Decision::Acquired);
    assert_eq!(boxed.available(), 1);
    assert!(!boxed.acquire_cost(2).is_acquired());
}
