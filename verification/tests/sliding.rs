//! The sliding window log.

use std::sync::Arc;
use throttle_net::{Decision, Duration, Limiter, ManualClock, SlidingWindowLog, Step, ThrottleError};

fn millis(n: u64) -> core::time::Duration {
    core::time::Duration::from_millis(n)
}

fn assert_send_sync<T: Send + Sync>() {}

#[test]
fn test_is_send_sync() {
    assert_send_sync::<SlidingWindowLog>();
}

#[test]
fn test_admits_up_to_limit_then_refuses() {
    let mut limiter = SlidingWindowLog::new(3, Duration::from_secs(1));
    assert!(limiter.try_acquire());
    assert!(limiter.try_acquire());
    assert!(limiter.try_acquire());
    assert!(!limiter.try_acquire());
    assert_eq!(limiter.available(), 0);
}

#[test]
fn test_window_slides_exactly() {
    let clock = Arc::new(ManualClock::new());
    let mut limiter = SlidingWindowLog::new(2, Duration::from_secs(1)).with_clock(clock.clone());

    assert!(limiter.try_acquire()); // t=0
    clock.advance(millis(600));
    assert!(limiter.try_acquire()); // t=600
    assert!(!limiter.try_acquire()); // 2 in the last 1s

    // At t=1001 the first grant (t=0) has left the window, but the second
    // (t=600) has not — so exactly one slot opens.
    clock.advance(millis(401));
    assert!(limiter.try_acquire());
    assert!(!limiter.try_acquire());
}

#[test]
fn test_no_boundary_burst() {
    // Unlike a fixed window, the sliding log never admits 2x the limit across
    // a boundary: 3 at the end of one window blocks 3 at the start of the next
    // until they age out.
    let clock = Arc::new(ManualClock::new());
    let mut limiter = SlidingWindowLog::new(3, Duration::from_secs(1)).with_clock(clock.clone());

    clock.advance(millis(900));
    for _ in 0..3 {
        assert!(limiter.try_acquire()); // 3 grants at t=900
    }
    clock.advance(millis(200)); // t=1100, new "fixed" window
    assert!(!limiter.try_acquire()); // still 3 within the trailing 1s
}

#[test]
fn test_cost_aware_and_impossible() {
    let mut limiter = SlidingWindowLog::new(5, Duration::from_secs(1));
    assert!(limiter.try_acquire_with_cost(4));
    assert!(!limiter.try_acquire_with_cost(4)); // only 1 left
    assert!(limiter.try_acquire_with_cost(1));
    // A cost beyond the limit can never be admitted.
    assert_eq!(
        SlidingWindowLog::new(5, Duration::from_secs(1)).peek(9),
        Decision::Impossible
    );
}

#[test]
fn test_peek_does_not_record() {
    let limiter = SlidingWindowLog::new(2, Duration::from_secs(1));
    assert!(limiter.peek(2).is_acquired());
    assert_eq!(limiter.available(), 2); // peek took nothing
}

#[test]
fn test_retry_after_points_to_oldest_expiry() {
    let clock = Arc::new(ManualClock::new());
    let mut limiter = SlidingWindowLog::new(1, Duration::from_secs(1)).with_clock(clock.clone());
    assert!(limiter.try_acquire()); // t=0
    let after = limiter.peek(1).retry_after().expect("should suggest a wait");
    // The single grant expires at t=1s, so the wait is ~1s.
    assert_eq!(after, Duration::from_secs(1));
}

#[test]
fn test_works_as_a_limiter_trait_object() {
    let mut limiter = SlidingWindowLog::new(2, Duration::from_secs(1));
    let dyn_limiter: &mut dyn Limiter = &mut limiter;
    assert_eq!(dyn_limiter.capacity(), 2);
    assert!(dyn_limiter.acquire_cost(1).is_acquired());
    assert_eq!(dyn_limiter.available(), 1);
}

#[test]
fn no_window_holds_more_than_the_limit() {
    let clock = Arc::new(ManualClock::new());
    let mut limiter = SlidingWindowLog::new(4, Duration::from_millis(100)).with_clock(clock.clone());
    let mut grants: Vec<(u64, u32)> = Vec::new();
    let mut now = 0u64;
    for i in 0..300u64 {
        let cost = (i % 3) as u32 + 1;
        if limiter.try_acquire_with_cost(cost) {
            grants.push((now, cost));
        }
        let step = (i * 7) % 23;
        clock.advance(millis(step));
        now += step;
    }
    for &(end, _) in &grants {
        let in_window: u32 =
            grants.iter().filter(|(t, _)| *t <= end && *t + 100 > end).map(|(_, c)| *c).sum();
        assert!(in_window <= 4, "{in_window} in the window that ends at {end}");
    }
    assert!(grants.len() > 50);
}

#[test]
fn the_wait_reaches_as_far_as_the_cost_needs() {
    let mut limiter = SlidingWindowLog::new(5, Duration::from_secs(1));
    assert_eq!(limiter.decide_at_millis(2, 0), Decision::Acquired);
    assert_eq!(limiter.decide_at_millis(3, 400), Decision::Acquired);
    // Two are free once the first grant leaves, four only once the second does.
    assert_eq!(
        limiter.decide_at_millis(2, 500),
        Decision::Retry { after: Duration::from_millis(500) }
    );
    assert_eq!(
        limiter.decide_at_millis(4, 500),
        Decision::Retry { after: Duration::from_millis(900) }
    );
    assert_eq!(limiter.decide_at_millis(6, 500), Decision::Impossible);
    assert_eq!(limiter.decide_at_millis(2, 1_000), Decision::Acquired);
    assert_eq!(limiter.decide_at_millis(3, 1_400), Decision::Acquired);
}

#[test]
fn a_grant_leaves_an_empty_window_at_once() {
    let mut limiter = SlidingWindowLog::new(1, Duration::zero());
    assert_eq!(limiter.decide_at_millis(1, 10), Decision::Acquired);
    assert_eq!(limiter.decide_at_millis(1, 10), Decision::Acquired);
    assert_eq!(limiter.decide_at_millis(2, 10), Decision::Impossible);
}

#[test]
fn a_waiting_acquisition_sleeps_or_fails() {
    let clock = Arc::new(ManualClock::new());
    let mut limiter = SlidingWindowLog::per_second(2).with_clock(clock.clone());
    assert_eq!(limiter.capacity(), 2);
    assert_eq!(limiter.acquire_step(2), Step::Granted);
    clock.advance(millis(300));
    assert_eq!(limiter.acquire_step(1), Step::Sleep(Duration::from_millis(700)));
    assert_eq!(
        limiter.acquire_step(3),
        Step::Failed(ThrottleError::CostExceedsCapacity { cost: 3, capacity: 2 })
    );
    clock.advance(millis(700));
    assert_eq!(limiter.acquire_step(1), Step::Granted);
}

#[test]
fn a_part_of_a_millisecond_counts_as_a_whole() {
    let clock = Arc::new(ManualClock::new());
    let mut limiter = SlidingWindowLog::new(1, Duration::from_nanos(500_000)).with_clock(clock.clone());
    assert!(limiter.try_acquire());
    assert!(!limiter.try_acquire());
    assert_eq!(limiter.peek(1), Decision::Retry { after: Duration::from_millis(1) });
    clock.advance(millis(1));
    assert!(limiter.try_acquire());
    assert!(!limiter.try_acquire());

    let mut limiter = SlidingWindowLog::new(1, Duration::from_nanos(1_000_001));
    assert_eq!(limiter.decide_at_millis(1, 0), Decision::Acquired);
    assert_eq!(
        limiter.decide_at_millis(1, 1),
        Decision::Retry { after: Duration::from_millis(1) }
    );
    assert_eq!(limiter.decide_at_millis(1, 2), Decision::Acquired);
}

#[test]
fn a_request_is_granted_exactly_when_the_window_has_room() {
    let mut limiter = SlidingWindowLog::new(7, Duration::from_millis(50));
    let mut grants: Vec<(u64, u32)> = Vec::new();
    let mut now = 0u64;
    for i in 0..400u64 {
        let cost = ((i * 5) % 9) as u32;
        let recent: u32 = grants.iter().filter(|(t, _)| *t + 50 > now).map(|(_, c)| *c).sum();
        let answer = limiter.decide_at_millis(cost, now);
        assert_eq!(answer.is_acquired(), recent + cost <= 7);
        assert_eq!(answer == Decision::Impossible, cost > 7);
        if answer.is_acquired() {
            grants.push((now, cost));
        }
        now += (i * 3) % 11;
    }
}

#[test]
fn no_shorter_wait_would_do() {
    for cost in 1..=5u32 {
        // A refusal changes no later answer, so the log can be asked on.
        let mut log = SlidingWindowLog::new(5, Duration::from_millis(40));
        for at in [0u64, 3, 3, 11, 17] {
            assert_eq!(log.decide_at_millis(1, at), Decision::Acquired);
        }
        let after = match log.decide_at_millis(cost, 20) {
            Decision::Retry { after } => after.as_millis() as u64,
            other => panic!("{other:?}"),
        };
        assert!(after > 0);
        for wait in 0..after {
            assert!(!log.decide_at_millis(cost, 20 + wait).is_acquired());
        }
        assert!(log.decide_at_millis(cost, 20 + after).is_acquired());
    }
}
