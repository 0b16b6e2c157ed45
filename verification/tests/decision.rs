//! Decisions, errors and the steps of a waiting acquisition.

use throttle_net::step::next_step;
use throttle_net::{Decision, Duration, Step, ThrottleError};

#[test]
fn test_is_acquired_only_for_acquired() {
    assert!(Decision::Acquired.is_acquired());
    assert!(!Decision::Retry { after: Duration::zero() }.is_acquired());
    assert!(!Decision::Impossible.is_acquired());
}

#[test]
fn test_retry_after_returns_wait_only_for_retry() {
    let wait = Duration::from_millis(5);
    assert_eq!(Decision::Retry { after: wait }.retry_after(), Some(wait));
    assert_eq!(Decision::Acquired.retry_after(), None);
    assert_eq!(Decision::Impossible.retry_after(), None);
}

#[test]
fn test_display_names_both_values() {
    let msg = ThrottleError::CostExceedsCapacity { cost: 9, capacity: 5 }.message();
    assert!(msg.contains('9'));
    assert!(msg.contains('5'));
}

#[test]
fn test_forge_kind_matches_variant() {
    let err = ThrottleError::CostExceedsCapacity { cost: 1, capacity: 0 };
    assert_eq!(err.kind(), "CostExceedsCapacity");
}

#[test]
fn test_capacity_mismatch_is_not_retryable() {
    // Retrying the same oversized cost on the same limiter never succeeds.
    let err = ThrottleError::CostExceedsCapacity { cost: 9, capacity: 5 };
    assert!(!err.is_retryable());
}

#[test]
fn each_error_has_its_kind_and_its_text() {
    let cost = ThrottleError::CostExceedsCapacity { cost: 4_294_967_295, capacity: 10 };
    assert_eq!(
        cost.message(),
        "requested cost 4294967295 exceeds limiter capacity 10; it can never be granted"
    );
    let open = ThrottleError::CircuitOpen { retry_after: Duration::from_secs(1) };
    assert_eq!(open.kind(), "CircuitOpen");
    assert_eq!(open.message(), "circuit breaker is open; the request was shed");
    assert_eq!(ThrottleError::QueueFull.kind(), "QueueFull");
    assert_eq!(ThrottleError::QueueFull.message(), "queue is full; the request was turned away");
    assert_eq!(ThrottleError::DeadlineExceeded.kind(), "DeadlineExceeded");
    assert_eq!(
        ThrottleError::DeadlineExceeded.message(),
        "deadline passed before the request was served"
    );
    assert_eq!(open.caption(), "Throttle acquisition error");
}

#[test]
fn shed_and_turned_away_requests_may_be_retried() {
    assert!(ThrottleError::CircuitOpen { retry_after: Duration::zero() }.is_retryable());
    assert!(ThrottleError::QueueFull.is_retryable());
    assert!(!ThrottleError::DeadlineExceeded.is_retryable());
}

#[test]
fn the_next_step_follows_the_decision() {
    let wait = Duration::from_millis(7);
    assert_eq!(next_step(Decision::Acquired, 3, 5), Step::Granted);
    assert_eq!(next_step(Decision::Retry { after: wait }, 3, 5), Step::Sleep(wait));
    assert_eq!(
        next_step(Decision::Impossible, 9, 5),
        Step::Failed(ThrottleError::CostExceedsCapacity { cost: 9, capacity: 5 })
    );
}

#[test]
fn spans_of_time_add_up_and_saturate() {
    let d = Duration::from_parts(2, 500_000_000);
    assert_eq!(d.as_nanos(), 2_500_000_000);
    assert_eq!(d.as_millis(), 2_500);
    assert_eq!(d.to_parts(), (2, 500_000_000));
    assert_eq!(Duration::from_millis(2_500), d);
    assert_eq!(Duration::from_nanos(2_500_000_000), d);
    assert_eq!(d.saturating_sub(Duration::from_secs(3)), Duration::zero());
    assert_eq!(d.saturating_add(Duration::from_millis(500)), Duration::from_secs(3));
    assert_eq!(Duration::longest().saturating_add(d), Duration::longest());
    assert_eq!(Duration::longest().millis_saturating(), u64::MAX);
    assert_eq!(Duration::longest().nanos_saturating(), u64::MAX);
    assert_eq!(d.longer(Duration::from_secs(3)), Duration::from_secs(3));
    assert_eq!(d.shorter(Duration::from_secs(3)), d);
    assert!(Duration::zero().is_zero() && !d.is_zero());
}
