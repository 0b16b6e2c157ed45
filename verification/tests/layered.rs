//! Limits in layers.

use std::sync::Arc;
use throttle_net::{
    Decision, Duration, Layered, ManualClock, PerKey, SlidingWindowLog, Step, Throttle,
    ThrottleError,
};

fn assert_send_sync<T: Send + Sync>() {}

#[test]
fn test_layered_is_send_sync() {
    assert_send_sync::<Layered<String>>();
    assert_send_sync::<Layered<u64, String>>();
}

#[test]
fn test_request_must_clear_all_three_scopes() {
    let mut layered = Layered::<&str>::builder()
        .global(Throttle::per_second(100))
        .per_key(PerKey::per_second(2))
        .per_endpoint(PerKey::per_second(100))
        .build();

    assert!(layered.try_acquire(&"tenant", &"/x"));
    assert!(layered.try_acquire(&"tenant", &"/x"));
    // The per-key scope (2/s) is exhausted though global and endpoint have
    // room, so the layered limiter refuses.
    assert!(!layered.try_acquire(&"tenant", &"/x"));
}

#[test]
fn test_keys_and_endpoints_are_independent() {
    let mut layered = Layered::<&str>::builder()
        .per_key(PerKey::per_second(1))
        .per_endpoint(PerKey::per_second(1))
        .build();

    assert!(layered.try_acquire(&"a", &"/x"));
    // Same key, same endpoint: both scopes exhausted.
    assert!(!layered.try_acquire(&"a", &"/x"));
    // A different key on the same endpoint is blocked by the endpoint scope.
    assert!(!layered.try_acquire(&"b", &"/x"));
    // A different key on a different endpoint clears both.
    assert!(layered.try_acquire(&"b", &"/y"));
}

#[test]
fn test_global_scope_binds_across_keys() {
    let mut layered = Layered::<&str>::builder()
        .global(Throttle::per_second(2))
        .per_key(PerKey::per_second(100))
        .build();

    // The global ceiling of 2 is spent across two different keys.
    assert!(layered.try_acquire(&"a", &"/x"));
    assert!(layered.try_acquire(&"b", &"/x"));
    assert!(!layered.try_acquire(&"c", &"/x"));
}

#[test]
fn test_no_scope_admits_everything() {
    let mut layered = Layered::<&str>::builder().build();
    assert!(layered.try_acquire(&"anything", &"/anywhere"));
    assert_eq!(layered.capacity(), u32::MAX);
}

#[test]
fn test_no_token_spent_in_one_scope_when_another_blocks() {
    let mut layered = Layered::<&str>::builder()
        .global(Throttle::per_second(100))
        .per_key(PerKey::per_second(1))
        .build();

    assert!(layered.try_acquire(&"a", &"/x")); // global: 99 left, key a: 0 left
    // Key "a" is blocked; the global scope must not be charged for the
    // refused request.
    assert!(!layered.try_acquire(&"a", &"/x"));
    // Global still has room for other keys: 99 - 1 (for b) succeeds.
    assert!(layered.try_acquire(&"b", &"/x"));
}

#[test]
fn test_capacity_is_the_smallest_scope() {
    let layered = Layered::<&str>::builder()
        .global(Throttle::per_second(1000))
        .per_key(PerKey::per_second(100))
        .per_endpoint(PerKey::per_second(25))
        .build();
    assert_eq!(layered.capacity(), 25);
}

#[test]
fn test_acquire_errors_when_a_scope_can_never_admit() {
    let mut layered = Layered::<&str>::builder()
        .global(Throttle::per_second(1000))
        .per_key(PerKey::per_second(5))
        .build();
    assert!(matches!(
        layered.acquire_step(&"a", &"/x", 9),
        Step::Failed(ThrottleError::CostExceedsCapacity { cost: 9, capacity: 5 })
    ));
}

#[test]
fn a_refused_request_costs_no_scope_anything() {
    let clock = Arc::new(ManualClock::new());
    let mut layered = Layered::<u32>::builder()
        .global(Throttle::per_second(3).with_clock(clock.clone()))
        .per_key(PerKey::per_second(1).with_clock(clock.clone()))
        .per_endpoint(PerKey::per_second(3).with_clock(clock.clone()))
        .build();
    assert!(layered.try_acquire(&1, &7));
    for _ in 0..10 {
        assert!(!layered.try_acquire(&1, &7));
    }
    // Two tokens are left of the global and of the endpoint's scope.
    assert!(layered.try_acquire(&2, &7));
    assert!(layered.try_acquire(&3, &7));
    assert!(!layered.try_acquire(&4, &7));
}

#[test]
fn the_slowest_scope_sets_the_wait() {
    let clock = Arc::new(ManualClock::new());
    let minute = Duration::from_secs(60);
    let mut layered = Layered::<u32>::builder()
        .global(SlidingWindowLog::new(1, minute).with_clock(clock.clone()))
        .per_key(PerKey::per_second(1).with_clock(clock.clone()))
        .build();
    assert_eq!(layered.acquire_step(&1, &1, 1), Step::Granted);
    assert_eq!(layered.peek(&1, &1, 1), Decision::Retry { after: minute });
    assert_eq!(layered.acquire_step(&1, &1, 1), Step::Sleep(minute));
    assert_eq!(layered.peek(&1, &1, 2), Decision::Impossible);
    clock.advance(core::time::Duration::from_secs(60));
    assert_eq!(layered.acquire_step(&1, &1, 1), Step::Granted);
}

#[test]
fn scopes_answer_for_given_readings() {
    let clock = Arc::new(ManualClock::new());
    let mut layered = Layered::<String, u64>::builder()
        .global(Throttle::per_second(10).with_clock(clock.clone()))
        .per_key(PerKey::per_second(4).with_clock(clock.clone()))
        .per_endpoint(PerKey::per_second(6).with_clock(clock.clone()))
        .build();
    let key = "k".to_string();
    let at = layered.read(&key, &5);
    assert_eq!(layered.peek_at(&key, &5, 4, &at), Decision::Acquired);
    assert_eq!(layered.decide_at(&key, &5, 4, &at), Decision::Acquired);
    assert_eq!(
        layered.decide_at(&key, &5, 1, &at),
        Decision::Retry { after: Duration::from_millis(250) }
    );
    assert_eq!(layered.decide_at(&key, &5, 5, &at), Decision::Impossible);
}
