//! Eviction policies.

use throttle_net::{Duration, Eviction, DEFAULT_MAX_KEYS};

#[test]
fn test_default_is_bounded() {
    let policy = Eviction::default();
    assert_eq!(policy.max_keys(), Some(DEFAULT_MAX_KEYS));
    assert_eq!(policy.idle_ttl(), None);
}

#[test]
fn test_idle_keeps_default_cap() {
    let policy = Eviction::idle(Duration::from_secs(5));
    assert_eq!(policy.max_keys(), Some(DEFAULT_MAX_KEYS));
    assert_eq!(policy.idle_ttl(), Some(Duration::from_secs(5)));
}

#[test]
fn test_unbounded_has_no_bounds() {
    let policy = Eviction::unbounded();
    assert_eq!(policy.max_keys(), None);
    assert_eq!(policy.idle_ttl(), None);
}

#[test]
fn test_builders_compose() {
    let policy = Eviction::capacity(10).with_idle(Duration::from_secs(1));
    assert_eq!(policy.max_keys(), Some(10));
    assert_eq!(policy.idle_ttl(), Some(Duration::from_secs(1)));

    let dropped = policy.without_capacity();
    assert_eq!(dropped.max_keys(), None);
    assert_eq!(dropped.idle_ttl(), Some(Duration::from_secs(1)));
}

#[test]
fn both_bounds_can_be_given_at_once() {
    let policy = Eviction::new(3, Duration::from_millis(250));
    assert_eq!(policy.max_keys(), Some(3));
    assert_eq!(policy.idle_ttl(), Some(Duration::from_millis(250)));
    assert_eq!(policy, Eviction::unbounded().with_capacity(3).with_idle(Duration::from_millis(250)));
    assert_eq!(DEFAULT_MAX_KEYS, 1_048_576);
}
