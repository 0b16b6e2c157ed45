//! A bucket for each key.

use std::sync::Arc;
use throttle_net::{Decision, Duration, Eviction, ManualClock, PerKey, Step, ThrottleError};

fn secs(n: u64) -> core::time::Duration {
    core::time::Duration::from_secs(n)
}

fn millis(n: u64) -> core::time::Duration {
    core::time::Duration::from_millis(n)
}

fn assert_send_sync<T: Send + Sync>() {}

#[test]
fn test_perkey_is_send_sync() {
    assert_send_sync::<PerKey<String>>();
    assert_send_sync::<PerKey<u64>>();
}

#[test]
fn test_keys_are_independent() {
    let mut limiter: PerKey<&str> = PerKey::per_second(1);
    assert!(limiter.try_acquire(&"a"));
    assert!(!limiter.try_acquire(&"a")); // a is spent
    assert!(limiter.try_acquire(&"b")); // b is untouched
}

#[test]
fn test_first_acquire_creates_exactly_one_key() {
    let mut limiter: PerKey<&str> = PerKey::per_second(10);
    assert_eq!(limiter.len(), 0);
    assert!(limiter.try_acquire(&"a"));
    assert_eq!(limiter.len(), 1);
    assert!(limiter.try_acquire(&"a"));
    assert_eq!(limiter.len(), 1);
}

#[test]
fn test_shard_count_rounds_up_to_power_of_two() {
    assert_eq!(PerKey::<u64>::per_second(1).with_shards(5).shard_count(), 8);
    assert_eq!(PerKey::<u64>::per_second(1).with_shards(16).shard_count(), 16);
    assert_eq!(PerKey::<u64>::per_second(1).with_shards(0).shard_count(), 1);
}

#[test]
fn test_peek_does_not_create_state() {
    let limiter: PerKey<&str> = PerKey::per_second(5);
    assert!(limiter.peek(&"ghost", 1).is_acquired());
    assert_eq!(limiter.len(), 0, "peek must not insert a key");
}

#[test]
fn test_available_reports_full_capacity_for_unseen_key() {
    let mut limiter: PerKey<&str> = PerKey::per_second(7);
    assert_eq!(limiter.available(&"unseen"), 7);
    assert!(limiter.try_acquire_with_cost(&"seen", 3));
    assert_eq!(limiter.available(&"seen"), 4);
}

#[test]
fn test_refill_under_manual_clock() {
    let clock = Arc::new(ManualClock::new());
    let mut limiter = PerKey::<&str>::per_second(2).with_clock(clock.clone());

    assert!(limiter.try_acquire(&"k"));
    assert!(limiter.try_acquire(&"k"));
    assert!(!limiter.try_acquire(&"k"));

    clock.advance(secs(1));
    assert!(limiter.try_acquire(&"k"));
}

#[test]
fn test_capacity_bounds_total_keys_under_unique_flood() {
    let shards = 8;
    let cap = 100usize;
    let mut limiter: PerKey<u64> =
        PerKey::per_second(10).with_shards(shards).with_eviction(Eviction::capacity(cap));

    for k in 0..10_000u64 {
        let _ = limiter.try_acquire(&k);
    }

    let per_shard_cap = cap.div_ceil(shards).max(1);
    let bound = per_shard_cap * shards;
    assert!(
        limiter.len() <= bound,
        "flood grew to {} keys, bound {bound}",
        limiter.len()
    );
}

#[test]
fn test_ttl_reclaims_idle_keys_on_later_insert() {
    let clock = Arc::new(ManualClock::new());
    let mut limiter = PerKey::<&str>::per_second(10)
        .with_clock(clock.clone())
        .with_eviction(Eviction::idle(Duration::from_millis(1000)).with_capacity(1))
        .with_shards(1);

    assert!(limiter.try_acquire(&"idle"));
    assert_eq!(limiter.len(), 1);

    clock.advance(millis(2000));
    // Inserting a fresh key reclaims the idle one.
    assert!(limiter.try_acquire(&"fresh"));
    assert_eq!(limiter.len(), 1, "the idle key should have been reclaimed");
}

#[test]
fn test_recently_seen_key_survives_eviction_pressure() {
    let mut limiter: PerKey<String> =
        PerKey::per_second(1_000).with_shards(1).with_eviction(Eviction::capacity(4));

    for round in 0..50u64 {
        assert!(limiter.try_acquire(&"hot".to_string()));
        let _ = limiter.try_acquire(&round.to_string());
    }
    // The hot key was touched every round, so it is never the eviction victim.
    assert!(limiter.try_acquire(&"hot".to_string()));
}

#[test]
fn test_acquire_errors_when_cost_exceeds_capacity() {
    let mut limiter: PerKey<&str> = PerKey::per_second(5);
    assert_eq!(
        limiter.acquire_step(&"k", 9),
        Step::Failed(ThrottleError::CostExceedsCapacity { cost: 9, capacity: 5 })
    );
}

#[test]
fn test_acquire_waits_then_succeeds() {
    let clock = Arc::new(ManualClock::new());
    let mut limiter = PerKey::<&str>::per_second(1000).with_clock(clock.clone());
    for _ in 0..1000 {
        assert!(limiter.try_acquire(&"k"));
    }
    assert!(!limiter.try_acquire(&"k"));
    assert_eq!(limiter.acquire_step(&"k", 1), Step::Sleep(Duration::from_millis(1)));
    clock.advance(millis(1));
    assert_eq!(limiter.acquire_step(&"k", 1), Step::Granted);
}

#[test]
fn a_hash_is_the_same_for_the_same_key() {
    let limiter: PerKey<String> = PerKey::per_second(5);
    let key = "tenant".to_string();
    assert_eq!(limiter.hash(&key), limiter.hash(&"tenant".to_string()));
    let hashes: std::collections::HashSet<u64> =
        (0..100).map(|i: u64| limiter.hash(&i.to_string())).collect();
    assert!(hashes.len() > 90, "only {} different hashes", hashes.len());
}

#[test]
fn keys_in_one_shard_do_not_share_a_bucket() {
    let mut limiter: PerKey<u64> =
        PerKey::per_duration(2, Duration::from_secs(3600)).with_shards(1);
    let now = Duration::from_secs(5);
    assert_eq!(limiter.decide_at(&1, 77, 2, now), Decision::Acquired);
    assert_eq!(limiter.available_at(&1, 77, now), 0);
    assert_eq!(limiter.available_at(&2, 77, now), 2);
    assert_eq!(limiter.decide_at(&2, 77, 1, now), Decision::Acquired);
    assert_eq!(limiter.available_at(&1, 77, now), 0);
    assert_eq!(limiter.available_at(&2, 77, now), 1);
    assert_eq!(limiter.len(), 2);
    assert!(!limiter.is_empty());
}

#[test]
fn a_peek_keeps_its_promise() {
    let mut limiter: PerKey<u32> = PerKey::per_duration(4, Duration::from_secs(2)).with_shards(2);
    let at = Duration::from_secs;
    assert_eq!(limiter.peek_at(&9, 3, 4, at(1)), Decision::Acquired);
    assert_eq!(limiter.decide_at(&9, 3, 4, at(1)), Decision::Acquired);
    assert_eq!(
        limiter.peek_at(&9, 3, 2, at(1)),
        Decision::Retry { after: Duration::from_secs(1) }
    );
    assert_eq!(limiter.peek_at(&9, 3, 5, at(1)), Decision::Impossible);
    assert_eq!(limiter.peek_at(&9, 3, 2, at(2)), Decision::Acquired);
    assert_eq!(limiter.decide_at(&9, 3, 2, at(2)), Decision::Acquired);
    assert_eq!(limiter.available_at(&9, 3, at(2)), 0);
}

#[test]
fn the_least_recently_used_key_makes_room() {
    let clock = Arc::new(ManualClock::new());
    let mut limiter = PerKey::<u32>::per_duration(10, Duration::from_secs(3600))
        .with_clock(clock.clone())
        .with_shards(1)
        .with_eviction(Eviction::capacity(2));
    assert!(limiter.try_acquire_with_cost(&1, 5));
    assert!(limiter.try_acquire_with_cost(&2, 5));
    clock.advance(millis(1));
    // Key 1 is touched again, so that key 2 is the stalest.
    assert!(limiter.try_acquire(&1));
    clock.advance(millis(1));
    assert!(limiter.try_acquire(&3));
    assert_eq!(limiter.len(), 2);
    assert_eq!(limiter.available(&1), 4);
    assert_eq!(limiter.available(&3), 9);
    // Key 2 was forgotten and starts anew.
    assert_eq!(limiter.available(&2), 10);
}

#[test]
fn idle_keys_go_when_their_time_is_up() {
    let clock = Arc::new(ManualClock::new());
    let mut limiter = PerKey::<u32>::per_duration(10, Duration::from_secs(3600))
        .with_clock(clock.clone())
        .with_shards(1)
        .with_eviction(Eviction::idle(Duration::from_millis(100)));
    assert!(limiter.try_acquire(&1));
    clock.advance(millis(99));
    assert!(limiter.try_acquire(&2));
    assert_eq!(limiter.len(), 2);
    clock.advance(millis(1));
    assert!(limiter.try_acquire(&3));
    assert_eq!(limiter.len(), 2);
    assert_eq!(limiter.available(&1), 10);
    assert_eq!(limiter.available(&2), 9);
}

#[test]
fn a_bucket_that_never_refills_grants_what_it_has() {
    let mut limiter: PerKey<()> = PerKey::per_second(0);
    assert_eq!(limiter.capacity(), 0);
    assert!(!limiter.try_acquire(&()));
    assert_eq!(limiter.peek(&(), 1), Decision::Impossible);
}

#[test]
fn keys_of_several_parts_are_told_apart_by_all_of_them() {
    let mut limiter: PerKey<(String, u32)> =
        PerKey::per_duration(1, Duration::from_secs(3600));
    assert!(limiter.try_acquire(&("a".to_string(), 1)));
    assert!(!limiter.try_acquire(&("a".to_string(), 1)));
    assert!(limiter.try_acquire(&("a".to_string(), 2)));
    assert!(limiter.try_acquire(&("b".to_string(), 1)));
    assert_eq!(limiter.len(), 3);
}

#[test]
fn a_request_for_more_than_a_bucket_holds_fails_at_once() {
    let mut limiter: PerKey<u32> = PerKey::per_second(5);
    let now = Duration::zero();
    assert_eq!(limiter.decide_at(&1, 0, 6, now), Decision::Impossible);
    assert_eq!(limiter.decide_at(&1, 0, 6, now), Decision::Impossible);
    assert_eq!(limiter.peek_at(&2, 0, 6, now), Decision::Impossible);
    assert_eq!(limiter.available_at(&1, 0, now), 5);
}

#[test]
fn each_key_gets_its_own_however_keys_take_turns() {
    let clock = Arc::new(ManualClock::new());
    let mut limiter =
        PerKey::<u64>::per_second(3).with_eviction(Eviction::unbounded()).with_clock(clock);
    let mut asked = [0u32; 7];
    let mut granted = [0u32; 7];
    for i in 0..60u64 {
        let key = (i * i + i / 4) % 7;
        asked[key as usize] += 1;
        if limiter.try_acquire(&key) {
            granted[key as usize] += 1;
        }
        assert_eq!(limiter.len(), asked.iter().filter(|n| **n > 0).count());
    }
    for key in 0..7 {
        assert_eq!(granted[key], asked[key].min(3));
    }
}

#[test]
fn a_key_used_just_now_outlives_a_short_idle_time() {
    let clock = Arc::new(ManualClock::new());
    let mut limiter = PerKey::<u64>::per_second(1)
        .with_clock(clock.clone())
        .with_eviction(Eviction::idle(Duration::from_nanos(500_000)))
        .with_shards(1);
    assert!(limiter.try_acquire(&1));
    assert!(limiter.try_acquire(&2));
    assert_eq!(limiter.len(), 2);
    assert!(!limiter.try_acquire(&1));
    clock.advance(millis(1));
    assert!(limiter.try_acquire(&3));
    assert_eq!(limiter.len(), 1);
}

#[test]
fn without_a_period_a_peek_says_what_a_request_gets() {
    let mut limiter = PerKey::<u64>::per_duration(5, Duration::zero());
    assert_eq!(limiter.capacity(), 5);
    assert_eq!(limiter.peek(&1, 1), Decision::Impossible);
    assert_eq!(limiter.available(&1), 0);
    assert_eq!(limiter.peek(&1, 0), Decision::Acquired);
    assert!(!limiter.try_acquire(&1));
    assert_eq!(limiter.peek(&1, 1), Decision::Impossible);
    assert_eq!(limiter.available(&1), 0);
    assert!(limiter.try_acquire_with_cost(&1, 0));
}
