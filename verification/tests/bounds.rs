//! No limiter grants more than it holds, and no composite more than its tightest part. The clock
//! stands still throughout, so that nothing is refilled and the number of grants is exact.

use std::sync::Arc;
use throttle_net::{Eviction, Hybrid, Layered, ManualClock, MultiLimiter, PerKey, Throttle};

fn still() -> Arc<ManualClock> {
    Arc::new(ManualClock::new())
}

#[test]
fn throttle_burst_never_exceeds_capacity() {
    for capacity in [1u32, 2, 7, 99, 500] {
        for attempts in [0u32, 1, 6, 7, 8, 600] {
            let mut throttle = Throttle::per_second(capacity).with_clock(still());
            let mut granted = 0u32;
            for _ in 0..attempts {
                if throttle.try_acquire() {
                    granted += 1;
                }
            }
            assert_eq!(granted, attempts.min(capacity));
            assert!(!throttle.try_acquire() || attempts < capacity);
        }
    }
}

#[test]
fn throttle_cost_aware_grants_never_exceed_capacity() {
    for capacity in [1u32, 20, 333] {
        let mut throttle = Throttle::per_second(capacity).with_clock(still());
        let mut taken = 0u32;
        for i in 0..200u32 {
            let cost = i * 17 % 49 + 1;
            if throttle.try_acquire_with_cost(cost) {
                taken += cost;
            }
        }
        assert!(taken <= capacity, "took {taken}, capacity {capacity}");
    }
}

#[test]
fn hybrid_grants_the_minimum_constituent_capacity() {
    for (a, b) in [(1u32, 5u32), (40, 3), (17, 17)] {
        let clock = still();
        let mut hybrid = Hybrid::builder()
            .limiter(Throttle::per_second(a).with_clock(clock.clone()))
            .limiter(Throttle::per_second(b).with_clock(clock.clone()))
            .build();
        let granted = (0..100).filter(|_| hybrid.try_acquire()).count();
        assert_eq!(granted, a.min(b) as usize);
    }
}

#[test]
fn perkey_keys_are_independent_and_each_bounded() {
    let capacity = 13u32;
    let mut limiter = PerKey::<u64>::per_second(capacity)
        .with_clock(still())
        .with_eviction(Eviction::unbounded());
    let mut total = 0;
    for key in 0..19u64 {
        let granted = (0..40).filter(|_| limiter.try_acquire(&key)).count();
        assert_eq!(granted, 13);
        total += granted;
    }
    assert_eq!(total, 19 * 13);
    assert_eq!(limiter.len(), 19);
}

#[test]
fn perkey_flood_stays_within_the_eviction_bound() {
    for max_keys in [8usize, 9, 100, 511] {
        let shards = 8;
        let mut limiter = PerKey::<u64>::per_second(10)
            .with_clock(still())
            .with_shards(shards)
            .with_eviction(Eviction::capacity(max_keys));
        for k in 0..3_000 {
            let _ = limiter.try_acquire(&k);
        }
        let bound = max_keys.div_ceil(shards).max(1) * shards;
        assert!(limiter.len() <= bound, "grew to {}, bound {bound}", limiter.len());
    }
}

#[test]
fn layered_grants_the_minimum_across_scopes() {
    for (global, per_key, per_endpoint) in [(3u32, 8u32, 9u32), (20, 4, 9), (20, 30, 5)] {
        let clock = still();
        let mut layered = Layered::<u64>::builder()
            .global(Throttle::per_second(global).with_clock(clock.clone()))
            .per_key(PerKey::<u64>::per_second(per_key).with_clock(clock.clone()))
            .per_endpoint(PerKey::<u64>::per_second(per_endpoint).with_clock(clock.clone()))
            .build();
        let granted = (0..60).filter(|_| layered.try_acquire(&1, &1)).count();
        assert_eq!(granted, global.min(per_key).min(per_endpoint) as usize);
    }
}

#[test]
fn multi_dimension_binds_on_the_tightest() {
    for (requests, tokens) in [(3u32, 8u32), (20, 4), (6, 6)] {
        let clock = still();
        let mut limiter = MultiLimiter::builder()
            .dimension("requests", Throttle::per_second(requests).with_clock(clock.clone()))
            .dimension("tokens", Throttle::per_second(tokens).with_clock(clock.clone()))
            .build();
        let costs = [("requests", 1), ("tokens", 1)];
        let granted = (0..60).filter(|_| limiter.try_acquire_costs(&costs)).count();
        assert_eq!(granted, requests.min(tokens) as usize);
        assert_eq!(limiter.available("requests"), Some(requests - requests.min(tokens)));
    }
}
