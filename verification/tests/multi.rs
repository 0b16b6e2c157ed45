//! A limiter for each dimension of a request.

use std::sync::Arc;
use throttle_net::presets::{anthropic, openai};
use throttle_net::{
    Decision, Duration, Limiter, ManualClock, MultiLimiter, Step, Throttle, ThrottleError,
};

fn secs(n: u64) -> core::time::Duration {
    core::time::Duration::from_secs(n)
}

fn assert_send_sync<T: Send + Sync>() {}

#[test]
fn test_multi_limiter_is_send_sync() {
    assert_send_sync::<MultiLimiter>();
}

#[test]
fn test_all_dimensions_must_afford_their_share() {
    let mut limiter = MultiLimiter::builder()
        .dimension("requests", Throttle::per_second(10))
        .dimension("tokens", Throttle::per_second(1000))
        .build();

    // Plenty of request headroom, but the token dimension only holds 1000.
    assert!(limiter.try_acquire_costs(&[("requests", 1), ("tokens", 1000)]));
    // Tokens are now spent; another token-heavy call is refused even though
    // requests are fine.
    assert!(!limiter.try_acquire_costs(&[("requests", 1), ("tokens", 1)]));
    // ...and the request dimension was not charged for the refused call.
    assert_eq!(limiter.available("requests"), Some(9));
}

#[test]
fn test_unmentioned_dimension_is_not_charged() {
    let mut limiter = MultiLimiter::builder()
        .dimension("requests", Throttle::per_second(2))
        .dimension("tokens", Throttle::per_second(100))
        .build();

    // Charge only the request dimension.
    assert!(limiter.try_acquire_costs(&[("requests", 1)]));
    assert_eq!(limiter.available("tokens"), Some(100));
    assert_eq!(limiter.available("requests"), Some(1));
}

#[test]
fn test_unknown_dimension_name_is_ignored() {
    let mut limiter =
        MultiLimiter::builder().dimension("requests", Throttle::per_second(1)).build();
    assert!(limiter.try_acquire_costs(&[("requests", 1), ("nonexistent", 999)]));
}

#[test]
fn test_available_is_none_for_unknown_dimension() {
    let limiter = MultiLimiter::builder().dimension("requests", Throttle::per_second(1)).build();
    assert_eq!(limiter.available("missing"), None);
}

#[test]
fn test_peek_costs_does_not_consume() {
    let limiter = MultiLimiter::builder().dimension("requests", Throttle::per_second(5)).build();
    assert!(limiter.peek_costs(&[("requests", 5)]).is_acquired());
    assert_eq!(limiter.available("requests"), Some(5));
}

#[test]
fn test_refill_recovers_each_dimension_under_manual_clock() {
    let clock = Arc::new(ManualClock::new());
    let mut limiter = MultiLimiter::builder()
        .dimension("requests", Throttle::per_second(2).with_clock(clock.clone()))
        .dimension("tokens", Throttle::per_second(10).with_clock(clock.clone()))
        .build();

    assert!(limiter.try_acquire_costs(&[("requests", 2), ("tokens", 10)]));
    assert!(!limiter.try_acquire_costs(&[("requests", 1), ("tokens", 1)]));

    clock.advance(secs(1));
    assert!(limiter.try_acquire_costs(&[("requests", 2), ("tokens", 10)]));
}

#[test]
fn test_acquire_costs_errors_and_names_the_overspent_dimension() {
    let mut limiter = MultiLimiter::builder()
        .dimension("requests", Throttle::per_second(100))
        .dimension("tokens", Throttle::per_second(1000))
        .build();
    // 2000 tokens against a 1000 capacity can never succeed.
    assert_eq!(
        limiter.acquire_step(&[("requests", 1), ("tokens", 2000)]),
        Step::Failed(ThrottleError::CostExceedsCapacity { cost: 2000, capacity: 1000 })
    );
}

#[test]
fn test_anthropic_tiers_have_the_three_dimensions() {
    let limiter = anthropic::tier_2();
    assert_eq!(limiter.available("requests"), Some(1_000));
    assert_eq!(limiter.available("input_tokens"), Some(80_000));
    assert_eq!(limiter.available("output_tokens"), Some(16_000));
}

#[test]
fn test_tiers_are_monotonic() {
    // Higher tiers grant at least as much as lower ones.
    assert!(anthropic::tier_2().available("requests") >= anthropic::tier_1().available("requests"));
    assert!(anthropic::tier_4().available("requests") >= anthropic::tier_2().available("requests"));
    assert!(openai::tier_2().available("requests") >= openai::tier_1().available("requests"));
}

#[test]
fn test_preset_admits_a_typical_call() {
    let mut limiter = openai::tier_1();
    assert!(limiter.try_acquire_costs(&[
        ("requests", 1),
        ("input_tokens", 1_000),
        ("output_tokens", 500),
    ]));
}

#[test]
fn the_first_mention_of_a_dimension_counts() {
    let clock = Arc::new(ManualClock::new());
    let mut limiter = MultiLimiter::builder()
        .dimension("tokens", Throttle::per_second(10).with_clock(clock))
        .build();
    assert!(limiter.try_acquire_costs(&[("tokens", 3), ("tokens", 4)]));
    assert_eq!(limiter.available("tokens"), Some(7));
}

#[test]
fn the_slowest_dimension_sets_the_wait() {
    let clock = Arc::new(ManualClock::new());
    let mut limiter = MultiLimiter::builder()
        .dimension("requests", Throttle::per_second(2).with_clock(clock.clone()))
        .dimension(
            "tokens",
            Throttle::per_duration(10, Duration::from_secs(100)).with_clock(clock.clone()),
        )
        .build();
    assert_eq!(limiter.acquire_step(&[("requests", 2), ("tokens", 10)]), Step::Granted);
    assert_eq!(
        limiter.peek_costs(&[("requests", 1), ("tokens", 2)]),
        Decision::Retry { after: Duration::from_secs(20) }
    );
    assert_eq!(
        limiter.acquire_step(&[("requests", 1), ("tokens", 2)]),
        Step::Sleep(Duration::from_secs(20))
    );
    clock.advance(secs(20));
    assert_eq!(limiter.acquire_step(&[("requests", 1), ("tokens", 2)]), Step::Granted);
    assert_eq!(limiter.available("tokens"), Some(0));
}

#[test]
fn the_first_dimension_that_can_never_pay_is_reported() {
    let limiter = MultiLimiter::builder()
        .dimension("a", Throttle::per_second(4))
        .dimension("b", Throttle::per_second(5))
        .build();
    let at = limiter.read();
    assert_eq!(
        limiter.capacity_error(&[("b", 6), ("a", 7)], &at),
        ThrottleError::CostExceedsCapacity { cost: 7, capacity: 4 }
    );
    assert_eq!(
        limiter.capacity_error(&[("b", 6)], &at),
        ThrottleError::CostExceedsCapacity { cost: 6, capacity: 5 }
    );
}

#[test]
fn every_tier_has_its_budgets() {
    fn budgets(limiter: &MultiLimiter<Throttle>) -> [Option<u32>; 3] {
        [
            limiter.available("requests"),
            limiter.available("input_tokens"),
            limiter.available("output_tokens"),
        ]
    }
    assert_eq!(budgets(&anthropic::tier_1()), [Some(50), Some(40_000), Some(8_000)]);
    assert_eq!(budgets(&anthropic::tier_4()), [Some(4_000), Some(400_000), Some(80_000)]);
    assert_eq!(budgets(&openai::tier_1()), [Some(500), Some(30_000), Some(30_000)]);
    assert_eq!(budgets(&openai::tier_2()), [Some(5_000), Some(450_000), Some(450_000)]);
}

#[test]
fn a_shared_handle_is_a_dimension_like_any_other() {
    let mut limiter: MultiLimiter = MultiLimiter::<Box<dyn Limiter>>::builder()
        .shared("tokens", Box::new(Throttle::per_second(4)))
        .dimension("requests", Box::new(Throttle::per_second(2)))
        .build();
    assert!(limiter.try_acquire_costs(&[("tokens", 4), ("requests", 1)]));
    assert_eq!(limiter.available("requests"), Some(1));
}

#[test]
fn a_limiter_without_dimensions_grants_everything() {
    let mut limiter: MultiLimiter = MultiLimiter::builder().build();
    assert_eq!(limiter.acquire_step(&[("tokens", u32::MAX)]), Step::Granted);
}
