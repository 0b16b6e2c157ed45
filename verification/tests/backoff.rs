//! Backoff and retries.

use std::collections::HashSet;
use throttle_net::backoff::{entropy_seed, Rng};
use throttle_net::{retry_if_retryable, Backoff, Duration, Jitter, Ratio, Retry, RetryAction};

fn ms(n: u64) -> Duration {
    Duration::from_millis(n)
}

fn double() -> Ratio {
    Ratio::new(2, 1)
}

#[test]
fn test_constant_is_flat() {
    let mut it = Backoff::constant(ms(50)).iter_seeded(0);
    for _ in 0..5 {
        assert_eq!(it.next_delay(), ms(50));
    }
}

#[test]
fn test_linear_grows_by_increment_and_caps() {
    let backoff = Backoff::linear(ms(100), ms(100)).with_max(ms(250));
    let mut it = backoff.iter_seeded(0);
    assert_eq!(it.next_delay(), ms(100));
    assert_eq!(it.next_delay(), ms(200));
    assert_eq!(it.next_delay(), ms(250)); // capped
    assert_eq!(it.next_delay(), ms(250));
}

#[test]
fn test_exponential_doubles_and_caps() {
    let backoff = Backoff::exponential(ms(100), double()).with_max(ms(500));
    let mut it = backoff.iter_seeded(0);
    assert_eq!(it.next_delay(), ms(100));
    assert_eq!(it.next_delay(), ms(200));
    assert_eq!(it.next_delay(), ms(400));
    assert_eq!(it.next_delay(), ms(500)); // capped
}

#[test]
fn test_full_jitter_stays_within_zero_and_cap() {
    let backoff = Backoff::exponential(ms(100), double())
        .with_max(Duration::from_secs(10))
        .with_jitter(Jitter::Full);
    let mut it = backoff.iter_seeded(1);
    for attempt in 0..6u32 {
        let ceiling = ms(100 * 2u64.pow(attempt)).min(Duration::from_secs(10));
        let d = it.next_delay();
        assert!(d <= ceiling, "{d:?} exceeded {ceiling:?}");
    }
}

#[test]
fn test_equal_jitter_keeps_a_floor() {
    let backoff = Backoff::constant(ms(1000)).with_jitter(Jitter::Equal);
    let mut it = backoff.iter_seeded(42);
    for _ in 0..20 {
        let d = it.next_delay();
        // Equal jitter: at least half the base, at most the base.
        assert!(d >= ms(500), "{d:?} below the floor");
        assert!(d <= ms(1000), "{d:?} above the cap");
    }
}

#[test]
fn test_decorrelated_respects_base_and_cap() {
    let backoff = Backoff::exponential(ms(100), double())
        .with_max(Duration::from_secs(2))
        .with_jitter(Jitter::Decorrelated);
    let mut it = backoff.iter_seeded(99);
    for _ in 0..50 {
        let d = it.next_delay();
        assert!(d >= ms(100), "{d:?} below base");
        assert!(d <= Duration::from_secs(2), "{d:?} above cap");
    }
}

#[test]
fn test_seeded_sequences_are_reproducible() {
    let backoff = Backoff::default();
    let a: Vec<_> = {
        let mut it = backoff.iter_seeded(123);
        (0..8).map(|_| it.next_delay()).collect()
    };
    let b: Vec<_> = {
        let mut it = backoff.iter_seeded(123);
        (0..8).map(|_| it.next_delay()).collect()
    };
    assert_eq!(a, b);
}

#[test]
fn test_default_is_decorrelated_exponential() {
    let backoff = Backoff::default();
    assert_eq!(backoff.jitter(), Jitter::Decorrelated);
    assert_eq!(backoff.max(), Duration::from_secs(30));
}

#[test]
fn test_rng_range_is_within_bounds_and_handles_degenerate() {
    let mut rng = Rng::new(7);
    for _ in 0..1000 {
        let v = rng.range(10, 20);
        assert!((10..=20).contains(&v));
    }
    assert_eq!(rng.range(5, 5), 5);
    assert_eq!(rng.range(9, 4), 9); // hi <= lo returns lo
}

/// Decorrelated jitter must scatter a fleet of clients that all failed at the
/// same instant, so their retries do not land together (the thundering herd).
#[test]
fn decorrelated_jitter_scatters_a_thundering_herd() {
    const CLIENTS: u64 = 1_000;
    let base = ms(100);

    let jittered = Backoff::exponential(base, double()).with_jitter(Jitter::Decorrelated);
    // Each client is a distinct seed: its first retry delay after a shared failure.
    let delays: Vec<Duration> =
        (0..CLIENTS).map(|client| jittered.iter_seeded(client).next_delay()).collect();

    // Every delay sits in the decorrelated first-step window [base, 3*base].
    let lo = base;
    let hi = ms(300);
    for d in &delays {
        assert!(*d >= lo && *d <= hi, "{d:?} outside [{lo:?}, {hi:?}]");
    }

    // The delays are well spread: almost all are distinct (nanosecond grid) and
    // the observed range covers most of the window — no single instant attracts
    // the herd.
    let distinct = delays.iter().collect::<HashSet<_>>().len() as u64;
    assert!(distinct > CLIENTS * 9 / 10, "only {distinct}/{CLIENTS} distinct delays");

    let min = delays.iter().min().copied().unwrap();
    let max = delays.iter().max().copied().unwrap();
    assert!(max.saturating_sub(min) > ms(150), "spread too narrow: {min:?}..{max:?}");

    // Contrast: without jitter, every client retries at the identical delay —
    // the very pile-up jitter exists to prevent.
    let lockstep = Backoff::exponential(base, double()).with_jitter(Jitter::Off);
    let lockstep_distinct = (0..CLIENTS)
        .map(|client| lockstep.iter_seeded(client).next_delay())
        .collect::<HashSet<_>>()
        .len();
    assert_eq!(lockstep_distinct, 1, "no-jitter backoff is a thundering herd");
}

#[test]
fn a_fractional_factor_grows_the_delay_exactly() {
    let backoff = Backoff::exponential(ms(64), Ratio::new(3, 2));
    let mut it = backoff.iter_seeded(0);
    for expected in [64_000_000u64, 96_000_000, 144_000_000, 216_000_000, 324_000_000] {
        assert_eq!(it.next_delay(), Duration::from_nanos(expected));
    }
    // Factors are rounded down to whole nanoseconds.
    let mut thirds = Backoff::exponential(Duration::from_nanos(10), Ratio::new(4, 3)).iter_seeded(0);
    for expected in [10u64, 13, 17, 23, 31, 42] {
        assert_eq!(thirds.next_delay(), Duration::from_nanos(expected));
    }
}

#[test]
fn growth_stops_at_what_can_be_counted() {
    let mut it = Backoff::exponential(Duration::from_secs(1), Ratio::new(1000, 1))
        .with_max(Duration::longest())
        .iter_seeded(0);
    let mut last = Duration::zero();
    for _ in 0..20 {
        let next = it.next_delay();
        assert!(next >= last);
        last = next;
    }
    assert_eq!(last, Duration::from_nanos(u64::MAX));
}

#[test]
fn no_delay_exceeds_the_longest() {
    for jitter in [Jitter::Off, Jitter::Full, Jitter::Equal, Jitter::Decorrelated] {
        let backoff =
            Backoff::exponential(ms(70), double()).with_max(ms(900)).with_jitter(jitter);
        for seed in 0..20 {
            let mut it = backoff.iter_seeded(seed);
            for _ in 0..20 {
                assert!(it.next_delay() <= ms(900));
            }
        }
    }
}

#[test]
fn the_generator_gives_its_known_numbers() {
    let mut rng = Rng::new(0);
    assert_eq!(rng.next_u64(), 0xE220_A839_7B1D_CDAF);
    assert_eq!(rng.next_u64(), 0x6E78_9E6A_A1B9_65F4);
    let mut wide = Rng::new(3);
    let _ = wide.range(0, u64::MAX);
    assert_ne!(entropy_seed(1, 0), entropy_seed(1, 1));
    assert_eq!(entropy_seed(1, 1), entropy_seed(1, 1));
}

fn fast_policy() -> Retry {
    // Tiny, deterministic delays.
    Retry::new(Backoff::constant(ms(10)))
}

#[test]
fn test_max_attempts_floor_is_one() {
    assert_eq!(fast_policy().max_attempts(0).attempts(), 1);
    assert_eq!(fast_policy().max_attempts(7).attempts(), 7);
}

#[test]
fn test_succeeds_after_transient_failures() {
    let mut run = fast_policy().max_attempts(5).start(0);
    // Two transient failures are retried; the third attempt succeeds.
    assert_eq!(run.failed(RetryAction::Retry), Some(ms(10)));
    assert_eq!(run.failed(RetryAction::Retry), Some(ms(10)));
    assert!(!run.is_last());
}

#[test]
fn test_gives_up_after_max_attempts() {
    let mut run = fast_policy().max_attempts(3).start(0);
    let mut calls = 1;
    while run.failed(RetryAction::Retry).is_some() {
        calls += 1;
    }
    assert_eq!(calls, 3, "operation runs exactly max_attempts times");
}

#[test]
fn test_give_up_classification_stops_immediately() {
    let mut run = fast_policy().max_attempts(10).start(0);
    assert_eq!(run.failed(RetryAction::GiveUp), None);
}

#[test]
fn test_retry_after_is_honored_when_enabled() {
    let policy =
        Retry::new(Backoff::constant(Duration::from_secs(1))).max_attempts(2).respect_retry_after(true);
    let mut run = policy.start(0);
    // One retry, waiting the 30s Retry-After rather than the 1s backoff.
    let hint = RetryAction::RetryAfter(Duration::from_secs(30));
    assert_eq!(run.failed(hint), Some(Duration::from_secs(30)));
    assert_eq!(run.failed(hint), None);
}

#[test]
fn test_retry_after_is_ignored_when_disabled() {
    let policy =
        Retry::new(Backoff::constant(Duration::from_secs(1))).max_attempts(2).respect_retry_after(false);
    let mut run = policy.start(0);
    // The 30s hint is ignored; the 1s computed backoff is used instead.
    let hint = RetryAction::RetryAfter(Duration::from_secs(30));
    assert_eq!(run.failed(hint), Some(Duration::from_secs(1)));
}

#[test]
fn test_retry_if_retryable_helper() {
    // A non-retryable error gives up immediately.
    let mut run = fast_policy().max_attempts(5).start(0);
    assert_eq!(run.failed(retry_if_retryable(false)), None);
    assert_eq!(retry_if_retryable(true), RetryAction::Retry);
}

#[test]
fn retry_after_header_is_parsed_and_honored() {
    let retry =
        Retry::new(Backoff::constant(Duration::from_secs(1))).max_attempts(2).respect_retry_after(true);
    let action = match throttle_net::parse_retry_after("5") {
        Some(after) => RetryAction::RetryAfter(after),
        None => RetryAction::Retry,
    };
    let mut run = retry.start(0);
    // The parsed 5s header was honored instead of the 1s computed backoff.
    assert_eq!(run.failed(action), Some(Duration::from_secs(5)));
    assert!(run.is_last());
    assert_eq!(run.failed(action), None);
}

#[test]
fn a_hint_uses_up_the_delay_it_replaces() {
    let policy = Retry::new(Backoff::linear(ms(10), ms(10))).max_attempts(9);
    let mut run = policy.start(0);
    let hint = RetryAction::RetryAfter(Duration::from_secs(3));
    assert_eq!(run.failed(RetryAction::Retry), Some(ms(10)));
    assert_eq!(run.failed(hint), Some(Duration::from_secs(3)));
    assert_eq!(run.failed(RetryAction::Retry), Some(ms(30)));
}

#[test]
fn five_attempts_are_made_unless_said_otherwise() {
    let policy = fast_policy();
    assert_eq!(policy.attempts(), 5);
    assert_eq!(policy.backoff().jitter(), Jitter::Off);
    let mut run = policy.start(0);
    let retries = (0..100).filter(|_| run.failed(RetryAction::Retry).is_some()).count();
    assert_eq!(retries, 4);
}
