//! Several limiters as one.

use std::sync::{Arc, Mutex};
use throttle_net::{
    Decision, Duration, Hybrid, Limiter, ManualClock, Reading, SlidingWindowLog, Step, Throttle,
    ThrottleError,
};

fn secs(n: u64) -> core::time::Duration {
    core::time::Duration::from_secs(n)
}

fn assert_send_sync<T: Send + Sync>() {}

/// A limiter behind a lock, so that a test can look at it after handing it on.
#[derive(Clone)]
struct Shared(Arc<Mutex<Throttle>>);

impl Limiter for Shared {
    // What the proofs speak of; nothing runs it.
    fn valid(&self) -> bool {
        unreachable!()
    }

    fn reads(&self, _: Reading) -> bool {
        unreachable!()
    }

    fn may_read(&self, _: Reading) -> bool {
        unreachable!()
    }

    fn limit(&self) -> u32 {
        unreachable!()
    }

    fn tokens(&self, _: Reading) -> u32 {
        unreachable!()
    }

    fn peeked(&self, _: u32, _: Reading) -> Decision {
        unreachable!()
    }

    fn answered(&self, _: u32, _: Reading, _: Decision) -> bool {
        unreachable!()
    }

    fn exact(&self, _: Reading) -> bool {
        unreachable!()
    }

    fn lemma_peek(&self, _: u32, _: Reading) {}

    fn read(&self) -> Reading {
        self.0.lock().unwrap().read()
    }

    fn peek_at(&self, cost: u32, at: &Reading) -> Decision {
        self.0.lock().unwrap().peek_at(cost, at)
    }

    fn acquire_cost_at(&mut self, cost: u32, at: &Reading) -> Decision {
        self.0.lock().unwrap().acquire_cost_at(cost, at)
    }

    fn available_at(&self, at: &Reading) -> u32 {
        self.0.lock().unwrap().available_at(at)
    }

    fn capacity(&self) -> u32 {
        self.0.lock().unwrap().capacity()
    }
}

#[test]
fn test_hybrid_is_send_sync() {
    assert_send_sync::<Hybrid>();
}

#[test]
fn test_request_must_clear_every_constituent() {
    // 5 per second AND 3 per minute: the tighter (3) binds.
    let mut hybrid = Hybrid::builder()
        .limiter(Throttle::per_second(5))
        .limiter(Throttle::per_duration(3, Duration::from_secs(60)))
        .build();

    assert!(hybrid.try_acquire());
    assert!(hybrid.try_acquire());
    assert!(hybrid.try_acquire());
    // The per-minute limiter is now empty even though the per-second one is
    // not, so the hybrid refuses.
    assert!(!hybrid.try_acquire());
}

#[test]
fn test_peek_does_not_consume() {
    let mut hybrid = Hybrid::builder().limiter(Throttle::per_second(2)).build();
    assert!(hybrid.peek(2).is_acquired());
    // peek took nothing, so both tokens are still there.
    assert!(hybrid.try_acquire_with_cost(2));
}

#[test]
fn test_no_token_lost_when_a_later_constituent_refuses() {
    // First limiter has plenty; second is exhausted. The peek-then-commit
    // contract means the first limiter must NOT lose a token to a request
    // the second one blocks.
    let plenty = Shared(Arc::new(Mutex::new(Throttle::per_second(100))));
    let mut exhausted = Throttle::per_second(1);
    assert!(exhausted.try_acquire()); // drain it to zero

    let mut hybrid = Hybrid::<Box<dyn Limiter>>::builder()
        .shared(Box::new(plenty.clone()))
        .limiter(Box::new(exhausted))
        .build();

    let before = plenty.available();
    assert!(!hybrid.try_acquire());
    // The plentiful limiter is untouched: the hybrid peeked, saw the second
    // constituent could not grant, and never committed to the first.
    assert_eq!(plenty.available(), before);
}

#[test]
fn test_capacity_and_available_report_the_binding_constituent() {
    let hybrid = Hybrid::builder()
        .limiter(Throttle::per_second(10))
        .limiter(Throttle::per_second(4))
        .build();
    assert_eq!(hybrid.capacity(), 4);
    assert_eq!(hybrid.available(), 4);
}

#[test]
fn test_refill_recovers_the_hybrid_under_manual_clock() {
    let clock = Arc::new(ManualClock::new());
    let mut hybrid = Hybrid::builder()
        .limiter(Throttle::per_second(2).with_clock(clock.clone()))
        .limiter(Throttle::per_second(2).with_clock(clock.clone()))
        .build();

    assert!(hybrid.try_acquire());
    assert!(hybrid.try_acquire());
    assert!(!hybrid.try_acquire());

    clock.advance(secs(1));
    assert!(hybrid.try_acquire());
}

#[test]
fn test_acquire_errors_when_a_constituent_can_never_grant() {
    let mut hybrid = Hybrid::builder()
        .limiter(Throttle::per_second(10))
        .limiter(Throttle::per_second(2))
        .build();
    assert!(matches!(
        hybrid.acquire_step(5),
        Step::Failed(ThrottleError::CostExceedsCapacity { cost: 5, capacity: 2 })
    ));
}

#[test]
fn a_refusal_waits_for_the_slowest_constituent() {
    let clock = Arc::new(ManualClock::new());
    let minute = Duration::from_secs(60);
    let mut hybrid = Hybrid::<Box<dyn Limiter>>::builder()
        .limiter(Box::new(Throttle::per_second(2).with_clock(clock.clone())))
        .limiter(Box::new(SlidingWindowLog::new(2, minute).with_clock(clock.clone())))
        .build();
    assert_eq!(hybrid.acquire_step(2), Step::Granted);
    // The bucket would be ready in half a second, the window in a minute.
    assert_eq!(hybrid.peek(1), Decision::Retry { after: minute });
    assert_eq!(hybrid.acquire_step(1), Step::Sleep(minute));
    assert_eq!(hybrid.peek(3), Decision::Impossible);
    clock.advance(secs(60));
    assert_eq!(hybrid.acquire_step(1), Step::Granted);
}

#[test]
fn a_granted_request_is_paid_by_every_constituent() {
    let a = Shared(Arc::new(Mutex::new(Throttle::per_duration(9, Duration::from_secs(3600)))));
    let b = Shared(Arc::new(Mutex::new(Throttle::per_duration(7, Duration::from_secs(3600)))));
    let mut hybrid = Hybrid::builder().shared(a.clone()).shared(b.clone()).build();
    assert!(hybrid.try_acquire_with_cost(5));
    assert_eq!((a.available(), b.available()), (4, 2));
    assert!(!hybrid.try_acquire_with_cost(3));
    assert_eq!((a.available(), b.available()), (4, 2));
}

#[test]
fn an_empty_hybrid_grants_everything() {
    let mut hybrid: Hybrid = Hybrid::builder().build();
    assert_eq!(hybrid.capacity(), u32::MAX);
    assert_eq!(hybrid.available(), u32::MAX);
    assert!(hybrid.try_acquire_with_cost(u32::MAX));
    assert!(hybrid.try_acquire());
}

#[test]
fn a_hybrid_can_be_a_constituent() {
    let clock = Arc::new(ManualClock::new());
    let inner = Hybrid::builder()
        .limiter(Throttle::per_second(3).with_clock(clock.clone()))
        .limiter(Throttle::per_second(2).with_clock(clock.clone()))
        .build();
    let mut outer = Hybrid::builder().limiter(inner).build();
    assert_eq!(outer.capacity(), 2);
    assert!(outer.try_acquire_with_cost(2));
    assert!(!outer.try_acquire());
    clock.advance(secs(1));
    assert!(outer.try_acquire());
}
