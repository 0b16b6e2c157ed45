//! The queue in front of a limiter.

use std::sync::Arc;
use throttle_net::queue::{cap_to_deadline, State};
use throttle_net::{Duration, ManualClock, Overflow, Queue, Step, Throttle, ThrottleError};

fn millis(n: u64) -> core::time::Duration {
    core::time::Duration::from_millis(n)
}

const HOUR: Duration = Duration { nanos: 3_600_000_000_000 };

fn assert_send_sync<T: Send + Sync>() {}

#[test]
fn test_queue_is_send_sync() {
    assert_send_sync::<Queue<Throttle, &'static str>>();
}

#[test]
fn test_immediate_acquire_when_token_is_free() {
    let mut queue: Queue<Throttle, ()> = Queue::builder().build(Throttle::per_second(10));
    let ticket = queue.register(&(), 0, None).unwrap();
    assert_eq!(queue.poll(ticket), Step::Granted);
    assert!(queue.is_empty());
}

#[test]
fn test_cost_exceeds_capacity_is_reported() {
    let mut queue: Queue<Throttle, ()> = Queue::builder().build(Throttle::per_second(0));
    let ticket = queue.register(&(), 0, Some(Duration::from_secs(1))).unwrap();
    assert!(matches!(
        queue.poll(ticket),
        Step::Failed(ThrottleError::CostExceedsCapacity { .. })
    ));
}

#[test]
fn test_deadline_exceeded_when_no_token_arrives() {
    // A drained 1/hour limiter won't refill within the short deadline, so the
    // waiter is dropped with DeadlineExceeded.
    let clock = Arc::new(ManualClock::new());
    let mut queue = Queue::builder()
        .build::<_, ()>(Throttle::per_duration(1, HOUR).with_clock(clock.clone()))
        .with_clock(clock.clone());
    let first = queue.register(&(), 0, None).unwrap();
    assert_eq!(queue.poll(first), Step::Granted); // takes the only token

    let second = queue.register(&(), 0, Some(Duration::from_millis(30))).unwrap();
    assert_eq!(queue.poll(second), Step::Sleep(Duration::from_millis(30)));
    clock.advance(millis(30));
    assert_eq!(queue.poll(second), Step::Failed(ThrottleError::DeadlineExceeded));
    queue.leave(second);
    assert!(queue.is_empty(), "the expired waiter is removed");
}

#[test]
fn test_reject_overflow_when_full() {
    // Capacity 1; the first waiter occupies it (parked on a drained limiter),
    // the second is rejected immediately.
    let mut queue: Queue<Throttle, ()> = Queue::builder()
        .capacity(1)
        .overflow(Overflow::Reject)
        .build(Throttle::per_duration(1, HOUR));
    let first = queue.register(&(), 0, None).unwrap();
    assert_eq!(queue.poll(first), Step::Granted); // consumes the token

    let parked = queue.register(&(), 0, None).unwrap();
    assert!(matches!(queue.poll(parked), Step::Sleep(_)));
    let rejected = queue.register(&(), 0, Some(Duration::from_secs(1)));
    assert!(matches!(rejected, Err(ThrottleError::QueueFull)));
    queue.leave(parked);
    assert!(queue.is_empty());
}

#[test]
fn test_drop_oldest_overflow_evicts_the_first_waiter() {
    let mut queue: Queue<Throttle, ()> = Queue::builder()
        .capacity(1)
        .overflow(Overflow::DropOldest)
        .build(Throttle::per_duration(1, HOUR));
    let taker = queue.register(&(), 0, None).unwrap();
    assert_eq!(queue.poll(taker), Step::Granted); // drain the token

    // First waiter parks, occupying the single slot.
    let first = queue.register(&(), 0, None).unwrap();
    assert!(matches!(queue.poll(first), Step::Sleep(_)));
    // Second waiter evicts the first; the first returns QueueFull.
    let second = queue.register(&(), 0, None).unwrap();
    assert_eq!(queue.poll(first), Step::Failed(ThrottleError::QueueFull));
    assert_eq!(queue.len(), 1);
    queue.leave(second);
    assert!(queue.is_empty());
}

#[test]
fn test_priority_is_served_high_first() {
    // One token every 50ms.
    let clock = Arc::new(ManualClock::new());
    let throttle = Throttle::per_duration(1, Duration::from_millis(50)).with_clock(clock.clone());
    let mut queue =
        Queue::builder().capacity(10).build::<_, ()>(throttle).with_clock(clock.clone());
    let taker = queue.register(&(), 0, None).unwrap();
    assert_eq!(queue.poll(taker), Step::Granted); // drain the one token

    let mut waiting = Vec::new();
    for priority in [1u32, 5, 3] {
        waiting.push((priority, queue.register(&(), priority, None).unwrap()));
    }
    let mut order = Vec::new();
    while !waiting.is_empty() {
        clock.advance(millis(50));
        let mut still = Vec::new();
        for (priority, ticket) in waiting {
            match queue.poll(ticket) {
                Step::Granted => order.push(priority),
                Step::Sleep(_) => still.push((priority, ticket)),
                Step::Failed(error) => panic!("{error:?}"),
            }
        }
        waiting = still;
    }
    assert_eq!(order, vec![5, 3, 1]);
}

#[test]
fn test_fair_winner_rotates_across_keys_at_equal_priority() {
    let mut state = State::<&'static str>::new();
    // Two for key "a", one for key "b", all equal priority.
    assert_eq!(state.insert(0, None, "a"), 0);
    assert_eq!(state.insert(0, None, "a"), 1);
    assert_eq!(state.insert(0, None, "b"), 2);

    // No key served yet: tie broken by seq, so the first "a" goes.
    assert_eq!(state.winner(0), Some(0));
    state.serve(0);
    // Key "a" was just served, so the least-recently-served key "b" goes next
    // even though another "a" is older by seq — fair across keys.
    assert_eq!(state.winner(0), Some(2));
    state.serve(2);
    // Only the second "a" remains.
    assert_eq!(state.winner(0), Some(1));
}

#[test]
fn test_priority_beats_fairness_in_winner_selection() {
    let mut state = State::<&'static str>::new();
    assert_eq!(state.insert(1, None, "a"), 0);
    assert_eq!(state.insert(9, None, "b"), 1);
    // Higher priority wins regardless of key recency or seq.
    assert_eq!(state.winner(0), Some(1));
}

#[test]
fn test_winner_skips_expired_waiters() {
    let mut state = State::<&'static str>::new();
    assert_eq!(state.insert(9, Some(100), "a"), 0);
    assert_eq!(state.insert(1, None, "b"), 1);
    // At t=200 the high-priority waiter has expired, so the live one wins.
    assert_eq!(state.winner(200), Some(1));
}

#[test]
fn turns_rotate_among_keys() {
    let mut state = State::<u32>::new();
    for _ in 0..3 {
        for key in 0..3u32 {
            let _ = state.insert(0, None, key);
        }
    }
    let mut served = Vec::new();
    while let Some(id) = state.winner(0) {
        served.push(id % 3);
        state.serve(id);
    }
    assert_eq!(served, vec![0, 1, 2, 0, 1, 2, 0, 1, 2]);
    assert_eq!(state.len(), 0);
    assert_eq!(state.winner(0), None);
}

#[test]
fn a_waiter_gives_up_at_its_deadline() {
    let mut state = State::<()>::new();
    let id = state.insert(0, Some(100), ());
    assert_eq!(state.winner(99), Some(id));
    assert_eq!(state.winner(100), None);
    state.prune_expired(99);
    assert_eq!(state.len(), 1);
    state.prune_expired(100);
    assert_eq!(state.len(), 0);
}

#[test]
fn the_weakest_waiter_makes_room_for_a_stronger_one() {
    let mut state = State::<()>::new();
    let policy = Overflow::DropLowestPriority;
    let weak = state.register(0, 1, None, &(), 2, policy).unwrap();
    let strong = state.register(0, 5, None, &(), 2, policy).unwrap();
    assert_eq!(state.oldest(), Some(weak));
    assert_eq!(state.weakest(), Some((weak, 1)));
    // Neither a weaker nor an equal request takes the place.
    assert_eq!(state.register(0, 0, None, &(), 2, policy), Err(ThrottleError::QueueFull));
    assert_eq!(state.register(0, 1, None, &(), 2, policy), Err(ThrottleError::QueueFull));
    let newcomer = state.register(0, 3, None, &(), 2, policy).unwrap();
    assert_eq!(state.len(), 2);
    assert_eq!(state.weakest(), Some((newcomer, 3)));
    assert_eq!(state.winner(0), Some(strong));
}

#[test]
fn an_evicted_waiter_learns_of_it_once() {
    let mut queue: Queue<Throttle, ()> = Queue::builder()
        .capacity(1)
        .overflow(Overflow::DropLowestPriority)
        .build(Throttle::per_duration(1, HOUR));
    let weak = queue.register(&(), 1, None).unwrap();
    let strong = queue.register(&(), 2, None).unwrap();
    assert_eq!(queue.poll(weak), Step::Failed(ThrottleError::QueueFull));
    assert_eq!(queue.poll(strong), Step::Granted);
    assert_eq!(queue.inner().available(), 0);
    assert_eq!(queue.capacity(), 1);
    assert!(!queue.is_worn_out());
}

#[test]
fn only_the_next_in_line_takes_a_token() {
    let mut queue: Queue<Throttle, ()> =
        Queue::builder().build(Throttle::per_duration(1, HOUR));
    let first = queue.register(&(), 0, None).unwrap();
    let second = queue.register(&(), 0, None).unwrap();
    assert_eq!(queue.poll(second), Step::Sleep(HOUR));
    assert_eq!(queue.inner().available(), 1);
    assert_eq!(queue.poll(first), Step::Granted);
    assert_eq!(queue.inner().available(), 0);
}

#[test]
fn an_expired_waiter_leaves_room() {
    let clock = Arc::new(ManualClock::new());
    let mut queue = Queue::builder()
        .capacity(1)
        .build::<_, u64>(Throttle::per_duration(1, HOUR).with_clock(clock.clone()))
        .with_clock(clock.clone());
    let late = queue.register(&7, 0, Some(Duration::from_millis(10))).unwrap();
    assert_eq!(late.deadline_ms, Some(10));
    assert_eq!(queue.register(&8, 0, None), Err(ThrottleError::QueueFull));
    clock.advance(millis(10));
    let next = queue.register(&8, 0, None).unwrap();
    assert_eq!(queue.poll(late), Step::Failed(ThrottleError::DeadlineExceeded));
    assert_eq!(queue.poll(next), Step::Granted);
}

#[test]
fn no_queue_is_smaller_than_one() {
    let queue: Queue<Throttle, ()> = Queue::builder().capacity(0).build(Throttle::per_second(1));
    assert_eq!(queue.capacity(), 1);
    assert_eq!(Overflow::default(), Overflow::Reject);
}

#[test]
fn a_wait_ends_at_the_deadline() {
    let wait = Duration::from_millis(500);
    assert_eq!(cap_to_deadline(wait, 100, None), wait);
    assert_eq!(cap_to_deadline(wait, 100, Some(700)), wait);
    assert_eq!(cap_to_deadline(wait, 100, Some(250)), Duration::from_millis(150));
    assert_eq!(cap_to_deadline(wait, 100, Some(50)), Duration::zero());
}

#[test]
fn a_request_that_ended_waits_no_more_and_paid_only_if_granted() {
    let clock = Arc::new(ManualClock::new());
    let mut queue = Queue::builder()
        .capacity(2)
        .overflow(Overflow::DropOldest)
        .build::<_, ()>(Throttle::per_duration(2, HOUR).with_clock(clock.clone()))
        .with_clock(clock.clone());
    let granted = queue.register(&(), 0, None).unwrap();
    assert_eq!(queue.poll(granted), Step::Granted);
    queue.leave(granted);
    assert_eq!(queue.inner().available(), 1);
    assert_eq!(queue.len(), 0);

    // One is given up, one is too late, one is evicted: none of them takes a token.
    let dropped = queue.register(&(), 0, None).unwrap();
    queue.leave(dropped);
    assert_eq!(queue.len(), 0);
    let late = queue.register(&(), 0, Some(Duration::from_millis(5))).unwrap();
    clock.advance(millis(5));
    assert_eq!(queue.poll(late), Step::Failed(ThrottleError::DeadlineExceeded));
    queue.leave(late);
    assert_eq!(queue.len(), 0);
    let evicted = queue.register(&(), 0, None).unwrap();
    let _ = queue.register(&(), 0, None).unwrap();
    assert_eq!(queue.unheard(), 0);
    let _ = queue.register(&(), 0, None).unwrap();
    assert_eq!(queue.unheard(), 1);
    assert_eq!(queue.poll(evicted), Step::Failed(ThrottleError::QueueFull));
    queue.leave(evicted);
    assert_eq!(queue.unheard(), 0);
    assert_eq!(queue.len(), 2);
    assert_eq!(queue.inner().available(), 1);
    // A name that has left is never served.
    assert_eq!(queue.poll(granted), Step::Sleep(HOUR));
    assert_eq!(queue.inner().available(), 1);
}
