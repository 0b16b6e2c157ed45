//! Outbound throttling and resilience.
//!
//! A program that calls other services paces itself with this library: token buckets and sliding
//! windows, alone or combined, per key or in layers; queues with priorities and deadlines; circuit
//! breakers; limits that adapt; retries with backoff; and the headers in which services announce
//! their own limits.
//!
//! Limiters change state through `&mut` and read their clocks themselves. Each operation that does
//! so has a twin that takes the readings as arguments, and its contract says exactly what comes of
//! them. An acquisition that waits is a loop around a step function: the loop sleeps, the step
//! decides.

use vstd::prelude::*;

pub mod adaptive;
pub mod backoff;
pub mod bignum;
pub mod bucket;
pub mod circuit;
pub mod clock;
pub mod decision;
pub mod error;
pub mod eviction;
pub mod hybrid;
pub mod key;
pub mod layered;
pub mod limiter;
pub mod multi;
pub mod perkey;
pub mod presets;
pub mod provider;
pub mod queue;
pub mod ratio;
pub mod retry;
pub mod retry_after;
pub mod sliding;
pub mod step;
pub mod text;
pub mod throttle;
pub mod time;
pub mod timeutil;
pub mod written;

pub use crate::adaptive::{
    AdaptiveLimiter, AdaptiveLimiterBuilder, AdaptivePermit, AdaptiveStrategy, Aimd, Outcome, Vegas,
};
pub use crate::backoff::{Backoff, BackoffIter, Jitter};
pub use crate::bucket::TokenBucket;
pub use crate::circuit::{BreakerState, CircuitBreaker, CircuitBreakerBuilder, Permit, Trip};
pub use crate::clock::{Clock, SystemClock};
pub use crate::decision::Decision;
pub use crate::error::ThrottleError;
pub use crate::eviction::{Eviction, DEFAULT_MAX_KEYS};
pub use crate::hybrid::{Hybrid, HybridBuilder};
pub use crate::key::Key;
pub use crate::layered::{Layered, LayeredBuilder};
pub use crate::limiter::{Limiter, Reading};
pub use crate::multi::{MultiLimiter, MultiLimiterBuilder};
pub use crate::perkey::PerKey;
pub use crate::queue::{Overflow, Queue, QueueBuilder};
pub use crate::ratio::Ratio;
pub use crate::retry::{retry_if_retryable, Attempts, Retry, RetryAction};
pub use crate::retry_after::{parse_retry_after, parse_retry_after_at};
pub use crate::sliding::SlidingWindowLog;
pub use crate::step::Step;
pub use crate::throttle::Throttle;
pub use crate::time::Duration;
pub use clock_lib::ManualClock;

verus! {

/// The version of the library.
pub const VERSION: &'static str = "0.8.0";

} // verus!
