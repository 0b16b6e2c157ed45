//! Tiers of the OpenAI API.

use vstd::prelude::*;

use super::{meters_per_minute, per_minute};
use crate::multi::MultiLimiter;
use crate::throttle::Throttle;

verus! {

/// Tier 1: 500 requests, 30 000 input tokens and 30 000 output tokens a minute.
pub fn tier_1() -> (limiter: MultiLimiter<Throttle>)
    ensures
        meters_per_minute(limiter, 500, 30_000, 30_000),
{
    per_minute(500, 30_000, 30_000)
}

/// Tier 2: 5 000 requests, 450 000 input tokens and 450 000 output tokens a minute.
pub fn tier_2() -> (limiter: MultiLimiter<Throttle>)
    ensures
        meters_per_minute(limiter, 5_000, 450_000, 450_000),
{
    per_minute(5_000, 450_000, 450_000)
}

} // verus!
