//! Tiers of the Anthropic API.

use vstd::prelude::*;

use super::{meters_per_minute, per_minute};
use crate::multi::MultiLimiter;
use crate::throttle::Throttle;

verus! {

/// Tier 1: 50 requests, 40 000 input tokens and 8 000 output tokens a minute.
pub fn tier_1() -> (limiter: MultiLimiter<Throttle>)
    ensures
        meters_per_minute(limiter, 50, 40_000, 8_000),
{
    per_minute(50, 40_000, 8_000)
}

/// Tier 2: 1 000 requests, 80 000 input tokens and 16 000 output tokens a minute.
pub fn tier_2() -> (limiter: MultiLimiter<Throttle>)
    ensures
        meters_per_minute(limiter, 1_000, 80_000, 16_000),
{
    per_minute(1_000, 80_000, 16_000)
}

/// Tier 4: 4 000 requests, 400 000 input tokens and 80 000 output tokens a minute.
pub fn tier_4() -> (limiter: MultiLimiter<Throttle>)
    ensures
        meters_per_minute(limiter, 4_000, 400_000, 80_000),
{
    per_minute(4_000, 400_000, 80_000)
}

} // verus!
