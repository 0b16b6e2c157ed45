//! Ready-made budgets for the service tiers of common model providers.
//!
//! The numbers are starting points: providers change them.

use vstd::prelude::*;

use crate::bucket::tier_one;
use crate::multi::MultiLimiter;
use crate::throttle::Throttle;
use crate::time::Duration;

pub mod anthropic;
pub mod openai;

verus! {

/// Whether `limiter` has full budgets per minute for requests, input tokens and output tokens.
pub open spec fn meters_per_minute(
    limiter: MultiLimiter<Throttle>,
    requests: u32,
    input_tokens: u32,
    output_tokens: u32,
) -> bool {
    &&& limiter.valid()
    &&& limiter.names().len() == 3
    &&& limiter.names()[0]@ == "requests"@
    &&& limiter.names()[1]@ == "input_tokens"@
    &&& limiter.names()[2]@ == "output_tokens"@
    &&& per_minute_budget(limiter.limiters()[0], requests)
    &&& per_minute_budget(limiter.limiters()[1], input_tokens)
    &&& per_minute_budget(limiter.limiters()[2], output_tokens)
}

/// Whether `throttle` is full and holds `amount` tokens a minute.
pub open spec fn per_minute_budget(throttle: Throttle, amount: u32) -> bool {
    &&& throttle.limits() == tier_one(amount, 60_000_000_000)
    &&& throttle.full()
    &&& throttle.starts_now()
}

/// Full budgets per minute for requests, input tokens and output tokens.
fn per_minute(requests: u32, input_tokens: u32, output_tokens: u32) -> (limiter: MultiLimiter<
    Throttle,
>)
    ensures
        meters_per_minute(limiter, requests, input_tokens, output_tokens),
{
    let minute = Duration::from_secs(60);
    let first = MultiLimiter::builder().dimension(
        "requests",
        Throttle::per_duration(requests, minute),
    );
    let second = first.dimension("input_tokens", Throttle::per_duration(input_tokens, minute));
    assert(second.names()[0] == first.names()[0]) by {
        assert(second.names().drop_last()[0] == first.names()[0]);
    }
    let third = second.dimension("output_tokens", Throttle::per_duration(output_tokens, minute));
    assert(third.names().drop_last()[0] == second.names()[0]);
    assert(third.names().drop_last()[1] == second.names()[1]);
    third.build()
}

/// A tier's budgets are full at first, each holds what the tier allows in a minute, and each
/// regains that in a minute.
pub proof fn lemma_budgets_are_per_minute(
    limiter: MultiLimiter<Throttle>,
    requests: u32,
    input_tokens: u32,
    output_tokens: u32,
    at: Duration,
)
    requires
        meters_per_minute(limiter, requests, input_tokens, output_tokens),
        requests > 0,
        input_tokens > 0,
        output_tokens > 0,
    ensures
        limiter.limiters()[0].limits() == (requests, requests, (60 * 1_000_000_000) as nat),
        limiter.limiters()[1].limits() == (
            input_tokens,
            input_tokens,
            (60 * 1_000_000_000) as nat,
        ),
        limiter.limiters()[2].limits() == (
            output_tokens,
            output_tokens,
            (60 * 1_000_000_000) as nat,
        ),
        limiter.limiters()[0].bucket().tokens(at) == requests,
        limiter.limiters()[1].bucket().tokens(at) == input_tokens,
        limiter.limiters()[2].bucket().tokens(at) == output_tokens,
{
}

} // verus!
