//! The steps of an acquisition that waits.

use vstd::prelude::*;

use crate::decision::Decision;
use crate::error::ThrottleError;
use crate::time::Duration;

verus! {

/// What a waiting acquisition does next.
#[derive(Debug, Clone, Copy, PartialEq, Eq, Structural)]
pub enum Step {
    /// The tokens are granted: return.
    Granted,
    /// The request failed: return the error.
    Failed(ThrottleError),
    /// Wait this long, then ask again.
    Sleep(Duration),
}

/// What a waiting acquisition of `cost` tokens does on `answer`, given the limiter's capacity.
pub open spec fn step_after(answer: Decision, cost: u32, capacity: u32) -> Step {
    match answer {
        Decision::Acquired => Step::Granted,
        Decision::Retry { after } => Step::Sleep(after),
        Decision::Impossible => Step::Failed(ThrottleError::CostExceedsCapacity { cost, capacity }),
    }
}

/// What a waiting acquisition of `cost` tokens does on `answer`, given the limiter's capacity.
pub fn next_step(answer: Decision, cost: u32, capacity: u32) -> (step: Step)
    ensures
        step == step_after(answer, cost, capacity),
{
    match answer {
        Decision::Acquired => Step::Granted,
        Decision::Retry { after } => Step::Sleep(after),
        Decision::Impossible => Step::Failed(ThrottleError::CostExceedsCapacity { cost, capacity }),
    }
}

/// A waiting acquisition returns exactly when its answer is final, with a grant if it was granted
/// and with what was asked and what there is at most if it never will be; else it waits for as long
/// as it was told.
pub proof fn lemma_a_step_follows_its_answer(
    answer: Decision,
    cost: u32,
    capacity: u32,
    after: Duration,
)
    ensures
        answer is Acquired <==> step_after(answer, cost, capacity) == Step::Granted,
        answer == (Decision::Retry { after }) <==> step_after(answer, cost, capacity) == Step::Sleep(
            after,
        ),
        answer is Impossible ==> (step_after(answer, cost, capacity) matches Step::Failed(error) && (
        error matches ThrottleError::CostExceedsCapacity { cost: asked, capacity: most } && asked
            == cost && most == capacity)),
{
}

} // verus!
