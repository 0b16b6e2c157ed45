//! The outcome of asking a limiter for tokens.

use vstd::prelude::*;

use crate::time::Duration;

verus! {

/// What a limiter answers to a request for tokens.
#[non_exhaustive]
#[derive(Debug, Clone, Copy, PartialEq, Eq, Structural)]
pub enum Decision {
    /// The tokens were granted (or, for a peek, would be granted).
    Acquired,
    /// Not enough tokens now; the request may succeed after a wait.
    Retry {
        /// How long to wait before asking again.
        after: Duration,
    },
    /// The request can never be granted.
    Impossible,
}

impl Decision {
    /// Whether the tokens were granted.
    pub fn is_acquired(&self) -> (b: bool)
        ensures
            b == (self is Acquired),
    {
        matches!(self, Decision::Acquired)
    }

    /// The suggested wait, for a request that may succeed later.
    pub fn retry_after(&self) -> (wait: Option<Duration>)
        ensures
            wait == (match *self {
                Decision::Retry { after } => Some(after),
                _ => None,
            }),
    {
        match self {
            Decision::Retry { after } => Some(*after),
            _ => None,
        }
    }
}

} // verus!
