//! The errors of an acquisition.

use vstd::prelude::*;
use vstd::string::StringExecFns;

use crate::time::Duration;
use crate::written::{digit_char, written};

verus! {

/// Why an acquisition failed.
#[non_exhaustive]
#[derive(Debug, Clone, Copy, PartialEq, Eq, Structural)]
pub enum ThrottleError {
    /// The request asks for more than the limiter can ever hold.
    CostExceedsCapacity {
        /// The tokens asked for.
        cost: u32,
        /// The most tokens the limiter can hold.
        capacity: u32,
    },
    /// A circuit breaker is open and sheds requests.
    CircuitOpen {
        /// How long until the breaker lets a trial request through.
        retry_after: Duration,
    },
    /// A queue was full and its policy turned the request away.
    QueueFull,
    /// The deadline of a queued request passed before its turn came.
    DeadlineExceeded,
}

/// The decimal digits of `n`, most significant first.
pub open spec fn digits(n: nat) -> Seq<char>
    decreases n,
{
    if n < 10 {
        seq![digit(n)]
    } else {
        digits(n / 10).push(digit(n % 10))
    }
}

/// The decimal digit of `n`, for `n` below ten.
pub open spec fn digit(n: nat) -> char {
    ('0' as u32 + n as u32) as char
}

/// The digit of `n` as a string.
fn digit_str(n: u32) -> (s: &'static str)
    requires
        n < 10,
    ensures
        s@ == seq![digit(n as nat)],
{
    proof {
        reveal_strlit("0");
        reveal_strlit("1");
        reveal_strlit("2");
        reveal_strlit("3");
        reveal_strlit("4");
        reveal_strlit("5");
        reveal_strlit("6");
        reveal_strlit("7");
        reveal_strlit("8");
        reveal_strlit("9");
    }
    match n {
        0 => "0",
        1 => "1",
        2 => "2",
        3 => "3",
        4 => "4",
        5 => "5",
        6 => "6",
        7 => "7",
        8 => "8",
        _ => "9",
    }
}

/// Appends the decimal digits of `n` to `text`.
fn push_digits(text: &mut String, n: u32)
    ensures
        final(text)@ == old(text)@ + digits(n as nat),
    decreases n,
{
    if n >= 10 {
        push_digits(text, n / 10);
    }
    text.append(digit_str(n % 10));
}

impl ThrottleError {
    /// The name of the error's kind.
    pub open spec fn kind_name(&self) -> Seq<char> {
        match *self {
            ThrottleError::CostExceedsCapacity { .. } => "CostExceedsCapacity"@,
            ThrottleError::CircuitOpen { .. } => "CircuitOpen"@,
            ThrottleError::QueueFull => "QueueFull"@,
            ThrottleError::DeadlineExceeded => "DeadlineExceeded"@,
        }
    }

    /// The text of the error for a reader.
    pub open spec fn text(&self) -> Seq<char> {
        match *self {
            ThrottleError::CostExceedsCapacity { cost, capacity } => "requested cost "@ + digits(
                cost as nat,
            ) + " exceeds limiter capacity "@ + digits(capacity as nat)
                + "; it can never be granted"@,
            ThrottleError::CircuitOpen { .. } => "circuit breaker is open; the request was shed"@,
            ThrottleError::QueueFull => "queue is full; the request was turned away"@,
            ThrottleError::DeadlineExceeded => "deadline passed before the request was served"@,
        }
    }

    /// The name of the error's kind.
    pub fn kind(&self) -> (name: &'static str)
        ensures
            name@ == self.kind_name(),
    {
        match self {
            ThrottleError::CostExceedsCapacity { .. } => "CostExceedsCapacity",
            ThrottleError::CircuitOpen { .. } => "CircuitOpen",
            ThrottleError::QueueFull => "QueueFull",
            ThrottleError::DeadlineExceeded => "DeadlineExceeded",
        }
    }

    /// What all of these errors are about.
    pub fn caption(&self) -> (text: &'static str)
        ensures
            text@ == "Throttle acquisition error"@,
    {
        "Throttle acquisition error"
    }

    /// Whether the same request may succeed later.
    pub fn is_retryable(&self) -> (yes: bool)
        ensures
            yes == (self is CircuitOpen || self is QueueFull),
    {
        matches!(self, ThrottleError::CircuitOpen { .. } | ThrottleError::QueueFull)
    }

    /// The text of the error for a reader.
    pub fn message(&self) -> (text: String)
        ensures
            text@ == self.text(),
    {
        match self {
            ThrottleError::CostExceedsCapacity { cost, capacity } => {
                let mut text = String::from_str("requested cost ");
                push_digits(&mut text, *cost);
                text.append(" exceeds limiter capacity ");
                push_digits(&mut text, *capacity);
                text.append("; it can never be granted");
                text
            },
            ThrottleError::CircuitOpen { .. } => String::from_str(
                "circuit breaker is open; the request was shed",
            ),
            ThrottleError::QueueFull => String::from_str(
                "queue is full; the request was turned away",
            ),
            ThrottleError::DeadlineExceeded => String::from_str(
                "deadline passed before the request was served",
            ),
        }
    }
}

/// The text of a request that asks for too much holds both numbers in decimal, first what was asked
/// for, then the most there is.
pub proof fn lemma_the_text_names_both_numbers(cost: u32, capacity: u32)
    ensures
        (ThrottleError::CostExceedsCapacity { cost, capacity }).text() == "requested cost "@
            + written(cost as nat) + " exceeds limiter capacity "@ + written(capacity as nat)
            + "; it can never be granted"@,
{
    lemma_digits(cost as nat);
    lemma_digits(capacity as nat);
}

proof fn lemma_digits(n: nat)
    ensures
        digits(n) == written(n),
    decreases n,
{
    assert(digit(n % 10) == digit_char(n % 10));
    if n >= 10 {
        lemma_digits(n / 10);
    } else {
        assert(n % 10 == n);
    }
}

} // verus!
