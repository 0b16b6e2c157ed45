//! Spans of time in whole nanoseconds.

use vstd::prelude::*;

verus! {

/// Nanoseconds in [`Duration::longest`]: `u64::MAX` seconds and `999_999_999` nanoseconds.
pub const MAX_NANOS: u128 = 18_446_744_073_709_551_615_999_999_999;

/// A span of time, held as a count of whole nanoseconds.
#[derive(Debug, Clone, Copy, PartialEq, Eq, PartialOrd, Ord, Hash, Structural)]
pub struct Duration {
    /// The length of the span in nanoseconds.
    pub nanos: u128,
}

impl View for Duration {
    type V = nat;

    open spec fn view(&self) -> nat {
        self.nanos as nat
    }
}

/// The span of `nanos` nanoseconds.
pub open spec fn span(nanos: nat) -> Duration {
    Duration { nanos: nanos as u128 }
}

/// The smaller of two integers.
pub open spec fn min_int(a: int, b: int) -> int {
    if a <= b { a } else { b }
}

/// The larger of two integers.
pub open spec fn max_int(a: int, b: int) -> int {
    if a >= b { a } else { b }
}

/// Whole milliseconds in `d`, saturated to `u64`.
pub open spec fn millis_of(d: Duration) -> u64 {
    min_int((d@ / 1_000_000) as int, u64::MAX as int) as u64
}

/// Milliseconds in `d`, a part of one counted as a whole, saturated to `u64`.
pub open spec fn millis_up(d: Duration) -> u64 {
    min_int(((d@ + 999_999) / 1_000_000) as int, u64::MAX as int) as u64
}

/// Nanoseconds in `d`, saturated to `u64`.
pub open spec fn nanos_of(d: Duration) -> u64 {
    min_int(d@ as int, u64::MAX as int) as u64
}

/// The nanoseconds in `secs` seconds and `nanos` nanoseconds.
pub open spec fn parts_nanos(secs: u64, nanos: u32) -> nat {
    (secs as nat) * 1_000_000_000 + nanos as nat
}

/// Whole milliseconds are those that fit in a span, and rounding up adds one where some of the span
/// is left over.
pub proof fn lemma_milliseconds(d: Duration)
    requires
        d@ <= u64::MAX as nat * 1_000_000,
    ensures
        millis_of(d) * 1_000_000 <= d@ < (millis_of(d) + 1) * 1_000_000,
        (millis_up(d) - 1) * 1_000_000 < d@ <= millis_up(d) * 1_000_000,
{
}

impl Duration {
    /// The empty span.
    pub fn zero() -> (d: Self)
        ensures
            d@ == 0,
    {
        Duration { nanos: 0 }
    }

    /// The longest span that counts as a wait: `u64::MAX` seconds and
    /// `999_999_999` nanoseconds.
    pub fn longest() -> (d: Self)
        ensures
            d@ == MAX_NANOS,
    {
        Duration { nanos: MAX_NANOS }
    }

    /// A span of `secs` seconds.
    pub fn from_secs(secs: u64) -> (d: Self)
        ensures
            d@ == secs * 1_000_000_000,
    {
        Duration { nanos: secs as u128 * 1_000_000_000 }
    }

    /// A span of `millis` milliseconds.
    pub fn from_millis(millis: u64) -> (d: Self)
        ensures
            d@ == millis * 1_000_000,
    {
        Duration { nanos: millis as u128 * 1_000_000 }
    }

    /// A span of `nanos` nanoseconds.
    pub fn from_nanos(nanos: u64) -> (d: Self)
        ensures
            d@ == nanos,
    {
        Duration { nanos: nanos as u128 }
    }

    /// A span of `secs` seconds and `nanos` nanoseconds.
    pub fn from_parts(secs: u64, nanos: u32) -> (d: Self)
        ensures
            d@ == parts_nanos(secs, nanos),
    {
        Duration { nanos: secs as u128 * 1_000_000_000 + nanos as u128 }
    }

    /// The span as whole seconds and the nanoseconds left over, clamped to
    /// [`Duration::longest`].
    pub fn to_parts(&self) -> (parts: (u64, u32))
        ensures
            parts.1 < 1_000_000_000,
            parts_nanos(parts.0, parts.1) == min_int(self@ as int, MAX_NANOS as int),
    {
        if self.nanos >= MAX_NANOS {
            (u64::MAX, 999_999_999)
        } else {
            ((self.nanos / 1_000_000_000) as u64, (self.nanos % 1_000_000_000) as u32)
        }
    }

    /// The number of nanoseconds in the span.
    pub fn as_nanos(&self) -> (n: u128)
        ensures
            n == self@,
    {
        self.nanos
    }

    /// The number of whole milliseconds in the span.
    pub fn as_millis(&self) -> (n: u128)
        ensures
            n == self@ / 1_000_000,
    {
        self.nanos / 1_000_000
    }

    /// The number of whole milliseconds in the span, saturated to `u64`.
    pub fn millis_saturating(&self) -> (n: u64)
        ensures
            n == millis_of(*self),
    {
        let millis: u128 = self.nanos / 1_000_000;
        if millis > u64::MAX as u128 {
            u64::MAX
        } else {
            millis as u64
        }
    }

    /// The number of milliseconds in the span, a part of one counted as a whole, saturated to
    /// `u64`.
    pub fn millis_rounded_up(&self) -> (n: u64)
        ensures
            n == millis_up(*self),
    {
        let whole: u128 = self.nanos / 1_000_000;
        let part: u128 = if self.nanos % 1_000_000 > 0 {
            1
        } else {
            0
        };
        if whole + part > u64::MAX as u128 {
            u64::MAX
        } else {
            (whole + part) as u64
        }
    }

    /// The number of nanoseconds in the span, saturated to `u64`.
    pub fn nanos_saturating(&self) -> (n: u64)
        ensures
            n == nanos_of(*self),
    {
        if self.nanos > u64::MAX as u128 {
            u64::MAX
        } else {
            self.nanos as u64
        }
    }

    /// Whether the span is empty.
    pub fn is_zero(&self) -> (b: bool)
        ensures
            b == (self@ == 0),
    {
        self.nanos == 0
    }

    /// The sum of two spans, clamped to [`Duration::longest`].
    pub fn saturating_add(self, other: Self) -> (d: Self)
        ensures
            d@ == min_int(self@ + other@ as int, MAX_NANOS as int),
    {
        if self.nanos >= MAX_NANOS || other.nanos >= MAX_NANOS - self.nanos {
            Duration { nanos: MAX_NANOS }
        } else {
            Duration { nanos: self.nanos + other.nanos }
        }
    }

    /// The difference of two spans, or the empty span where `other` is longer.
    pub fn saturating_sub(self, other: Self) -> (d: Self)
        ensures
            d@ == max_int(self@ - other@, 0),
    {
        if self.nanos > other.nanos {
            Duration { nanos: self.nanos - other.nanos }
        } else {
            Duration { nanos: 0 }
        }
    }

    /// The longer of two spans.
    pub fn longer(self, other: Self) -> (d: Self)
        ensures
            d@ == max_int(self@ as int, other@ as int),
    {
        if self.nanos >= other.nanos {
            self
        } else {
            other
        }
    }

    /// The shorter of two spans.
    pub fn shorter(self, other: Self) -> (d: Self)
        ensures
            d@ == min_int(self@ as int, other@ as int),
    {
        if self.nanos <= other.nanos {
            self
        } else {
            other
        }
    }
}

/// Nanoseconds are counted one by one, as far as they fit.
pub proof fn lemma_nanoseconds(d: Duration)
    ensures
        d@ <= u64::MAX ==> nanos_of(d) == d@,
        d@ > u64::MAX ==> nanos_of(d) == u64::MAX,
{
}

} // verus!
