//! Exact fractions.

use vstd::prelude::*;

use crate::bignum::{scale, scaled};

verus! {

/// A fraction of two whole numbers.
#[derive(Debug, Clone, Copy, PartialEq, Eq)]
pub struct Ratio {
    num: u32,
    den: u32,
}

impl Ratio {
    #[verifier::type_invariant]
    spec fn proper(self) -> bool {
        self.den > 0
    }

    /// The number above the line.
    pub closed spec fn num(&self) -> nat {
        self.num as nat
    }

    /// The number below the line.
    pub closed spec fn den(&self) -> nat {
        self.den as nat
    }

    /// The fraction `num / den`.
    pub fn new(num: u32, den: u32) -> (ratio: Self)
        requires
            den > 0,
        ensures
            ratio.num() == num,
            ratio.den() == den,
    {
        Ratio { num, den }
    }

    /// The fraction, but one where it is more than that.
    pub fn at_most_one(self) -> (ratio: Self)
        ensures
            self.num() <= self.den() ==> ratio == self,
            self.num() > self.den() ==> ratio.num() == ratio.den() && ratio.den() > 0,
    {
        if self.num <= self.den {
            self
        } else {
            Ratio { num: 1, den: 1 }
        }
    }

    /// Whether `part` out of `whole` is at least the fraction.
    pub fn is_reached_by(&self, part: u32, whole: u32) -> (yes: bool)
        ensures
            yes == (part * self.den() >= self.num() * whole),
    {
        proof {
            assert(0 <= part * self.den <= u32::MAX * u32::MAX) by (nonlinear_arith)
                requires
                    0 <= part <= u32::MAX,
                    0 <= self.den <= u32::MAX,
            ;
            assert(0 <= self.num * whole <= u32::MAX * u32::MAX) by (nonlinear_arith)
                requires
                    0 <= whole <= u32::MAX,
                    0 <= self.num <= u32::MAX,
            ;
        }
        part as u64 * self.den as u64 >= self.num as u64 * whole as u64
    }

    /// The number `base` times the fraction to the power `exp`, rounded down, saturated to `u64`.
    pub fn power_of(&self, base: u64, exp: u32) -> (n: u64)
        ensures
            n == scaled(base, self.num(), self.den(), exp as nat),
    {
        proof {
            use_type_invariant(self);
        }
        scale(base, self.num, self.den, exp)
    }

    /// The fraction of `n`, rounded down, saturated to `u32`.
    pub fn of(&self, n: u32) -> (m: u32)
        ensures
            m == share(*self, n),
            self.num() <= self.den() ==> m <= n,
    {
        proof {
            use_type_invariant(self);
            assert(0 <= self.num * n <= u32::MAX * u32::MAX) by (nonlinear_arith)
                requires
                    0 <= n <= u32::MAX,
                    0 <= self.num <= u32::MAX,
            ;
            assert(self.num <= self.den ==> (self.num * n) / self.den as int <= n)
                by (nonlinear_arith)
                requires
                    self.den > 0,
                    0 <= n,
                    0 <= self.num,
            ;
        }
        let m: u64 = self.num as u64 * n as u64 / self.den as u64;
        if m > u32::MAX as u64 {
            u32::MAX
        } else {
            m as u32
        }
    }
}

/// The fraction of `n`, rounded down, saturated to `u32`.
pub open spec fn share(ratio: Ratio, n: u32) -> u32 {
    let m = (ratio.num() * n as nat) / ratio.den();
    if m > u32::MAX {
        u32::MAX
    } else {
        m as u32
    }
}

/// A fraction of a number is the largest whole number that is no more than it, as far as that can
/// be counted.
pub proof fn lemma_a_share_is_rounded_down(ratio: Ratio, n: u32)
    requires
        ratio.den() > 0,
    ensures
        share(ratio, n) * ratio.den() <= ratio.num() * n,
        share(ratio, n) < u32::MAX ==> ratio.num() * n < (share(ratio, n) + 1) * ratio.den(),
{
    let whole = ratio.num() * n as nat;
    let den = ratio.den();
    let m = whole / den;
    assert(m * den <= whole < (m + 1) * den) by (nonlinear_arith)
        requires
            m == whole / den,
            den > 0,
    ;
    if m > u32::MAX {
        assert(u32::MAX * den <= m * den) by (nonlinear_arith)
            requires
                m > u32::MAX,
                den > 0,
        ;
    }
}

} // verus!
