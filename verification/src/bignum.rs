//! Whole numbers of any size, just enough to scale by powers of a fraction.

use vstd::arithmetic::power::{lemma_pow0, lemma_pow1, lemma_pow_adds, pow};
use vstd::prelude::*;

verus! {

/// The base in which numbers are written.
pub const BASE: u64 = 0x1_0000_0000;

/// The number that `digits` in base 2^32 spell, least significant first.
pub open spec fn value_up(digits: Seq<u32>) -> nat
    decreases digits.len(),
{
    if digits.len() == 0 {
        0
    } else {
        digits[0] as nat + 0x1_0000_0000 * value_up(digits.drop_first())
    }
}

/// The number that `digits` in base 2^32 spell, most significant first.
pub open spec fn value_down(digits: Seq<u32>) -> nat
    decreases digits.len(),
{
    if digits.len() == 0 {
        0
    } else {
        value_down(digits.drop_last()) * 0x1_0000_0000 + digits.last() as nat
    }
}

proof fn lemma_value_push(digits: Seq<u32>, d: u32)
    ensures
        value_up(digits.push(d)) == value_up(digits) + d * pow(0x1_0000_0000, digits.len()),
    decreases digits.len(),
{
    if digits.len() == 0 {
        assert(digits.push(d).drop_first() =~= Seq::<u32>::empty());
        assert(value_up(digits.push(d).drop_first()) == 0);
        lemma_pow0(0x1_0000_0000);
        assert(d * pow(0x1_0000_0000, 0) == d) by (nonlinear_arith)
            requires
                pow(0x1_0000_0000, 0) == 1,
        ;
    } else {
        let rest = digits.drop_first();
        assert(digits.push(d).drop_first() =~= rest.push(d));
        lemma_value_push(rest, d);
        lemma_pow1(0x1_0000_0000);
        lemma_pow_adds(0x1_0000_0000, 1, rest.len());
        assert(0x1_0000_0000 * (d * pow(0x1_0000_0000, rest.len())) == d * (0x1_0000_0000 * pow(
            0x1_0000_0000,
            rest.len(),
        ))) by (nonlinear_arith);
    }
}

proof fn lemma_value_take(digits: Seq<u32>, i: int)
    requires
        0 <= i < digits.len(),
    ensures
        value_up(digits.take(i + 1)) == value_up(digits.take(i)) + digits[i] * pow(
            0x1_0000_0000,
            i as nat,
        ),
{
    assert(digits.take(i + 1) =~= digits.take(i).push(digits[i]));
    lemma_value_push(digits.take(i), digits[i]);
}

/// `digits` times `m`, least significant first.
pub fn times(digits: &Vec<u32>, m: u32) -> (product: Vec<u32>)
    ensures
        value_up(product@) == value_up(digits@) * m,
{
    let mut product: Vec<u32> = Vec::new();
    let mut carry: u64 = 0;
    let mut i: usize = 0;
    proof {
        lemma_pow0(0x1_0000_0000);
        assert(value_up(digits@.take(0)) == 0);
    }
    while i < digits.len()
        invariant
            i <= digits@.len(),
            product@.len() == i,
            carry < 0x1_0000_0000,
            value_up(product@) + carry * pow(0x1_0000_0000, i as nat) == value_up(
                digits@.take(i as int),
            ) * m,
        decreases digits@.len() - i,
    {
        let ghost before = product@;
        let ghost old_carry = carry;
        assert(0 <= digits@[i as int] * m <= 0xffff_ffff * 0xffff_ffff) by (nonlinear_arith)
            requires
                0 <= digits@[i as int] <= 0xffff_ffff,
                0 <= m <= 0xffff_ffff,
        ;
        let t: u64 = digits[i] as u64 * m as u64 + carry;
        let low: u32 = (t % BASE) as u32;
        carry = t / BASE;
        product.push(low);
        proof {
            let p = pow(0x1_0000_0000, i as nat);
            let d = digits@[i as int] as int;
            lemma_value_push(before, low);
            lemma_value_take(digits@, i as int);
            lemma_pow1(0x1_0000_0000);
            lemma_pow_adds(0x1_0000_0000, i as nat, 1);
            let q = pow(0x1_0000_0000, (i + 1) as nat);
            assert(q == p * 0x1_0000_0000);
            let v = value_up(digits@.take(i as int)) as int;
            assert(low * p + carry * q == t * p) by (nonlinear_arith)
                requires
                    t == low + carry * 0x1_0000_0000,
                    q == p * 0x1_0000_0000,
            ;
            assert(t * p == d * m * p + old_carry * p) by (nonlinear_arith)
                requires
                    t == d * m + old_carry,
            ;
            assert((v + d * p) * m == v * m + d * m * p) by (nonlinear_arith);
        }
        i += 1;
    }
    proof {
        assert(digits@.take(i as int) =~= digits@);
        lemma_value_push(product@, carry as u32);
    }
    product.push(carry as u32);
    product
}

proof fn lemma_reversed(digits: Seq<u32>)
    ensures
        value_down(digits.reverse()) == value_up(digits),
    decreases digits.len(),
{
    if digits.len() > 0 {
        assert(digits.reverse().drop_last() =~= digits.drop_first().reverse());
        assert(digits.reverse().last() == digits[0]);
        lemma_reversed(digits.drop_first());
    }
}

/// `digits` in the opposite order.
pub fn reversed(digits: &Vec<u32>) -> (other: Vec<u32>)
    ensures
        value_down(other@) == value_up(digits@),
{
    let mut other: Vec<u32> = Vec::new();
    let mut i: usize = digits.len();
    while i > 0
        invariant
            i <= digits@.len(),
            other@.len() == digits@.len() - i,
            forall|j: int| 0 <= j < other@.len() ==> other@[j] == digits@[digits@.len() - 1 - j],
        decreases i,
    {
        i -= 1;
        other.push(digits[i]);
    }
    proof {
        assert(other@ =~= digits@.reverse());
        lemma_reversed(digits@);
    }
    other
}

/// `digits` divided by `d`, rounded down, most significant first.
pub fn divided(digits: &Vec<u32>, d: u32) -> (quotient: Vec<u32>)
    requires
        d > 0,
    ensures
        value_down(quotient@) == value_down(digits@) / d as nat,
{
    let mut quotient: Vec<u32> = Vec::new();
    let mut rest: u64 = 0;
    let mut i: usize = 0;
    assert(digits@.take(0) =~= Seq::<u32>::empty());
    assert(value_down(quotient@) * d == 0) by (nonlinear_arith)
        requires
            value_down(quotient@) == 0,
    ;
    while i < digits.len()
        invariant
            i <= digits@.len(),
            d > 0,
            rest < d,
            value_down(digits@.take(i as int)) == value_down(quotient@) * d + rest,
        decreases digits@.len() - i,
    {
        let ghost before = quotient@;
        let ghost old_rest = rest;
        let t: u64 = rest * BASE + digits[i] as u64;
        let q: u64 = t / d as u64;
        assert(q < 0x1_0000_0000) by (nonlinear_arith)
            requires
                q == t as int / d as int,
                t < d * 0x1_0000_0000,
                d > 0,
        ;
        rest = t % d as u64;
        quotient.push(q as u32);
        proof {
            assert(digits@.take(i + 1).drop_last() =~= digits@.take(i as int));
            assert(quotient@.drop_last() =~= before);
            let v = value_down(before) as int;
            assert(t == q * d + rest) by (nonlinear_arith)
                requires
                    q == t as int / d as int,
                    rest == t as int % d as int,
                    d > 0,
            ;
            assert((v * d + old_rest) * 0x1_0000_0000 + digits@[i as int] == (v * 0x1_0000_0000 + q)
                * d + rest) by (nonlinear_arith)
                requires
                    old_rest * 0x1_0000_0000 + digits@[i as int] == q * d + rest,
            ;
        }
        i += 1;
    }
    proof {
        assert(digits@.take(i as int) =~= digits@);
        let n = value_down(digits@) as int;
        let q = value_down(quotient@) as int;
        assert(q == n / d as int) by (nonlinear_arith)
            requires
                n == q * d + rest,
                0 <= rest < d,
        ;
    }
    quotient
}

/// The number that `digits` spell, most significant first, saturated to `u64`.
pub fn saturated(digits: &Vec<u32>) -> (n: u64)
    ensures
        n == if value_down(digits@) > u64::MAX {
            u64::MAX as nat
        } else {
            value_down(digits@)
        },
{
    let mut n: u64 = 0;
    let mut i: usize = 0;
    assert(digits@.take(0) =~= Seq::<u32>::empty());
    while i < digits.len()
        invariant
            i <= digits@.len(),
            n == value_down(digits@.take(i as int)),
        decreases digits@.len() - i,
    {
        assert(digits@.take(i + 1).drop_last() =~= digits@.take(i as int));
        let t: u128 = n as u128 * BASE as u128 + digits[i] as u128;
        if t > u64::MAX as u128 {
            proof {
                lemma_value_down_grows(digits@, i + 1);
            }
            return u64::MAX;
        }
        n = t as u64;
        i += 1;
    }
    assert(digits@.take(i as int) =~= digits@);
    n
}

proof fn lemma_value_down_grows(digits: Seq<u32>, i: int)
    requires
        0 <= i <= digits.len(),
    ensures
        value_down(digits.take(i)) <= value_down(digits),
    decreases digits.len() - i,
{
    if i == digits.len() {
        assert(digits.take(i) =~= digits);
    } else {
        assert(digits.take(i + 1).drop_last() =~= digits.take(i));
        lemma_value_down_grows(digits, i + 1);
    }
}

/// The number `base` times `num / den` to the power `exp`, rounded down, saturated to `u64`.
pub open spec fn scaled(base: u64, num: nat, den: nat, exp: nat) -> u64 {
    let n = (base * pow(num as int, exp)) / pow(den as int, exp);
    if n > u64::MAX {
        u64::MAX
    } else {
        n as u64
    }
}

/// The number `base` times `num / den` to the power `exp`, rounded down, saturated to `u64`.
pub fn scale(base: u64, num: u32, den: u32, exp: u32) -> (n: u64)
    requires
        den > 0,
    ensures
        n == scaled(base, num as nat, den as nat, exp as nat),
{
    let mut digits: Vec<u32> = Vec::new();
    digits.push((base % BASE) as u32);
    digits.push((base / BASE) as u32);
    proof {
        assert(digits@.drop_first().drop_first() =~= Seq::<u32>::empty());
        assert(value_up(digits@.drop_first().drop_first()) == 0);
        assert(value_up(digits@.drop_first()) == digits@[1]);
        assert(value_up(digits@) == base);
        lemma_pow0(num as int);
        assert(base * pow(num as int, 0) == base) by (nonlinear_arith)
            requires
                pow(num as int, 0) == 1,
        ;
    }
    let mut i: u32 = 0;
    while i < exp
        invariant
            i <= exp,
            value_up(digits@) == base * pow(num as int, i as nat),
        decreases exp - i,
    {
        proof {
            let p = pow(num as int, i as nat);
            lemma_pow1(num as int);
            lemma_pow_adds(num as int, i as nat, 1);
            assert(base * (p * num) == (base * p) * num) by (nonlinear_arith);
        }
        digits = times(&digits, num);
        i += 1;
    }
    let mut down = reversed(&digits);
    let ghost whole = value_down(down@);
    proof {
        lemma_pow0(den as int);
        assert(whole as int / 1 == whole);
    }
    i = 0;
    while i < exp
        invariant
            i <= exp,
            den > 0,
            pow(den as int, i as nat) > 0,
            value_down(down@) == whole as int / pow(den as int, i as nat),
        decreases exp - i,
    {
        proof {
            let p = pow(den as int, i as nat);
            lemma_pow1(den as int);
            lemma_pow_adds(den as int, i as nat, 1);
            vstd::arithmetic::div_mod::lemma_div_denominator(whole as int, p, den as int);
            assert(p * den > 0) by (nonlinear_arith)
                requires
                    p > 0,
                    den > 0,
            ;
        }
        down = divided(&down, den);
        i += 1;
    }
    saturated(&down)
}

} // verus!
