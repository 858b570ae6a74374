//! Positive double precision numbers, given as their bits: how many bits an
//! estimate stands for, and how close two estimates are.
use crate::arith;
use vstd::arithmetic::power2::*;
use vstd::prelude::*;

verus! {

/// The bits of 1.0.
pub const ONE: u64 = 0x3FF0_0000_0000_0000;

/// The bits of 2^32.
pub const TWO_32: u64 = 0x41F0_0000_0000_0000;

/// The significand of 1.02, over 2^52.
pub const MARGIN: u64 = 0x10_51EB_851E_B852;

/// The power of two that a normal number's significand is scaled by.
pub open spec fn exponent(u: u64) -> int {
    u as int / 0x10_0000_0000_0000 - 1023
}

/// The significand of a normal number, over 2^52.
pub open spec fn significand(u: u64) -> int {
    0x10_0000_0000_0000 + u as int % 0x10_0000_0000_0000
}

/// A number from 1 up to, but not including, 2^32.
pub open spec fn moderate(u: u64) -> bool {
    ONE <= u < TWO_32
}

/// A moderate number, rounded down.
pub open spec fn floor_of(u: u64) -> nat {
    (significand(u) / (pow2((52 - exponent(u)) as nat) as int)) as nat
}

/// `p / 2^s`, rounded to the nearest integer, halves to the even one.
pub open spec fn nearest(p: int, s: nat) -> int {
    let unit = pow2(s) as int;
    let q = p / unit;
    let r = p % unit;
    if 2 * r > unit || 2 * r == unit && q % 2 == 1 {
        q + 1
    } else {
        q
    }
}

/// The bits of a moderate number times 1.02, rounded to the nearest double
/// precision number with halves to the even one.
pub open spec fn raised(u: u64) -> int {
    let p = significand(u) * MARGIN;
    let exp = u as int / 0x10_0000_0000_0000;
    // A product of two or more takes one binary place more.
    if p >= 0x20_0000_0000_0000 * 0x10_0000_0000_0000 {
        (exp + 1) * 0x10_0000_0000_0000 + nearest(p, 53) - 0x10_0000_0000_0000
    } else {
        exp * 0x10_0000_0000_0000 + nearest(p, 52) - 0x10_0000_0000_0000
    }
}

/// A moderate number, rounded down.
pub fn floor(u: u64) -> (r: u64)
    requires
        moderate(u),
    ensures
        r == floor_of(u),
        r < 0x1_0000_0000,
{
    let exp: u64 = u / 0x10_0000_0000_0000 - 1023;
    let sig: u64 = 0x10_0000_0000_0000 + u % 0x10_0000_0000_0000;
    let shift: u64 = 52 - exp;
    proof {
        lemma2_to64();
        lemma2_to64_rest();
        vstd::bits::lemma_u64_shr_is_div(sig, shift);
        arith::lemma_pow2_monotone(21, shift as nat);
        lemma_pow2_pos(shift as nat);
        let m = pow2(shift as nat) as int;
        assert(sig as int / m < 0x1_0000_0000) by (nonlinear_arith)
            requires
                sig < 0x20_0000_0000_0000,
                m >= 0x20_0000,
        ;
    }
    sig >> shift
}

/// `p / 2^s`, rounded to the nearest integer, halves to the even one.
fn round_even(p: u128, unit: u128, Ghost(s): Ghost<nat>) -> (r: u128)
    requires
        unit == pow2(s),
        2 <= unit <= 0x20_0000_0000_0000,
        p < 0x1_0000_0000_0000_0000_0000_0000_0000,
    ensures
        r == nearest(p as int, s),
        r <= p as int / unit as int + 1,
{
    let q: u128 = p / unit;
    let rest: u128 = p % unit;
    if 2 * rest > unit || 2 * rest == unit && q % 2 == 1 {
        q + 1
    } else {
        q
    }
}

/// The bits of a moderate number times 1.02.
pub fn raise(u: u64) -> (r: u64)
    requires
        moderate(u),
    ensures
        r == raised(u),
{
    let exp: u64 = u / 0x10_0000_0000_0000;
    let sig: u64 = 0x10_0000_0000_0000 + u % 0x10_0000_0000_0000;
    proof {
        lemma2_to64_rest();
        assert(0x10_0000_0000_0000 * MARGIN <= sig * MARGIN < 0x20_0000_0000_0000 * MARGIN)
            by (nonlinear_arith)
            requires
                0x10_0000_0000_0000 <= sig < 0x20_0000_0000_0000,
        ;
    }
    let p: u128 = sig as u128 * MARGIN as u128;
    if p >= 0x20_0000_0000_0000 * 0x10_0000_0000_0000 {
        let rounded: u128 = round_even(p, 0x20_0000_0000_0000, Ghost(53));
        (exp + 1) * 0x10_0000_0000_0000 + (rounded - 0x10_0000_0000_0000) as u64
    } else {
        let rounded: u128 = round_even(p, 0x10_0000_0000_0000, Ghost(52));
        exp * 0x10_0000_0000_0000 + (rounded - 0x10_0000_0000_0000) as u64
    }
}

/// A raised number is no smaller.
pub proof fn lemma_raised_above(u: u64)
    requires
        moderate(u),
    ensures
        u <= raised(u),
{
    lemma2_to64_rest();
    let sig = significand(u);
    let p = sig * MARGIN;
    assert(p >= sig * 0x10_0000_0000_0000) by (nonlinear_arith)
        requires
            p == sig * MARGIN,
            MARGIN >= 0x10_0000_0000_0000,
            sig >= 0,
    ;
}

/// A moderate number, rounded down, is the largest integer within it.
pub proof fn lemma_floor(u: u64)
    requires
        moderate(u),
    ensures
        ({
            let scale = pow2((1075 - u as int / 0x10_0000_0000_0000) as nat) as int;
            let sig = 0x10_0000_0000_0000 + u as int % 0x10_0000_0000_0000;
            floor_of(u) * scale <= sig < (floor_of(u) + 1) * scale
        }),
{
    let exp = (1075 - u as int / 0x10_0000_0000_0000) as nat;
    lemma_pow2_pos(exp);
    let scale = pow2(exp) as int;
    let sig = significand(u);
    vstd::arithmetic::div_mod::lemma_fundamental_div_mod(sig, scale);
    let q = sig / scale;
    assert(q >= 0) by (nonlinear_arith)
        requires
            sig == scale * q + sig % scale,
            sig % scale < scale,
            sig >= 0,
            scale >= 1,
    ;
    assert(q * scale <= sig < (q + 1) * scale) by (nonlinear_arith)
        requires
            sig == scale * q + sig % scale,
            0 <= sig % scale < scale,
    ;
}

/// The unit in the last place of a number that is `e` binary places above
/// another.
proof fn lemma_unit(u: u64, r: u64, e: nat)
    requires
        exponent(r) - exponent(u) == e,
        e <= 1,
    ensures
        0x10_0000_0000_0000 * pow2((exponent(r) - exponent(u)) as nat) == (if e == 0 {
            0x10_0000_0000_0000int
        } else {
            0x20_0000_0000_0000
        }),
        significand(r) * (0x10_0000_0000_0000 * pow2((exponent(r) - exponent(u)) as nat)) == (
        if e == 0 {
            significand(r) * 0x10_0000_0000_0000
        } else {
            significand(r) * 0x20_0000_0000_0000
        }),
{
    lemma2_to64();
}

/// A raised number is the number times 1.02 to within half a unit in the last
/// place, and the factor is 1.02 to within half a unit too.
pub proof fn lemma_raised_near(u: u64)
    requires
        moderate(u),
    ensures
        0 <= raised(u) <= u64::MAX,
        ({
            let r = raised(u) as u64;
            let e = exponent(r) - exponent(u);
            let unit = 0x10_0000_0000_0000 * pow2(e as nat);
            let exact = significand(u) * MARGIN;
            &&& 0 <= e <= 1
            &&& -unit <= 2 * (significand(r) * unit - exact) <= unit
        }),
        -50 <= 100 * MARGIN - 102 * 0x10_0000_0000_0000 <= 50,
{
    lemma2_to64();
    lemma2_to64_rest();
    let exp = u as int / 0x10_0000_0000_0000;
    let sig = significand(u);
    let p = sig * MARGIN;
    assert(0x10_0000_0000_0000 * MARGIN <= p < 0x20_0000_0000_0000 * MARGIN) by (nonlinear_arith)
        requires
            p == sig * MARGIN,
            0x10_0000_0000_0000 <= sig < 0x20_0000_0000_0000,
    ;
    let r = raised(u);
    if p >= 0x20_0000_0000_0000 * 0x10_0000_0000_0000 {
        let q = nearest(p, 53);
        assert(0x10_0000_0000_0000 <= q < 0x20_0000_0000_0000);
        assert(r == (exp + 1) * 0x10_0000_0000_0000 + (q - 0x10_0000_0000_0000));
        assert(r / 0x10_0000_0000_0000 == exp + 1);
        assert(r % 0x10_0000_0000_0000 == q - 0x10_0000_0000_0000);
        lemma_unit(u, r as u64, 1);
    } else {
        let q = nearest(p, 52);
        assert(0x10_0000_0000_0000 <= q <= 0x20_0000_0000_0000);
        assert(r == exp * 0x10_0000_0000_0000 + (q - 0x10_0000_0000_0000));
        if q < 0x20_0000_0000_0000 {
            assert(r / 0x10_0000_0000_0000 == exp);
            assert(r % 0x10_0000_0000_0000 == q - 0x10_0000_0000_0000);
            lemma_unit(u, r as u64, 0);
        } else {
            assert(r / 0x10_0000_0000_0000 == exp + 1);
            assert(r % 0x10_0000_0000_0000 == 0);
            lemma_unit(u, r as u64, 1);
        }
    }
}

} // verus!
