//! Integer arithmetic shared by the codec: 32-bit wrap-around, floor division
//! by powers of two, and how the machine's shifts and masks compute them.
use vstd::arithmetic::div_mod::*;
use vstd::arithmetic::mul::*;
use vstd::arithmetic::power2::*;
use vstd::bits::*;
use vstd::prelude::*;

verus! {

/// The `i32` congruent to `x` modulo 2^32.
pub open spec fn wrap32(x: int) -> i32 {
    (((x + 0x8000_0000) % 0x1_0000_0000) - 0x8000_0000) as i32
}

/// The `u32` congruent to `x` modulo 2^32.
pub open spec fn low32(x: int) -> u32 {
    (x % 0x1_0000_0000) as u32
}

/// The absolute value.
pub open spec fn abs(x: int) -> nat {
    if x < 0 {
        (-x) as nat
    } else {
        x as nat
    }
}

/// The smaller of two numbers.
pub open spec fn min(a: int, b: int) -> int {
    if a <= b {
        a
    } else {
        b
    }
}

pub proof fn lemma_wrap32_in_range(x: int)
    requires
        i32::MIN <= x <= i32::MAX,
    ensures
        wrap32(x) == x,
{
}

/// Wrapping is blind to multiples of 2^32.
pub proof fn lemma_wrap32_shift(x: int, k: int)
    ensures
        wrap32(x + k * 0x1_0000_0000) == wrap32(x),
{
    lemma_mod_multiples_vanish(k, x + 0x8000_0000, 0x1_0000_0000);
}

/// An inner wrap in a sum does not show.
pub proof fn lemma_wrap32_add(x: int, y: int)
    ensures
        wrap32(wrap32(x) + y) == wrap32(x + y),
{
    let k = (x + 0x8000_0000) / 0x1_0000_0000;
    assert(x + y == (wrap32(x) + y) + k * 0x1_0000_0000);
    lemma_wrap32_shift(wrap32(x) + y, k);
}

/// Subtracting a prediction and adding it back restores the sample, whatever
/// wrapped in between.
pub proof fn lemma_wrap32_undo(s: i32, p: int)
    ensures
        wrap32(wrap32(s - p) + p) == s,
{
    lemma_wrap32_add(s - p, p);
}

/// Dividing twice is dividing by the product.
pub proof fn lemma_div_div(x: int, c: int, d: int)
    requires
        c > 0,
        d > 0,
    ensures
        c * d > 0,
        x / c / d == x / (c * d),
{
    let q = (x / c) / d;
    let r = (x / c) % d;
    lemma_fundamental_div_mod(x, c);
    lemma_fundamental_div_mod(x / c, d);
    lemma_mod_bound(x, c);
    lemma_mod_bound(x / c, d);
    assert(x == q * (c * d) + (c * r + x % c) && 0 <= c * r + x % c < c * d && c * d > 0)
        by (nonlinear_arith)
        requires
            x == c * (x / c) + x % c,
            x / c == d * q + r,
            0 <= r < d,
            0 <= x % c < c,
            c > 0,
            d > 0,
    ;
    lemma_fundamental_div_mod_converse(x, c * d, q, c * r + x % c);
}

pub proof fn lemma_pow2_monotone(a: nat, b: nat)
    requires
        a <= b,
    ensures
        0 < pow2(a) <= pow2(b),
{
    lemma_pow2_pos(a);
    if a < b {
        lemma_pow2_strictly_increases(a, b);
    }
}

/// An arithmetic right shift is floor division by a power of two.
pub proof fn lemma_i64_shr(x: i64, k: u32)
    requires
        k < 64,
    ensures
        (x >> k) as int == x as int / (pow2(k as nat) as int),
    decreases k,
{
    lemma2_to64();
    if k == 0 {
        assert(x >> 0u32 == x) by (bit_vector);
    } else {
        let j = (k - 1) as u32;
        lemma_i64_shr(x, j);
        lemma_pow2_unfold(k as nat);
        lemma_pow2_pos(j as nat);
        let y = x >> j;
        assert(y == 2 * (x >> k) + (y & 1) && 0 <= (y & 1) <= 1) by (bit_vector)
            requires
                0 < k < 64,
                j == k - 1,
                y == x >> j,
        ;
        lemma_div_div(x as int, pow2(j as nat) as int, 2);
    }
}

/// A common factor leaves the quotient and scales the remainder.
pub proof fn lemma_scaled_div_mod(v: int, p: int, m: int)
    requires
        p > 0,
        m > 0,
    ensures
        (v * m) / (p * m) == v / p,
        (v * m) % (p * m) == (v % p) * m,
{
    lemma_fundamental_div_mod(v, p);
    lemma_mod_bound(v, p);
    let q = v / p;
    let r = v % p;
    assert(v * m == q * (p * m) + r * m && 0 <= r * m < p * m) by (nonlinear_arith)
        requires
            v == p * q + r,
            0 <= r < p,
            m > 0,
    ;
    lemma_fundamental_div_mod_converse(v * m, p * m, q, r * m);
}

/// The same for 32-bit numbers.
pub proof fn lemma_i32_shr(x: i32, k: u32)
    requires
        k < 32,
    ensures
        (x >> k) as int == x as int / (pow2(k as nat) as int),
{
    lemma_i64_shr(x as i64, k);
    assert((x >> k) as i64 == (x as i64) >> k) by (bit_vector)
        requires
            k < 32,
    ;
}

/// Truncating a 64-bit number to 32 bits wraps it.
pub proof fn lemma_truncate_i64(x: i64)
    ensures
        (x as i32) == wrap32(x as int),
{
    let hi = x >> 32u32;
    assert(x == hi * 0x1_0000_0000 + (x as u32) && (x as i32) == (x as u32) as i32 && (((x as u32)
        as i32) == (x as u32) || ((x as u32) as i32) == (x as u32) - 0x1_0000_0000)) by (bit_vector)
        requires
            hi == x >> 32u32,
    ;
    let t = x as i32;
    let k = if t == (x as u32) {
        hi as int
    } else {
        hi + 1
    };
    assert(x == t + k * 0x1_0000_0000);
    lemma_wrap32_shift(t as int, k);
}

/// A left shift of a word drops what leaves the top.
pub proof fn lemma_u64_shl(x: u64, k: u64)
    requires
        k < 64,
    ensures
        (x << k) as int == (x * pow2(k as nat)) % 0x1_0000_0000_0000_0000,
    decreases k,
{
    lemma2_to64();
    let m: int = 0x1_0000_0000_0000_0000;
    if k == 0 {
        assert(x << 0u64 == x) by (bit_vector);
    } else {
        let j = (k - 1) as u64;
        lemma_u64_shl(x, j);
        lemma_pow2_unfold(k as nat);
        let y = x << j;
        assert((x << k) == (2 * y) % 0x1_0000_0000_0000_0000) by (bit_vector)
            requires
                0 < k < 64,
                j == k - 1,
                y == x << j,
        ;
        let p = pow2(j as nat) as int;
        lemma_mul_mod_noop_right(2, x * p, m);
        assert(2 * (x * p) == x * (2 * p)) by (nonlinear_arith);
    }
}

/// Masking a word keeps its low bits.
pub proof fn lemma_u64_mask(x: u64, k: u64)
    requires
        k < 64,
    ensures
        1 <= (1u64 << k),
        (1u64 << k) as int == pow2(k as nat),
        (x & (((1u64 << k) - 1) as u64)) as int == x as int % (pow2(k as nat) as int),
{
    lemma_u64_pow2_no_overflow(k as nat);
    lemma_u64_shl_is_mul(1, k);
    lemma_u64_low_bits_mask_is_mod(x, k as nat);
}

/// `2^k`.
pub fn power(k: u32) -> (r: usize)
    requires
        k <= 15,
    ensures
        r as int == pow2(k as nat),
        1 <= r <= 0x8000,
{
    proof {
        lemma2_to64();
        lemma_pow2_monotone(k as nat, 15);
        lemma_usize_pow2_no_overflow(k as nat);
        lemma_usize_shl_is_mul(1, k as usize);
    }
    1usize << k
}

/// `x / 2^k`, rounded down.
pub fn halve(x: usize, k: u32) -> (r: usize)
    requires
        k <= 15,
    ensures
        r as int == x as int / (pow2(k as nat) as int),
{
    proof {
        lemma_usize_shr_is_div(x, k as usize);
    }
    x >> k
}

/// The least number up to `n` at which `f` is smallest.
pub open spec fn argmin(f: spec_fn(int) -> int, n: nat) -> nat
    decreases n,
{
    if n == 0 {
        0
    } else {
        let m = argmin(f, (n - 1) as nat);
        if f(n as int) < f(m as int) {
            n
        } else {
            m
        }
    }
}

/// `argmin` finds the smallest value, and the least place of it.
pub proof fn lemma_argmin(f: spec_fn(int) -> int, n: nat)
    ensures
        argmin(f, n) <= n,
        forall|j: int| 0 <= j <= n ==> f(argmin(f, n) as int) <= #[trigger] f(j),
        forall|j: int| 0 <= j < argmin(f, n) ==> f(argmin(f, n) as int) < #[trigger] f(j),
    decreases n,
{
    if n > 0 {
        lemma_argmin(f, (n - 1) as nat);
    }
}

/// Nothing else is the least place of the smallest value.
pub proof fn lemma_argmin_unique(f: spec_fn(int) -> int, n: nat, m: nat)
    requires
        m <= n,
        forall|j: int| 0 <= j <= n ==> f(m as int) <= #[trigger] f(j),
        forall|j: int| 0 <= j < m ==> f(m as int) < #[trigger] f(j),
    ensures
        argmin(f, n) == m,
{
    lemma_argmin(f, n);
    let a = argmin(f, n);
    assert(f(a as int) <= f(m as int));
    assert(f(m as int) <= f(a as int));
}

} // verus!
