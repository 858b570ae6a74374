//! Rice coding of residuals: zigzag folding, single codes, and the exact cost
//! of every parameter.
use crate::arith;
use crate::bitio::BitWriter;
use crate::bits;
use vstd::arithmetic::div_mod::*;
use vstd::arithmetic::mul::*;
use vstd::arithmetic::power2::*;
use vstd::bits::*;
use vstd::prelude::*;

verus! {

/// The largest Rice parameter. Method 0 (4-bit parameters) goes to 14; method
/// 1 (Rice2, 5-bit parameters) to 30, for high-entropy 24-bit residuals.
pub const RICE_KMAX: usize = 30;

/// The largest parameter of method 0. 15 and 31 are the escape codes and are
/// never written.
pub const RICE_KMAX_M0: usize = 14;

// ---------------------------------------------------------------------------
// Model
// ---------------------------------------------------------------------------
/// A signed residual folded to the unsigned number that is Rice-coded.
pub open spec fn fold(v: int) -> nat {
    if v >= 0 {
        (2 * v) as nat
    } else {
        (-2 * v - 1) as nat
    }
}

/// The inverse of `fold`.
pub open spec fn unfold(u: int) -> int {
    if u % 2 == 0 {
        u / 2
    } else {
        -(u / 2) - 1
    }
}

/// The Rice code of one residual: quotient in unary, then `k` low bits.
pub open spec fn rice_code(v: int, k: nat) -> Seq<bool> {
    bits::zeros(fold(v) / pow2(k)) + seq![true] + bits::field(fold(v) as int, k)
}

/// The Rice codes of a run of residuals.
pub open spec fn rice_codes(res: Seq<i32>, k: nat) -> Seq<bool>
    decreases res.len(),
{
    if res.len() == 0 {
        Seq::empty()
    } else {
        rice_codes(res.drop_last(), k) + rice_code(res.last() as int, k)
    }
}

/// The sum of the unary quotients of a run at parameter `k`.
pub open spec fn rice_sum(res: Seq<i32>, k: nat) -> nat
    decreases res.len(),
{
    if res.len() == 0 {
        0
    } else {
        rice_sum(res.drop_last(), k) + fold(res.last() as int) / pow2(k)
    }
}

/// The bits that the Rice codes of a run take at parameter `k`.
pub open spec fn rice_cost(res: Seq<i32>, k: nat) -> nat {
    rice_sum(res, k) + res.len() * (1 + k)
}

/// The cheapest parameter up to `kmax` for a run, the lowest one on ties.
pub open spec fn best_k(res: Seq<i32>, kmax: nat) -> nat {
    arith::argmin(|k: int| rice_cost(res, k as nat) as int, kmax)
}

/// The largest parameter of a coding method.
pub open spec fn kmax_of(method: nat) -> nat {
    if method == 0 {
        14
    } else {
        30
    }
}

// ---------------------------------------------------------------------------
// Folding and single codes
// ---------------------------------------------------------------------------
/// Folding is undone exactly.
pub proof fn lemma_fold_unfold(v: int)
    ensures
        unfold(fold(v) as int) == v,
{
}

pub proof fn lemma_fold_bound(v: i32)
    ensures
        fold(v as int) <= u32::MAX,
{
}

/// Zigzag-fold a signed residual to the unsigned number that is Rice-coded.
pub fn zigzag(v: i32) -> (r: u32)
    ensures
        r == fold(v as int),
{
    let r: u32 = ((v as u32) << 1) ^ ((v >> 31) as u32);
    assert((v >= 0 ==> r == 2 * v) && (v < 0 ==> r == -2 * v - 1)) by (bit_vector)
        requires
            r == ((v as u32) << 1) ^ ((v >> 31) as u32),
    ;
    r
}

/// Undo `zigzag`.
pub fn unzigzag(u: u32) -> (r: i32)
    ensures
        r == unfold(u as int),
{
    if u % 2 == 0 {
        (u / 2) as i32
    } else {
        -((u / 2) as i32) - 1
    }
}

/// Rice-code one residual: quotient in unary, then the low `k` bits. A short
/// quotient goes out in one piece with the stop bit and the low bits.
pub fn write_rice(bw: &mut BitWriter, v: i32, k: u32)
    requires
        old(bw).wf(),
        k <= 30,
    ensures
        final(bw).wf(),
        final(bw)@ == old(bw)@ + rice_code(v as int, k as nat),
{
    broadcast use bits::group_bits_len;

    let u: u32 = zigzag(v);
    proof {
        lemma2_to64();
        lemma_u32_shr_is_div(u, k);
        arith::lemma_u64_mask(u as u64, k as u64);
        lemma_pow2_pos(k as nat);
        lemma_mod_bound(u as int, pow2(k as nat) as int);
        lemma_mod_twice(u as int, pow2(k as nat) as int);
        arith::lemma_pow2_monotone(k as nat, 30);
        bits::lemma_field_congruent(
            u as int,
            (u as int) % (pow2(k as nat) as int),
            k as nat,
        );
    }
    let q: u32 = u >> k;
    let low: u64 = (u as u64) & ((1u64 << k) - 1);
    let ghost f = bits::field(u as int, k as nat);
    proof {
        reveal_with_fuel(bits::field, 2);
        assert(bits::field(1, 1) =~= seq![true]);
    }
    if q as u64 + 1 + k as u64 <= 56 {
        proof {
            let m = (pow2(k as nat) + low) as int;
            lemma_pow2_unfold((1 + k) as nat);
            bits::lemma_field_join(1, low as int, 1, k as nat);
            bits::lemma_field_join(0, m, q as nat, (1 + k) as nat);
            bits::lemma_field_zero(q as nat);
            assert(bits::field(m, (q + (1 + k)) as nat) =~= rice_code(v as int, k as nat));
        }
        bw.write_bits((1u64 << k) + low, q + 1 + k);
    } else {
        let ghost start = bw@;
        bw.write_zeros(q);
        bw.write_bits(1, 1);
        bw.write_bits(low, k);
        assert(bw@ =~= start + rice_code(v as int, k as nat));
    }
}

// ---------------------------------------------------------------------------
// Costs
// ---------------------------------------------------------------------------
/// A Rice cost is the exact length of the codes.
pub proof fn lemma_rice_cost_exact(res: Seq<i32>, k: nat)
    ensures
        rice_codes(res, k).len() == rice_cost(res, k),
    decreases res.len(),
{
    broadcast use bits::group_bits_len;

    lemma_pow2_pos(k);
    if res.len() > 0 {
        lemma_rice_cost_exact(res.drop_last(), k);
        let n = res.len();
        let m = res.drop_last().len();
        assert(m * (1 + k) + (1 + k) == n * (1 + k)) by (nonlinear_arith)
            requires
                m + 1 == n,
        ;
        assert(rice_code(res.last() as int, k).len() == fold(res.last() as int) / pow2(k) + 1 + k);
    }
}

pub proof fn lemma_rice_sum_concat(a: Seq<i32>, b: Seq<i32>, k: nat)
    ensures
        rice_sum(a + b, k) == rice_sum(a, k) + rice_sum(b, k),
    decreases b.len(),
{
    lemma_pow2_pos(k);
    if b.len() == 0 {
        assert(a + b =~= a);
    } else {
        lemma_rice_sum_concat(a, b.drop_last(), k);
        assert((a + b).drop_last() =~= a + b.drop_last());
        assert((a + b).last() == b.last());
    }
}

pub proof fn lemma_rice_sum_bound(res: Seq<i32>, k: nat)
    ensures
        rice_sum(res, k) <= res.len() * 0xffff_ffff,
    decreases res.len(),
{
    if res.len() > 0 {
        lemma_rice_sum_bound(res.drop_last(), k);
        lemma_fold_bound(res.last());
        lemma_pow2_pos(k);
        lemma_div_nonincreasing(fold(res.last() as int) as int, pow2(k) as int);
    }
}

/// No part of a run has a larger quotient sum than the whole run at parameter 0.
proof fn lemma_rice_sum_part(res: Seq<i32>, n: int, k: nat)
    requires
        0 <= n <= res.len(),
    ensures
        rice_sum(res.take(n), k) <= rice_sum(res, 0),
{
    lemma_rice_sum_falls(res.take(n), k);
    lemma_rice_sum_concat(res.take(n), res.skip(n), 0);
    assert(res.take(n) + res.skip(n) =~= res);
}

proof fn lemma_rice_sum_falls(res: Seq<i32>, k: nat)
    ensures
        rice_sum(res, k) <= rice_sum(res, 0),
    decreases res.len(),
{
    if res.len() > 0 {
        lemma_rice_sum_falls(res.drop_last(), k);
        lemma2_to64();
        lemma_pow2_pos(k);
        lemma_div_nonincreasing(fold(res.last() as int) as int, pow2(k) as int);
    }
}

/// The quotient sums fall ever more slowly as the parameter grows.
pub proof fn lemma_rice_sum_convex(res: Seq<i32>, k: nat)
    ensures
        rice_sum(res, k) >= rice_sum(res, k + 1),
        rice_sum(res, k) - rice_sum(res, k + 1) >= rice_sum(res, k + 1) - rice_sum(res, k + 2),
    decreases res.len(),
{
    if res.len() > 0 {
        lemma_rice_sum_convex(res.drop_last(), k);
        let u = fold(res.last() as int) as int;
        lemma_pow2_pos(k);
        lemma_pow2_unfold(k + 1);
        lemma_pow2_unfold(k + 2);
        arith::lemma_div_div(u, pow2(k) as int, 2);
        arith::lemma_div_div(u, pow2(k + 1) as int, 2);
    }
}

/// The quotient sums of a run for every parameter: `sums[k]` is the sum of the
/// folded residuals shifted down by `k`. One pass gives every parameter's
/// exact cost.
pub fn rice_sums(res: &[i32]) -> (sums: [u64; 31])
    requires
        rice_sum(res@, 0) <= u64::MAX,
    ensures
        forall|k: int| 0 <= k < 31 ==> #[trigger] sums[k] == rice_sum(res@, k as nat),
{
    let mut sums = [0u64; 31];
    let mut i: usize = 0;
    while i < res.len()
        invariant
            i <= res@.len(),
            rice_sum(res@, 0) <= u64::MAX,
            forall|k: int|
                0 <= k < 31 ==> #[trigger] sums[k] == rice_sum(res@.take(i as int), k as nat),
        decreases res@.len() - i,
    {
        let ghost seen = res@.take(i as int);
        let ghost more = res@.take(i + 1);
        assert(more.drop_last() =~= seen);
        let u: u32 = zigzag(res[i]);
        let mut rest: u32 = u;
        let mut k: usize = 0;
        proof {
            lemma2_to64();
        }
        while k < 31 && rest > 0
            invariant
                k <= 31,
                i < res@.len(),
                rice_sum(res@, 0) <= u64::MAX,
                seen == res@.take(i as int),
                more == res@.take(i + 1),
                more.drop_last() == seen,
                u == fold(res@[i as int] as int),
                rest == u as nat / pow2(k as nat),
                forall|j: int| 0 <= j < k ==> #[trigger] sums[j] == rice_sum(more, j as nat),
                forall|j: int| k <= j < 31 ==> #[trigger] sums[j] == rice_sum(seen, j as nat),
            decreases 31 - k,
        {
            proof {
                lemma_rice_sum_part(res@, i + 1, k as nat);
                lemma_pow2_pos(k as nat);
                lemma_pow2_unfold((k + 1) as nat);
                arith::lemma_div_div(u as int, pow2(k as nat) as int, 2);
            }
            sums[k] = sums[k] + rest as u64;
            rest = rest / 2;
            k = k + 1;
        }
        proof {
            assert forall|j: int| 0 <= j < 31 implies #[trigger] sums[j] == rice_sum(
                more,
                j as nat,
            ) by {
                if j >= k {
                    lemma_pow2_pos(k as nat);
                    lemma_pow2_pos(j as nat);
                    arith::lemma_pow2_monotone(k as nat, j as nat);
                    lemma_small_div_converse(u as int, pow2(k as nat) as int);
                    lemma_basic_div(u as int, pow2(j as nat) as int);
                }
            }
        }
        i = i + 1;
    }
    assert(res@.take(i as int) =~= res@);
    sums
}

/// The quotient sums of two neighbouring runs together.
pub fn merge_sums(a: &[u64; 31], b: &[u64; 31]) -> (sums: [u64; 31])
    requires
        forall|k: int| 0 <= k < 31 ==> #[trigger] a[k] + b[k] <= u64::MAX,
    ensures
        forall|k: int| 0 <= k < 31 ==> #[trigger] sums[k] == a[k] + b[k],
{
    let mut sums = [0u64; 31];
    let mut k: usize = 0;
    while k < 31
        invariant
            k <= 31,
            forall|j: int| 0 <= j < 31 ==> #[trigger] a[j] + b[j] <= u64::MAX,
            forall|j: int| 0 <= j < k ==> #[trigger] sums[j] == a[j] + b[j],
        decreases 31 - k,
    {
        assert(a[k as int] + b[k as int] <= u64::MAX);
        sums[k] = a[k] + b[k];
        k = k + 1;
    }
    sums
}

/// The cost of parameter `k` given quotient sums and a count.
pub open spec fn cost_from(sums: [u64; 31], cnt: u64, k: int) -> int {
    sums[k] + cnt * (1 + k)
}

/// The step after `k` falls no further than the step at `k`.
pub open spec fn slows(sums: [u64; 31], k: int) -> bool {
    sums[k] - sums[k + 1] >= sums[k + 1] - sums[k + 2]
}

/// The sums fall ever more slowly.
pub open spec fn convex(sums: [u64; 31]) -> bool {
    forall|k: int| 0 <= k < 29 ==> #[trigger] slows(sums, k)
}

/// Past the first rise the cost of a convex sequence only grows.
proof fn lemma_cost_rises(sums: [u64; 31], cnt: u64, k: int, j: int)
    requires
        convex(sums),
        1 <= k <= j <= 30,
        cost_from(sums, cnt, k) >= cost_from(sums, cnt, k - 1),
    ensures
        cost_from(sums, cnt, j) >= cost_from(sums, cnt, j - 1),
        cost_from(sums, cnt, j) >= cost_from(sums, cnt, k - 1),
    decreases j - k,
{
    if k < j {
        lemma_cost_rises(sums, cnt, k, j - 1);
        assert(slows(sums, j - 2));
        let c = cnt as int;
        assert(c * (1 + j) - c * j == c && c * (1 + (j - 1)) - c * (1 + (j - 2)) == c)
            by (nonlinear_arith);
        assert(1 + (j - 1) == j);
    }
}

/// Best Rice parameter in `0..=kmax` (the lowest on ties) and its exact body
/// cost, from quotient sums. The cost is convex in `k`, so that the scan stops
/// at the first rise.
pub fn best_k_from_sums(sums: &[u64; 31], cnt: u64, kmax: usize) -> (r: (u32, u64))
    requires
        kmax <= 30,
        convex(*sums),
        forall|k: int| 0 <= k < 31 ==> #[trigger] sums[k] + 31 * cnt <= u64::MAX,
    ensures
        r.0 == arith::argmin(|k: int| cost_from(*sums, cnt, k), kmax as nat),
        r.1 == cost_from(*sums, cnt, r.0 as int),
        r.0 <= kmax,
{
    let ghost f = |k: int| cost_from(*sums, cnt, k);
    let mut best_k: u32 = 0;
    assert(sums[0] + 31 * cnt <= u64::MAX);
    let mut best: u64 = sums[0] + cnt;
    let mut k: usize = 1;
    let mut rising: bool = false;
    assert(best == f(0));
    while k <= kmax && !rising
        invariant
            kmax <= 30,
            1 <= k <= kmax + 1,
            convex(*sums),
            forall|k: int| 0 <= k < 31 ==> #[trigger] sums[k] + 31 * cnt <= u64::MAX,
            f == (|k: int| cost_from(*sums, cnt, k)),
            best_k <= kmax,
            best == f(best_k as int),
            forall|j: int| 0 <= j < best_k ==> f(best_k as int) < #[trigger] f(j),
            !rising ==> best_k == k - 1,
            rising ==> best_k == k - 2 && f(k - 1) >= f(k - 2),
        decreases kmax + 1 - k,
    {
        assert(cnt * (1 + k) <= 31 * cnt) by (nonlinear_arith)
            requires
                k <= 30,
        ;
        assert(sums[k as int] + 31 * cnt <= u64::MAX);
        let b: u64 = sums[k] + cnt * (1 + k as u64);
        assert(b == f(k as int));
        if b < best {
            best = b;
            best_k = k as u32;
        } else {
            rising = true;
        }
        k = k + 1;
    }
    proof {
        assert forall|j: int| 0 <= j <= kmax implies f(best_k as int) <= #[trigger] f(j) by {
            if rising && j >= k - 1 {
                lemma_cost_rises(*sums, cnt, k - 1, j);
            }
        }
        arith::lemma_argmin_unique(f, kmax as nat, best_k as nat);
    }
    (best_k, best)
}

/// A best parameter that is small enough for method 0 is method 0's best too.
pub proof fn lemma_best_k_small(res: Seq<i32>, lo: nat, hi: nat)
    requires
        lo <= hi,
        best_k(res, hi) <= lo,
    ensures
        best_k(res, lo) == best_k(res, hi),
{
    let f = |k: int| rice_cost(res, k as nat) as int;
    arith::lemma_argmin(f, hi);
    arith::lemma_argmin_unique(f, lo, best_k(res, hi));
}

/// `best_k` is the cheapest parameter up to `kmax`.
pub proof fn lemma_best_k(res: Seq<i32>, kmax: nat, k: nat)
    requires
        k <= kmax,
    ensures
        best_k(res, kmax) <= kmax,
        rice_cost(res, best_k(res, kmax)) <= rice_cost(res, k),
{
    let f = |k: int| rice_cost(res, k as nat) as int;
    arith::lemma_argmin(f, kmax);
    assert(f(best_k(res, kmax) as int) <= f(k as int));
}

/// Quotient sums of a run are convex, and the search over them finds the best
/// parameter of the run.
pub proof fn lemma_sums_of_run(sums: [u64; 31], res: Seq<i32>, kmax: nat)
    requires
        kmax <= 30,
        res.len() <= 0x1_0000,
        forall|k: int| 0 <= k < 31 ==> #[trigger] sums[k] == rice_sum(res, k as nat),
    ensures
        convex(sums),
        forall|k: int| 0 <= k < 31 ==> #[trigger] sums[k] <= 0x1_0000_0000_0000,
        arith::argmin(|k: int| cost_from(sums, res.len() as u64, k), kmax) == best_k(res, kmax),
        best_k(res, kmax) <= kmax,
        cost_from(sums, res.len() as u64, best_k(res, kmax) as int) == rice_cost(
            res,
            best_k(res, kmax),
        ),
{
    assert forall|k: int| 0 <= k < 29 implies #[trigger] slows(sums, k) by {
        lemma_rice_sum_convex(res, k as nat);
        assert(sums[k + 1] == rice_sum(res, (k + 1) as nat));
        assert(sums[k + 2] == rice_sum(res, (k + 2) as nat));
    }
    assert forall|k: int| 0 <= k < 31 implies #[trigger] sums[k] <= 0x1_0000_0000_0000 by {
        lemma_rice_sum_bound(res, k as nat);
    }
    let f = |k: int| cost_from(sums, res.len() as u64, k);
    let g = |k: int| rice_cost(res, k as nat) as int;
    assert forall|k: int| 0 <= k <= kmax implies #[trigger] f(k) == g(k) by {
        assert(sums[k] == rice_sum(res, k as nat));
    }
    arith::lemma_argmin(g, kmax);
    let m = arith::argmin(g, kmax);
    assert forall|j: int| 0 <= j <= kmax implies f(m as int) <= #[trigger] f(j) by {
        assert(g(m as int) <= g(j));
    }
    assert forall|j: int| 0 <= j < m implies f(m as int) < #[trigger] f(j) by {
        assert(g(m as int) < g(j));
    }
    arith::lemma_argmin_unique(f, kmax, m);
}

/// Folding counts 0, -1, 1, -2, 2 and so on from zero: it is one up from a
/// negative number to its opposite less one, and two up from a number to the
/// next.
pub proof fn lemma_fold_order(v: int)
    requires
        v >= 0,
    ensures
        fold(0) == 0,
        fold(-v - 1) == fold(v) + 1,
        fold(v + 1) == fold(-v - 1) + 1,
{
}

/// What a Rice code is, bit by bit: zeros, a one, and the low bits, whose
/// number is the remainder.
pub proof fn lemma_code_bits(v: int, k: nat)
    ensures
        ({
            let c = rice_code(v, k);
            let q = fold(v) / pow2(k);
            &&& c.len() == q + 1 + k
            &&& forall|i: int| 0 <= i < q ==> !#[trigger] c[i]
            &&& c[q as int]
            &&& bits::value(c.skip((q + 1) as int)) == fold(v) % pow2(k)
        }),
{
    broadcast use bits::group_bits_len;

    let c = rice_code(v, k);
    let q = fold(v) / pow2(k);
    bits::lemma_value_field(fold(v) as int, k);
    lemma_pow2_pos(k);
    assert(c.skip((q + 1) as int) =~= bits::field(fold(v) as int, k));
}

} // verus!
