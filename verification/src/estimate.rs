//! Cheap estimates: the fixed predictor's order from one pass of absolute
//! residual sums, and the Rice cost behind such a sum.
use crate::arith;
use crate::predict;
use crate::predict::Predictor;
use crate::rice::RICE_KMAX;
use vstd::arithmetic::power2::*;
use vstd::prelude::*;

verus! {

/// The absolute residuals of the fixed polynomial of `order`, summed over the
/// first `n` samples.
pub open spec fn fixed_sum(s: Seq<i32>, order: nat, n: nat) -> nat
    decreases n,
{
    if n <= order {
        0
    } else {
        fixed_sum(s, order, (n - 1) as nat) + arith::abs(
            s[n - 1] - (Predictor::Fixed { order }).predict(s, n - 1),
        )
    }
}

/// The fixed orders that a block of `n` samples allows go up to this one.
pub open spec fn top_fixed_order(n: nat) -> nat {
    if n == 0 {
        0
    } else {
        arith::min(4, n - 1) as nat
    }
}

/// The fixed order with the smallest sum of absolute residuals, the lowest
/// such order.
pub open spec fn fixed_order(s: Seq<i32>) -> nat {
    arith::argmin(|order: int| fixed_sum(s, order as nat, s.len()) as int, top_fixed_order(s.len()))
}

/// The sums of every order are numbers of 64 bits.
pub open spec fn sums_fit(s: Seq<i32>) -> bool {
    forall|o: nat| o <= 4 ==> #[trigger] fixed_sum(s, o, s.len()) <= u64::MAX
}

/// The sums of fewer than 2^28 samples fit, whatever the samples are.
pub proof fn lemma_sums_fit(s: Seq<i32>)
    requires
        s.len() < 0x1000_0000,
    ensures
        sums_fit(s),
{
    assert forall|o: nat| o <= 4 implies #[trigger] fixed_sum(s, o, s.len()) <= u64::MAX by {
        lemma_fixed_sum_bound(s, o, s.len());
    }
}

/// The absolute values of a residual, summed.
pub open spec fn abs_sum(res: Seq<i32>) -> nat
    decreases res.len(),
{
    if res.len() == 0 {
        0
    } else {
        abs_sum(res.drop_last()) + arith::abs(res.last() as int)
    }
}

/// The sum of an order is the sum of its absolute residuals, for samples of up
/// to 25 bits, whose residuals do not wrap.
pub proof fn lemma_fixed_sum_residual(s: Seq<i32>, order: nat)
    requires
        order <= 4,
        order <= s.len(),
        forall|i: int| 0 <= i < s.len() ==> -0x100_0000 <= #[trigger] s[i] <= 0x100_0000,
    ensures
        fixed_sum(s, order, s.len()) == abs_sum((Predictor::Fixed { order }).residual(s)),
{
    let res = (Predictor::Fixed { order }).residual(s);
    lemma_fixed_sum_prefix(s, order, s.len());
    assert(res.take(s.len() - order) =~= res);
}

proof fn lemma_fixed_sum_prefix(s: Seq<i32>, order: nat, n: nat)
    requires
        order <= 4,
        order <= n <= s.len(),
        forall|i: int| 0 <= i < s.len() ==> -0x100_0000 <= #[trigger] s[i] <= 0x100_0000,
    ensures
        fixed_sum(s, order, n) == abs_sum(
            (Predictor::Fixed { order }).residual(s).take(n - order),
        ),
    decreases n,
{
    let res = (Predictor::Fixed { order }).residual(s);
    if n > order {
        lemma_fixed_sum_prefix(s, order, (n - 1) as nat);
        assert(res.take(n - order).drop_last() =~= res.take(n - 1 - order));
        arith::lemma_wrap32_in_range(
            s[n - 1] - (Predictor::Fixed { order }).predict(s, n - 1),
        );
    }
}

proof fn lemma_fixed_sum_grows(s: Seq<i32>, order: nat, m: nat, n: nat)
    requires
        m <= n,
    ensures
        fixed_sum(s, order, m) <= fixed_sum(s, order, n),
    decreases n,
{
    if m < n {
        lemma_fixed_sum_grows(s, order, m, (n - 1) as nat);
    }
}

pub proof fn lemma_fixed_sum_bound(s: Seq<i32>, order: nat, n: nat)
    requires
        order <= 4,
        n <= s.len(),
    ensures
        fixed_sum(s, order, n) <= n * 0x10_0000_0000,
    decreases n,
{
    if n > order {
        lemma_fixed_sum_bound(s, order, (n - 1) as nat);
    }
}

/// The absolute residual sums of the fixed orders 0 to 4, in one sweep.
pub fn fixed_sums(samples: &[i32]) -> (sums: [u64; 5])
    requires
        sums_fit(samples@),
    ensures
        forall|o: int|
            0 <= o < 5 ==> #[trigger] sums[o] == fixed_sum(samples@, o as nat, samples@.len()),
{
    let mut sums: [u64; 5] = [0u64; 5];
    let mut i: usize = 0;
    while i < samples.len()
        invariant
            i <= samples@.len(),
            sums_fit(samples@),
            forall|o: int|
                0 <= o < 5 ==> #[trigger] sums[o] == fixed_sum(samples@, o as nat, i as nat),
        decreases samples@.len() - i,
    {
        // Orders become defined at i >= order.
        let mut order: usize = 0;
        while order < 5 && order <= i
            invariant
                order <= 5,
                order <= i + 1,
                i < samples@.len(),
                sums_fit(samples@),
                forall|o: int|
                    0 <= o < order ==> #[trigger] sums[o] == fixed_sum(
                        samples@,
                        o as nat,
                        (i + 1) as nat,
                    ),
                forall|o: int|
                    order <= o < 5 ==> #[trigger] sums[o] == fixed_sum(
                        samples@,
                        o as nat,
                        i as nat,
                    ),
            decreases 5 - order,
        {
            let diff: i64 = samples[i] as i64 - predict::predict_fixed(samples, i, order);
            let size: u64 = if diff < 0 {
                (-diff) as u64
            } else {
                diff as u64
            };
            proof {
                lemma_fixed_sum_grows(
                    samples@,
                    order as nat,
                    (i + 1) as nat,
                    samples@.len(),
                );
            }
            sums[order] = sums[order] + size;
            order = order + 1;
        }
        i = i + 1;
    }
    sums
}

/// One-pass FIXED-order estimator: the chosen order and its absolute residual
/// sum.
pub fn fixed_order_estimate(samples: &[i32]) -> (r: (usize, u64))
    requires
        sums_fit(samples@),
    ensures
        r.0 == fixed_order(samples@),
        r.1 == fixed_sum(samples@, r.0 as nat, samples@.len()),
        r.0 <= 4,
        r.0 == 0 || r.0 < samples@.len(),
        r.1 <= samples@.len() * 0x10_0000_0000,
{
    let n: usize = samples.len();
    let top: usize = if n == 0 {
        0
    } else if n < 5 {
        n - 1
    } else {
        4
    };
    let sums: [u64; 5] = fixed_sums(samples);
    let ghost f = |order: int| fixed_sum(samples@, order as nat, samples@.len()) as int;
    let mut best: usize = 0;
    let mut order: usize = 1;
    while order <= top
        invariant
            1 <= order <= top + 1,
            top <= 4,
            best <= top,
            f == (|order: int| fixed_sum(samples@, order as nat, samples@.len()) as int),
            forall|o: int|
                0 <= o < 5 ==> #[trigger] sums[o] == fixed_sum(samples@, o as nat, samples@.len()),
            best == arith::argmin(f, (order - 1) as nat),
        decreases top + 1 - order,
    {
        assert(f(order as int) == sums[order as int]);
        assert(f(best as int) == sums[best as int]);
        if sums[order] < sums[best] {
            best = order;
        }
        order = order + 1;
    }
    proof {
        lemma_fixed_sum_bound(samples@, best as nat, samples@.len());
    }
    (best, sums[best])
}

/// The floor of the binary logarithm; 0 for 0.
pub open spec fn log2_floor(m: nat) -> nat
    decreases m,
{
    if m < 2 {
        0
    } else {
        1 + log2_floor(m / 2)
    }
}

/// What `cnt` numbers of total `usum` are estimated to cost with Rice
/// parameter `k`.
pub open spec fn rice_guess(usum: nat, cnt: nat, k: nat) -> nat {
    cnt * (1 + k) + usum / pow2(k)
}

/// The parameter that the mean of `cnt` numbers of total `usum` suggests.
pub open spec fn mean_k(usum: nat, cnt: nat) -> nat {
    arith::min(log2_floor(usum / cnt) as int, RICE_KMAX as int) as nat
}

/// The total of folded residuals with absolute sum `abs_sum`: twice the sum,
/// saturated at 64 bits.
pub open spec fn folded_total(abs_sum: nat) -> nat {
    arith::min(2 * abs_sum as int, u64::MAX as int) as nat
}

/// Estimated single-partition Rice cost of `cnt` residuals with absolute sum
/// `abs_sum`: the best of the parameter that the mean suggests and its
/// neighbours.
pub open spec fn rice_estimate(abs_sum: nat, cnt: nat) -> nat {
    let usum = folded_total(abs_sum);
    let k = mean_k(usum, cnt);
    let below = if k > 0 {
        rice_guess(usum, cnt, (k - 1) as nat)
    } else {
        rice_guess(usum, cnt, k)
    };
    let above = if k < RICE_KMAX {
        rice_guess(usum, cnt, k + 1)
    } else {
        rice_guess(usum, cnt, k)
    };
    if cnt == 0 {
        0
    } else {
        arith::min(
            arith::min(below as int, rice_guess(usum, cnt, k) as int),
            above as int,
        ) as nat
    }
}

/// The next power of two exceeds a number.
proof fn lemma_log2_floor(m: nat)
    ensures
        m < pow2(log2_floor(m) + 1),
    decreases m,
{
    lemma2_to64();
    if m >= 2 {
        lemma_log2_floor(m / 2);
        lemma_pow2_unfold(log2_floor(m) + 1);
    }
}

/// From just below the mean's parameter on, the quotients of the total are
/// small: four for each number, or less than 2^35 at the highest parameters.
proof fn lemma_quotient(usum: nat, cnt: nat, k: nat)
    requires
        usum <= u64::MAX,
        cnt >= 1,
        mean_k(usum, cnt) <= k + 1,
        k <= RICE_KMAX,
    ensures
        k <= 28 ==> usum / pow2(k) <= 4 * cnt,
        k >= 29 ==> usum / pow2(k) < 0x8_0000_0000,
{
    let mean = usum / cnt;
    lemma2_to64();
    lemma_pow2_pos(k);
    let p = pow2(k) as int;
    if k >= 29 {
        arith::lemma_pow2_monotone(29, k);
        assert(usum as int / p < 0x8_0000_0000) by (nonlinear_arith)
            requires
                0 <= usum <= 0xffff_ffff_ffff_ffff,
                p >= 0x2000_0000,
        ;
    } else {
        lemma_log2_floor(mean);
        arith::lemma_pow2_monotone(log2_floor(mean) + 1, k + 2);
        lemma_pow2_unfold(k + 1);
        lemma_pow2_unfold(k + 2);
        let q = usum as int / p;
        vstd::arithmetic::div_mod::lemma_fundamental_div_mod(usum as int, cnt as int);
        vstd::arithmetic::div_mod::lemma_fundamental_div_mod(usum as int, p);
        let m = mean as int;
        assert(usum < 4 * p * cnt) by (nonlinear_arith)
            requires
                usum == cnt * m + usum % cnt,
                0 <= usum % cnt < cnt,
                m + 1 <= 4 * p,
                cnt >= 1,
        ;
        assert(q <= 4 * cnt) by (nonlinear_arith)
            requires
                usum < 4 * p * cnt,
                usum == p * q + usum as int % p,
                usum as int % p >= 0,
                p >= 1,
        ;
    }
}

/// The cost with one of the parameters that are tried.
fn guess(usum: u64, cnt: u64, k: u32) -> (r: u64)
    requires
        cnt >= 1,
        33 * cnt <= u64::MAX,
        mean_k(usum as nat, cnt as nat) <= k + 1,
        k <= RICE_KMAX,
    ensures
        r == rice_guess(usum as nat, cnt as nat, k as nat),
        r <= usum + 31 * cnt,
{
    proof {
        vstd::bits::lemma_u64_shr_is_div(usum, k as u64);
        lemma_quotient(usum as nat, cnt as nat, k as nat);
        lemma_pow2_pos(k as nat);
        let p = pow2(k as nat) as int;
        assert(usum as int / p <= usum) by (nonlinear_arith)
            requires
                p >= 1,
                usum >= 0,
        ;
        assert(cnt * (1 + k) <= 31 * cnt) by (nonlinear_arith)
            requires
                k <= 30,
        ;
        if k <= 28 {
            assert(cnt * (1 + k) <= 29 * cnt) by (nonlinear_arith)
                requires
                    k <= 28,
            ;
        }
    }
    cnt * (1 + k as u64) + (usum >> k)
}

/// Estimated single-partition Rice bit cost from an absolute residual sum:
/// pick the parameter from the folded mean and price the shifted sum.
pub fn rice_bits_estimate(abs_sum: u64, cnt: u64) -> (r: u64)
    requires
        33 * cnt <= u64::MAX,
    ensures
        r == rice_estimate(abs_sum as nat, cnt as nat),
        r <= 2 * abs_sum + 31 * cnt,
{
    if cnt == 0 {
        return 0;
    }
    // A folded residual is twice its size, or one less.
    let usum: u64 = if abs_sum > u64::MAX / 2 {
        u64::MAX
    } else {
        abs_sum * 2
    };
    let mut rest: u64 = usum / cnt;
    let mut k: u32 = 0;
    while rest >= 2 && k < 30
        invariant
            k <= 30,
            log2_floor((usum / cnt) as nat) == k + log2_floor(rest as nat),
        decreases 30 - k,
    {
        rest = rest / 2;
        k = k + 1;
    }
    let mut best: u64 = guess(usum, cnt, k);
    if k > 0 {
        let below: u64 = guess(usum, cnt, k - 1);
        if below < best {
            best = below;
        }
    }
    if k < 30 {
        let above: u64 = guess(usum, cnt, k + 1);
        if above < best {
            best = above;
        }
    }
    best
}

/// One parameter more halves what is left and costs a bit for each number: the
/// step is worth it where more than two for each number are left.
proof fn lemma_guess_step(usum: nat, cnt: nat, k: nat)
    ensures
        usum / pow2(k) <= 2 * cnt ==> rice_guess(usum, cnt, k) <= rice_guess(usum, cnt, k + 1),
        usum / pow2(k) >= 2 * cnt ==> rice_guess(usum, cnt, k + 1) <= rice_guess(usum, cnt, k),
{
    lemma_pow2_pos(k);
    lemma_pow2_unfold(k + 1);
    arith::lemma_div_div(usum as int, pow2(k) as int, 2);
    assert(usum / pow2(k + 1) == usum / pow2(k) / 2);
    assert(cnt * (1 + (k + 1)) == cnt * (1 + k) + cnt) by (nonlinear_arith);
}

/// A quotient falls as the parameter rises.
proof fn lemma_quotient_falls(usum: nat, j: nat, k: nat)
    requires
        j <= k,
    ensures
        usum / pow2(k) <= usum / pow2(j),
    decreases k - j,
{
    if j < k {
        lemma_quotient_falls(usum, j, (k - 1) as nat);
        lemma_pow2_pos((k - 1) as nat);
        lemma_pow2_unfold(k);
        arith::lemma_div_div(usum as int, pow2((k - 1) as nat) as int, 2);
    }
}

/// From a parameter on that leaves two or fewer for each number, the guess only
/// rises.
proof fn lemma_guess_rises(usum: nat, cnt: nat, j: nat, k: nat)
    requires
        j <= k,
        usum / pow2(j) <= 2 * cnt,
    ensures
        rice_guess(usum, cnt, j) <= rice_guess(usum, cnt, k),
    decreases k - j,
{
    if j < k {
        lemma_guess_rises(usum, cnt, j, (k - 1) as nat);
        lemma_quotient_falls(usum, j, (k - 1) as nat);
        lemma_guess_step(usum, cnt, (k - 1) as nat);
    }
}

/// Up to a parameter that leaves two or more for each number, the guess only
/// falls.
proof fn lemma_guess_falls(usum: nat, cnt: nat, j: nat, k: nat)
    requires
        j <= k,
        usum / pow2(k) >= 2 * cnt,
    ensures
        rice_guess(usum, cnt, k + 1) <= rice_guess(usum, cnt, j),
    decreases k - j,
{
    lemma_guess_step(usum, cnt, k);
    if j < k {
        lemma_quotient_falls(usum, (k - 1) as nat, k);
        lemma_guess_falls(usum, cnt, j, (k - 1) as nat);
    }
}

/// A number reaches the power of two of its logarithm.
proof fn lemma_log2_reaches(m: nat)
    requires
        m >= 1,
    ensures
        pow2(log2_floor(m)) <= m,
    decreases m,
{
    lemma2_to64();
    if m >= 2 {
        lemma_log2_reaches(m / 2);
        lemma_pow2_unfold(log2_floor(m));
    }
}

/// What is left around the mean's parameter.
proof fn lemma_left_at_mean(usum: nat, cnt: nat)
    requires
        cnt >= 1,
    ensures
        mean_k(usum, cnt) < 30 ==> usum / pow2(mean_k(usum, cnt)) <= 2 * cnt,
        mean_k(usum, cnt) >= 1 ==> usum / pow2((mean_k(usum, cnt) - 1) as nat) >= 2 * cnt,
{
    let mean = usum / cnt;
    let k = mean_k(usum, cnt);
    let m = mean as int;
    lemma2_to64();
    lemma_pow2_pos(k);
    vstd::arithmetic::div_mod::lemma_fundamental_div_mod(usum as int, cnt as int);
    if k < 30 {
        lemma_log2_floor(mean);
        lemma_pow2_unfold(k + 1);
        let p = pow2(k) as int;
        assert(usum < 2 * p * cnt) by (nonlinear_arith)
            requires
                usum == cnt * m + usum % cnt,
                0 <= usum % cnt < cnt,
                m + 1 <= 2 * p,
                cnt >= 1,
        ;
        vstd::arithmetic::div_mod::lemma_fundamental_div_mod(usum as int, p);
        let q = usum as int / p;
        assert(q <= 2 * cnt) by (nonlinear_arith)
            requires
                usum < 2 * p * cnt,
                usum == p * q + usum as int % p,
                usum as int % p >= 0,
                p >= 1,
        ;
    }
    if k >= 1 {
        lemma_log2_reaches(mean);
        arith::lemma_pow2_monotone(k, log2_floor(mean));
        lemma_pow2_unfold(k);
        lemma_pow2_pos((k - 1) as nat);
        let p = pow2((k - 1) as nat) as int;
        assert(usum >= 2 * cnt * p) by (nonlinear_arith)
            requires
                usum == cnt * m + usum % cnt,
                0 <= usum % cnt,
                m >= 2 * p,
                cnt >= 1,
        ;
        vstd::arithmetic::div_mod::lemma_fundamental_div_mod(usum as int, p);
        let q = usum as int / p;
        assert(q >= 2 * cnt) by (nonlinear_arith)
            requires
                usum >= 2 * cnt * p,
                usum == p * q + usum as int % p,
                usum as int % p < p,
                p >= 1,
        ;
    }
}

/// The three parameters that are tried are enough: the estimate is the least
/// price of all parameters, a price being one bit and the parameter for each
/// number and the total over the parameter's power of two.
pub proof fn lemma_rice_estimate_least(abs_sum: nat, cnt: nat, k: nat)
    requires
        2 * abs_sum <= u64::MAX,
        k <= 30,
    ensures
        rice_estimate(abs_sum, cnt) <= cnt * (1 + k) + 2 * abs_sum / pow2(k),
        cnt >= 1 ==> exists|j: nat|
            j <= 30 && rice_estimate(abs_sum, cnt) == cnt * (1 + j) + 2 * abs_sum / #[trigger] pow2(
                j,
            ),
{
    let usum = 2 * abs_sum;
    let m = mean_k(usum, cnt);
    lemma_pow2_pos(k);
    if cnt == 0 {
        assert(usum as int / (pow2(k) as int) >= 0) by (nonlinear_arith)
            requires
                usum >= 0,
                pow2(k) >= 1,
        ;
    } else {
        assert(folded_total(abs_sum) == usum);
        lemma_left_at_mean(usum, cnt);
        if k >= m {
            if m < 30 {
                lemma_guess_rises(usum, cnt, m, k);
            }
        } else {
            lemma_guess_falls(usum, cnt, k, (m - 1) as nat);
        }
        assert(rice_estimate(abs_sum, cnt) <= rice_guess(usum, cnt, m));
        let e = rice_estimate(abs_sum, cnt);
        let j: nat = if e == rice_guess(usum, cnt, m) {
            m
        } else if m > 0 && e == rice_guess(usum, cnt, (m - 1) as nat) {
            (m - 1) as nat
        } else {
            m + 1
        };
        assert(j <= 30 && e == rice_guess(usum, cnt, j));
        assert(e == cnt * (1 + j) + 2 * abs_sum / pow2(j));
    }
}

} // verus!
