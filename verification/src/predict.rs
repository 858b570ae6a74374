//! The two families of predictors: FLAC's fixed polynomials and quantized
//! linear prediction. A residual is a sample minus its prediction in 32-bit
//! wrap-around arithmetic, so that adding the prediction back restores every
//! sample exactly.
use crate::arith;
use vstd::arithmetic::power2::*;
use vstd::prelude::*;

verus! {

/// The largest magnitude of a predictor coefficient.
pub const COEFF_LIMIT: i32 = 32768;

/// A predictor of a sample from the samples before it.
pub enum Predictor {
    /// The fixed polynomial of an order from 0 to 4.
    Fixed { order: nat },
    /// Integer coefficients, most recent sample first, over `2^shift`.
    Lpc { coeffs: Seq<i32>, shift: nat },
}

/// The weighted sum of the first `n` coefficients over the samples before `i`.
pub open spec fn lpc_sum(s: Seq<i32>, i: int, coeffs: Seq<i32>, n: nat) -> int
    decreases n,
{
    if n == 0 {
        0
    } else {
        lpc_sum(s, i, coeffs, (n - 1) as nat) + coeffs[n - 1] * s[i - n]
    }
}

impl Predictor {
    /// How many samples before it a prediction looks at.
    pub open spec fn order(self) -> nat {
        match self {
            Predictor::Fixed { order } => order,
            Predictor::Lpc { coeffs, shift } => coeffs.len(),
        }
    }

    /// The prediction for sample `i` of `s`.
    pub open spec fn predict(self, s: Seq<i32>, i: int) -> int {
        match self {
            Predictor::Fixed { order } => if order == 0 {
                0
            } else if order == 1 {
                s[i - 1] as int
            } else if order == 2 {
                2 * s[i - 1] - s[i - 2]
            } else if order == 3 {
                3 * s[i - 1] - 3 * s[i - 2] + s[i - 3]
            } else {
                4 * s[i - 1] - 6 * s[i - 2] + 4 * s[i - 3] - s[i - 4]
            },
            Predictor::Lpc { coeffs, shift } => lpc_sum(s, i, coeffs, coeffs.len()) / (pow2(
                shift,
            ) as int),
        }
    }

    /// What a predictor can be.
    pub open spec fn valid(self) -> bool {
        self matches Predictor::Fixed { order } ==> order <= 4
    }

    /// The residual of a block: every sample from the predictor's order on,
    /// minus its prediction.
    pub open spec fn residual(self, s: Seq<i32>) -> Seq<i32> {
        Seq::new(
            (s.len() - self.order()) as nat,
            |j: int|
                arith::wrap32(s[self.order() + j] - self.predict(s, self.order() + j)),
        )
    }

    /// The first `n` samples of a block that holds warm-up samples and then
    /// residuals, the residuals turned into samples.
    pub open spec fn restore(self, buf: Seq<i32>, n: nat) -> Seq<i32>
        decreases n,
    {
        if n <= self.order() {
            buf.take(n as int)
        } else {
            let before = self.restore(buf, (n - 1) as nat);
            before.push(arith::wrap32(buf[n - 1] + self.predict(before, n - 1)))
        }
    }
}

/// A sum of products looks at the samples before `i` alone.
pub proof fn lemma_lpc_sum_prefix(s: Seq<i32>, t: Seq<i32>, i: int, coeffs: Seq<i32>, n: nat)
    requires
        n <= i <= s.len(),
        i <= t.len(),
        forall|j: int| 0 <= j < i ==> s[j] == t[j],
    ensures
        lpc_sum(s, i, coeffs, n) == lpc_sum(t, i, coeffs, n),
    decreases n,
{
    if n > 0 {
        lemma_lpc_sum_prefix(s, t, i, coeffs, (n - 1) as nat);
    }
}

/// A prediction looks at the samples before `i` alone.
pub proof fn lemma_predict_prefix(pr: Predictor, s: Seq<i32>, t: Seq<i32>, i: int)
    requires
        pr.valid(),
        pr.order() <= i <= s.len(),
        i <= t.len(),
        forall|j: int| 0 <= j < i ==> s[j] == t[j],
    ensures
        pr.predict(s, i) == pr.predict(t, i),
{
    match pr {
        Predictor::Fixed { order } => {},
        Predictor::Lpc { coeffs, shift } => {
            lemma_lpc_sum_prefix(s, t, i, coeffs, coeffs.len());
        },
    }
}

pub proof fn lemma_restore_len(pr: Predictor, buf: Seq<i32>, n: nat)
    requires
        n <= buf.len(),
    ensures
        pr.restore(buf, n).len() == n,
    decreases n,
{
    if n > pr.order() {
        lemma_restore_len(pr, buf, (n - 1) as nat);
    }
}

/// Prediction is lossless: a block's warm-up samples followed by its residual
/// restore to the block, for every predictor and every block.
pub proof fn lemma_residual_restores(pr: Predictor, s: Seq<i32>)
    requires
        pr.valid(),
        pr.order() <= s.len(),
    ensures
        pr.restore(s.take(pr.order() as int) + pr.residual(s), s.len()) == s,
{
    lemma_residual_restores_prefix(pr, s, s.len());
    assert(s.take(s.len() as int) =~= s);
}

proof fn lemma_residual_restores_prefix(pr: Predictor, s: Seq<i32>, n: nat)
    requires
        pr.valid(),
        pr.order() <= s.len(),
        n <= s.len(),
    ensures
        pr.restore(s.take(pr.order() as int) + pr.residual(s), n) == s.take(n as int),
    decreases n,
{
    let buf = s.take(pr.order() as int) + pr.residual(s);
    if n <= pr.order() {
        assert(buf.take(n as int) =~= s.take(n as int));
    } else {
        lemma_residual_restores_prefix(pr, s, (n - 1) as nat);
        let before = s.take(n - 1);
        lemma_predict_prefix(pr, s, before, n - 1);
        arith::lemma_wrap32_undo(s[n - 1], pr.predict(s, n - 1));
        assert(buf[n - 1] == pr.residual(s)[n - 1 - pr.order()]);
        assert(before.push(s[n - 1]) =~= s.take(n as int));
    }
}

/// Every coefficient is within the limit.
pub open spec fn bounded(coeffs: Seq<i32>) -> bool {
    forall|j: int| 0 <= j < coeffs.len() ==> -COEFF_LIMIT <= #[trigger] coeffs[j] <= COEFF_LIMIT
}

/// The prediction of the fixed polynomial of `order` for sample `i`.
pub fn predict_fixed(s: &[i32], i: usize, order: usize) -> (r: i64)
    requires
        order <= 4,
        order <= i <= s@.len(),
    ensures
        r as int == (Predictor::Fixed { order: order as nat }).predict(s@, i as int),
        -0x8_0000_0000 <= r <= 0x8_0000_0000,
{
    if order == 0 {
        0
    } else if order == 1 {
        s[i - 1] as i64
    } else if order == 2 {
        2 * s[i - 1] as i64 - s[i - 2] as i64
    } else if order == 3 {
        3 * s[i - 1] as i64 - 3 * s[i - 2] as i64 + s[i - 3] as i64
    } else {
        4 * s[i - 1] as i64 - 6 * s[i - 2] as i64 + 4 * s[i - 3] as i64 - s[i - 4] as i64
    }
}

/// The prediction of quantized coefficients for sample `i`.
pub fn predict_lpc(s: &[i32], i: usize, coeffs: &[i32], shift: u32) -> (r: i64)
    requires
        coeffs@.len() <= 32,
        bounded(coeffs@),
        coeffs@.len() <= i <= s@.len(),
        shift < 32,
    ensures
        r as int == (Predictor::Lpc { coeffs: coeffs@, shift: shift as nat }).predict(
            s@,
            i as int,
        ),
        -0x10_0000_0000_0000 <= r <= 0x10_0000_0000_0000,
{
    let mut sum: i64 = 0;
    let mut j: usize = 0;
    while j < coeffs.len()
        invariant
            j <= coeffs@.len() <= 32,
            bounded(coeffs@),
            coeffs@.len() <= i <= s@.len(),
            sum == lpc_sum(s@, i as int, coeffs@, j as nat),
            -(j * 0x4000_0000_0000) <= sum <= j * 0x4000_0000_0000,
        decreases coeffs@.len() - j,
    {
        let c: i64 = coeffs[j] as i64;
        let x: i64 = s[i - 1 - j] as i64;
        assert(-0x4000_0000_0000 <= c * x <= 0x4000_0000_0000) by (nonlinear_arith)
            requires
                -0x8000 <= c <= 0x8000,
                -0x8000_0000 <= x <= 0x7fff_ffff,
        ;
        sum = sum + c * x;
        j = j + 1;
    }
    proof {
        arith::lemma_i64_shr(sum, shift);
        lemma_pow2_pos(shift as nat);
        let p = pow2(shift as nat) as int;
        let q = sum as int / p;
        assert(-0x10_0000_0000_0000 <= q <= 0x10_0000_0000_0000) by (nonlinear_arith)
            requires
                p > 0,
                q == sum as int / p,
                -0x8_0000_0000_0000 <= sum <= 0x8_0000_0000_0000,
        ;
    }
    sum >> shift
}

/// The residual of one fixed order.
pub fn fixed_residual(samples: &[i32], order: usize) -> (res: Vec<i32>)
    requires
        order <= 4,
        order <= samples@.len(),
    ensures
        res@ == (Predictor::Fixed { order: order as nat }).residual(samples@),
{
    let ghost pr = Predictor::Fixed { order: order as nat };
    let mut res: Vec<i32> = Vec::with_capacity(samples.len() - order);
    let mut i: usize = order;
    while i < samples.len()
        invariant
            order <= 4,
            pr == (Predictor::Fixed { order: order as nat }),
            order <= i <= samples@.len(),
            res@ == pr.residual(samples@).take(i - order),
        decreases samples@.len() - i,
    {
        let p: i64 = predict_fixed(samples, i, order);
        proof {
            arith::lemma_truncate_i64((samples@[i as int] - p) as i64);
        }
        res.push((samples[i] as i64 - p) as i32);
        i = i + 1;
        assert(res@ =~= pr.residual(samples@).take(i - order));
    }
    assert(res@ =~= pr.residual(samples@));
    res
}

/// The residual of quantized linear prediction — exact arithmetic that the
/// decoder inverts.
pub fn lpc_residual(samples: &[i32], coeffs: &[i32], shift: u32) -> (res: Vec<i32>)
    requires
        coeffs@.len() <= 32,
        bounded(coeffs@),
        coeffs@.len() <= samples@.len(),
        shift < 32,
    ensures
        res@ == (Predictor::Lpc { coeffs: coeffs@, shift: shift as nat }).residual(samples@),
{
    let order: usize = coeffs.len();
    let ghost pr = Predictor::Lpc { coeffs: coeffs@, shift: shift as nat };
    let mut res: Vec<i32> = Vec::with_capacity(samples.len() - order);
    let mut i: usize = order;
    while i < samples.len()
        invariant
            order == coeffs@.len() <= 32,
            bounded(coeffs@),
            shift < 32,
            pr == (Predictor::Lpc { coeffs: coeffs@, shift: shift as nat }),
            order <= i <= samples@.len(),
            res@ == pr.residual(samples@).take(i - order),
        decreases samples@.len() - i,
    {
        let p: i64 = predict_lpc(samples, i, coeffs, shift);
        proof {
            arith::lemma_truncate_i64((samples@[i as int] - p) as i64);
        }
        res.push((samples[i] as i64 - p) as i32);
        i = i + 1;
        assert(res@ =~= pr.residual(samples@).take(i - order));
    }
    assert(res@ =~= pr.residual(samples@));
    res
}

/// Invert the fixed polynomial of `order` in place: what stands after the
/// warm-up is residuals on entry and samples on return.
pub fn restore_fixed(buf: &mut Vec<i32>, order: usize)
    requires
        order <= 4,
    ensures
        final(buf)@ == (Predictor::Fixed { order: order as nat }).restore(
            old(buf)@,
            old(buf)@.len(),
        ),
{
    let ghost pr = Predictor::Fixed { order: order as nat };
    let ghost raw = buf@;
    if buf.len() <= order {
        assert(raw.take(raw.len() as int) =~= raw);
        return;
    }
    let mut i: usize = order;
    assert(buf@ =~= raw.take(i as int) + raw.skip(i as int));
    while i < buf.len()
        invariant
            order <= 4,
            pr == (Predictor::Fixed { order: order as nat }),
            order <= i <= buf@.len(),
            buf@.len() == raw.len(),
            buf@ == pr.restore(raw, i as nat) + raw.skip(i as int),
        decreases buf@.len() - i,
    {
        let p: i64 = predict_fixed(buf.as_slice(), i, order);
        proof {
            let before = pr.restore(raw, i as nat);
            lemma_restore_len(pr, raw, i as nat);
            lemma_predict_prefix(pr, buf@, before, i as int);
            arith::lemma_truncate_i64((buf@[i as int] + p) as i64);
        }
        let v: i32 = (buf[i] as i64 + p) as i32;
        buf[i] = v;
        i = i + 1;
        assert(buf@ =~= pr.restore(raw, i as nat) + raw.skip(i as int));
    }
    assert(buf@ =~= pr.restore(raw, raw.len()));
}

/// Invert quantized linear prediction in place.
pub fn restore_lpc(buf: &mut Vec<i32>, coeffs: &[i32], shift: u32)
    requires
        coeffs@.len() <= 32,
        bounded(coeffs@),
        shift < 32,
    ensures
        final(buf)@ == (Predictor::Lpc { coeffs: coeffs@, shift: shift as nat }).restore(
            old(buf)@,
            old(buf)@.len(),
        ),
{
    let order: usize = coeffs.len();
    let ghost pr = Predictor::Lpc { coeffs: coeffs@, shift: shift as nat };
    let ghost raw = buf@;
    if buf.len() <= order {
        assert(raw.take(raw.len() as int) =~= raw);
        return;
    }
    let mut i: usize = order;
    assert(buf@ =~= raw.take(i as int) + raw.skip(i as int));
    while i < buf.len()
        invariant
            order == coeffs@.len() <= 32,
            bounded(coeffs@),
            shift < 32,
            pr == (Predictor::Lpc { coeffs: coeffs@, shift: shift as nat }),
            order <= i <= buf@.len(),
            buf@.len() == raw.len(),
            buf@ == pr.restore(raw, i as nat) + raw.skip(i as int),
        decreases buf@.len() - i,
    {
        let p: i64 = predict_lpc(buf.as_slice(), i, coeffs, shift);
        proof {
            let before = pr.restore(raw, i as nat);
            lemma_restore_len(pr, raw, i as nat);
            lemma_predict_prefix(pr, buf@, before, i as int);
            arith::lemma_truncate_i64((buf@[i as int] + p) as i64);
        }
        let v: i32 = (buf[i] as i64 + p) as i32;
        buf[i] = v;
        i = i + 1;
        assert(buf@ =~= pr.restore(raw, i as nat) + raw.skip(i as int));
    }
    assert(buf@ =~= pr.restore(raw, raw.len()));
}

/// What the fixed polynomials are: order 0 leaves the samples themselves, and
/// every order leaves the differences of what the order below it leaves.
pub proof fn lemma_fixed_differences(s: Seq<i32>, order: nat, i: int)
    requires
        order < 4,
        order < i < s.len(),
    ensures
        ({
            let lower = Predictor::Fixed { order };
            let upper = Predictor::Fixed { order: order + 1 };
            s[i] - upper.predict(s, i) == (s[i] - lower.predict(s, i)) - (s[i - 1] - lower.predict(
                s,
                i - 1,
            ))
        }),
        (Predictor::Fixed { order: 0 }).predict(s, i) == 0,
{
}

/// What a linear predictor is: no coefficients weigh nothing, one more
/// coefficient weighs the sample one further back, and the prediction is the
/// largest number whose multiple by the power of two is within the sum.
pub proof fn lemma_linear_prediction(s: Seq<i32>, i: int, coeffs: Seq<i32>, next: i32, shift: nat)
    requires
        coeffs.len() < i <= s.len(),
    ensures
        ({
            let shorter = lpc_sum(s, i, coeffs, coeffs.len());
            let longer = coeffs.push(next);
            let sum = lpc_sum(s, i, longer, longer.len());
            let p = (Predictor::Lpc { coeffs: longer, shift }).predict(s, i);
            &&& lpc_sum(s, i, Seq::<i32>::empty(), 0) == 0
            &&& sum == shorter + next * s[i - 1 - coeffs.len()]
            &&& p * pow2(shift) <= sum < (p + 1) * pow2(shift)
        }),
{
    let longer = coeffs.push(next);
    lemma_lpc_sum_coeffs(s, i, coeffs, longer, coeffs.len());
    let sum = lpc_sum(s, i, longer, longer.len());
    lemma_pow2_pos(shift);
    let m = pow2(shift) as int;
    vstd::arithmetic::div_mod::lemma_fundamental_div_mod(sum, m);
    let p = sum / m;
    assert(p * m <= sum < (p + 1) * m) by (nonlinear_arith)
        requires
            sum == m * p + sum % m,
            0 <= sum % m < m,
    ;
}

/// A sum of products looks at its first coefficients alone.
proof fn lemma_lpc_sum_coeffs(s: Seq<i32>, i: int, c: Seq<i32>, d: Seq<i32>, n: nat)
    requires
        n <= c.len(),
        n <= d.len(),
        forall|j: int| 0 <= j < n ==> c[j] == d[j],
    ensures
        lpc_sum(s, i, c, n) == lpc_sum(s, i, d, n),
    decreases n,
{
    if n > 0 {
        lemma_lpc_sum_coeffs(s, i, c, d, (n - 1) as nat);
    }
}

/// A residual is what the prediction misses, wherever that is a number of 32
/// bits.
pub proof fn lemma_residual_at(pr: Predictor, s: Seq<i32>, j: int)
    requires
        0 <= j < s.len() - pr.order(),
        i32::MIN <= s[pr.order() + j] - pr.predict(s, pr.order() + j) <= i32::MAX,
    ensures
        pr.residual(s).len() == s.len() - pr.order(),
        pr.predict(s, pr.order() + j) + pr.residual(s)[j] == s[pr.order() + j],
{
    arith::lemma_wrap32_in_range(s[pr.order() + j] - pr.predict(s, pr.order() + j));
}

} // verus!
