//! Side channels of 32-bit stereo. The difference of two 32-bit channels has 33
//! bits, one more than a sample holds: such a subframe is decoded in 33-bit
//! wrap-around arithmetic, and the stereo mode is undone before the samples are
//! put back into 32 bits.
use crate::arith;
use crate::bitio::BitReader;
use crate::bits;
use crate::decode;
use crate::decode::DecodeError;
use crate::grammar;
use crate::grammar::HeaderModel;
use crate::predict;
use vstd::arithmetic::div_mod::*;
use vstd::arithmetic::power2::*;
use vstd::prelude::*;

verus! {

// ---------------------------------------------------------------------------
// 33-bit numbers
// ---------------------------------------------------------------------------
/// The 33-bit number congruent to `x` modulo 2^33.
pub open spec fn wrap33(x: int) -> i64 {
    (((x + 0x1_0000_0000) % 0x2_0000_0000) - 0x1_0000_0000) as i64
}

/// Every sample is a 33-bit number.
pub open spec fn fits(s: Seq<i64>) -> bool {
    forall|i: int| 0 <= i < s.len() ==> -0x1_0000_0000 <= #[trigger] s[i] < 0x1_0000_0000
}

/// Samples of 32 bits as samples of 33.
pub open spec fn widened(s: Seq<i32>) -> Seq<i64> {
    Seq::new(s.len(), |i: int| s[i] as i64)
}

/// Wrapping is blind to multiples of 2^33.
proof fn lemma_wrap33_shift(x: int, k: int)
    ensures
        wrap33(x + k * 0x2_0000_0000) == wrap33(x),
{
    lemma_mod_multiples_vanish(k, x + 0x1_0000_0000, 0x2_0000_0000);
}

/// An inner wrap in a product does not show.
proof fn lemma_wrap33_mul(x: int, m: int)
    ensures
        wrap33(wrap33(x) * m) == wrap33(x * m),
{
    let k = (x + 0x1_0000_0000) / 0x2_0000_0000;
    let y = wrap33(x) as int;
    assert(x == y + k * 0x2_0000_0000);
    assert(x * m == y * m + (k * m) * 0x2_0000_0000) by (nonlinear_arith)
        requires
            x == y + k * 0x2_0000_0000,
    ;
    lemma_wrap33_shift(y * m, k * m);
}

/// Keep the low 33 bits of a number, as two's complement.
fn keep33(x: i64) -> (r: i64)
    ensures
        r == wrap33(x as int),
        -0x1_0000_0000 <= r < 0x1_0000_0000,
{
    let low: i64 = x & 0x1_ffff_ffff;
    proof {
        let hi = x >> 33u32;
        assert(x == hi * 0x2_0000_0000 + low && 0 <= low < 0x2_0000_0000) by (bit_vector)
            requires
                hi == x >> 33u32,
                low == x & 0x1_ffff_ffff,
        ;
        lemma_wrap33_shift(low as int, hi as int);
    }
    if low >= 0x1_0000_0000 {
        low - 0x2_0000_0000
    } else {
        low
    }
}

// ---------------------------------------------------------------------------
// Prediction
// ---------------------------------------------------------------------------
/// The fixed polynomial of an order from 0 to 4 as coefficients, most recent
/// sample first.
pub open spec fn polynomial(order: nat) -> Seq<i32> {
    if order == 0 {
        seq![]
    } else if order == 1 {
        seq![1i32]
    } else if order == 2 {
        seq![2i32, (-1) as i32]
    } else if order == 3 {
        seq![3i32, (-3) as i32, 1i32]
    } else {
        seq![4i32, (-6) as i32, 4i32, (-1) as i32]
    }
}

/// The weighted sum of the first `n` coefficients over the samples before `i`.
pub open spec fn weighted(s: Seq<i64>, i: int, coeffs: Seq<i32>, n: nat) -> int
    decreases n,
{
    if n == 0 {
        0
    } else {
        weighted(s, i, coeffs, (n - 1) as nat) + coeffs[n - 1] * s[i - n]
    }
}

/// The first `n` samples of a block that holds warm-up samples and then
/// residuals, the residuals turned into samples.
pub open spec fn restored(coeffs: Seq<i32>, shift: nat, buf: Seq<i64>, n: nat) -> Seq<i64>
    decreases n,
{
    if n <= coeffs.len() {
        buf.take(n as int)
    } else {
        let before = restored(coeffs, shift, buf, (n - 1) as nat);
        before.push(
            wrap33(
                buf[n - 1] + weighted(before, n - 1, coeffs, coeffs.len()) / (pow2(shift) as int),
            ),
        )
    }
}

proof fn lemma_restored_len(coeffs: Seq<i32>, shift: nat, buf: Seq<i64>, n: nat)
    requires
        n <= buf.len(),
    ensures
        restored(coeffs, shift, buf, n).len() == n,
    decreases n,
{
    if n > coeffs.len() {
        lemma_restored_len(coeffs, shift, buf, (n - 1) as nat);
    }
}

/// A weighted sum looks at the samples before `i` alone.
pub proof fn lemma_weighted_prefix(s: Seq<i64>, t: Seq<i64>, i: int, coeffs: Seq<i32>, n: nat)
    requires
        n <= i <= s.len(),
        i <= t.len(),
        forall|j: int| 0 <= j < i ==> s[j] == t[j],
    ensures
        weighted(s, i, coeffs, n) == weighted(t, i, coeffs, n),
    decreases n,
{
    if n > 0 {
        lemma_weighted_prefix(s, t, i, coeffs, (n - 1) as nat);
    }
}

/// The coefficients of a fixed polynomial.
fn fixed_coeffs(order: usize) -> (r: Vec<i32>)
    requires
        order <= 4,
    ensures
        r@ == polynomial(order as nat),
        r@.len() == order,
        predict::bounded(r@),
{
    if order == 0 {
        Vec::new()
    } else if order == 1 {
        vec![1]
    } else if order == 2 {
        vec![2, -1]
    } else if order == 3 {
        vec![3, -3, 1]
    } else {
        vec![4, -6, 4, -1]
    }
}

/// The prediction for sample `i`.
fn predicted(s: &Vec<i64>, i: usize, coeffs: &Vec<i32>, shift: u32) -> (r: i64)
    requires
        fits(s@),
        coeffs@.len() <= 32,
        predict::bounded(coeffs@),
        coeffs@.len() <= i <= s@.len(),
        shift < 32,
    ensures
        r == weighted(s@, i as int, coeffs@, coeffs@.len()) / (pow2(shift as nat) as int),
        -0x10_0000_0000_0000 <= r <= 0x10_0000_0000_0000,
{
    let mut sum: i64 = 0;
    let mut j: usize = 0;
    while j < coeffs.len()
        invariant
            fits(s@),
            j <= coeffs@.len() <= 32,
            predict::bounded(coeffs@),
            coeffs@.len() <= i <= s@.len(),
            sum == weighted(s@, i as int, coeffs@, j as nat),
            -(j * 0x8000_0000_0000) <= sum <= j * 0x8000_0000_0000,
        decreases coeffs@.len() - j,
    {
        let c: i64 = coeffs[j] as i64;
        let x: i64 = s[i - 1 - j];
        assert(-0x8000_0000_0000 <= c * x <= 0x8000_0000_0000) by (nonlinear_arith)
            requires
                -0x8000 <= c <= 0x8000,
                -0x1_0000_0000 <= x < 0x1_0000_0000,
        ;
        sum = sum + c * x;
        j = j + 1;
    }
    proof {
        arith::lemma_i64_shr(sum, shift);
        lemma_pow2_pos(shift as nat);
        let p = pow2(shift as nat) as int;
        let q = sum as int / p;
        assert(-0x10_0000_0000_0000 <= q <= 0x10_0000_0000_0000) by (nonlinear_arith)
            requires
                p > 0,
                q == sum as int / p,
                -0x10_0000_0000_0000 <= sum <= 0x10_0000_0000_0000,
        ;
    }
    sum >> shift
}

/// Turn the residuals behind the warm-up samples into samples, in place.
fn restore(buf: &mut Vec<i64>, coeffs: &Vec<i32>, shift: u32)
    requires
        fits(old(buf)@),
        coeffs@.len() <= 32,
        coeffs@.len() <= old(buf)@.len(),
        predict::bounded(coeffs@),
        shift < 32,
    ensures
        fits(final(buf)@),
        final(buf)@ == restored(coeffs@, shift as nat, old(buf)@, old(buf)@.len()),
{
    let ghost raw = buf@;
    let mut i: usize = coeffs.len();
    assert(buf@ =~= raw.take(i as int) + raw.skip(i as int));
    while i < buf.len()
        invariant
            fits(buf@),
            fits(raw),
            coeffs@.len() <= 32,
            predict::bounded(coeffs@),
            shift < 32,
            coeffs@.len() <= i <= buf@.len(),
            buf@.len() == raw.len(),
            buf@ == restored(coeffs@, shift as nat, raw, i as nat) + raw.skip(i as int),
        decreases buf@.len() - i,
    {
        let p: i64 = predicted(buf, i, coeffs, shift);
        let ghost before = restored(coeffs@, shift as nat, raw, i as nat);
        proof {
            lemma_restored_len(coeffs@, shift as nat, raw, i as nat);
            lemma_weighted_prefix(buf@, before, i as int, coeffs@, coeffs@.len());
            assert(buf@[i as int] == raw[i as int]);
        }
        let v: i64 = keep33(buf[i] + p);
        buf.set(i, v);
        i = i + 1;
        assert(buf@ =~= restored(coeffs@, shift as nat, raw, i as nat) + raw.skip(i as int));
    }
    assert(buf@ =~= restored(coeffs@, shift as nat, raw, raw.len()));
}

// ---------------------------------------------------------------------------
// Subframes
// ---------------------------------------------------------------------------
/// `n` samples of `w` bits read at `p`.
pub open spec fn read_samples(b: Seq<bool>, p: int, w: nat, n: nat) -> Option<(Seq<i64>, int)>
    decreases n,
{
    if n == 0 {
        Some((Seq::empty(), p))
    } else {
        match read_samples(b, p, w, (n - 1) as nat) {
            None => None,
            Some((s, q)) => match bits::read_int(b, q, w) {
                None => None,
                Some((v, r)) => Some((s.push(v as i64), r)),
            },
        }
    }
}

/// A block of warm-up samples and the residual behind them, restored.
pub open spec fn read_predicted(
    b: Seq<bool>,
    p: int,
    bs: nat,
    warm: Seq<i64>,
    coeffs: Seq<i32>,
    shift: nat,
) -> Result<(Seq<i64>, int), DecodeError> {
    match grammar::read_residual(b, p, bs, warm.len()) {
        Err(e) => Err(e),
        Ok((res, r)) => Ok((restored(coeffs, shift, warm + widened(res), bs), r)),
    }
}

/// A block behind a predictor: the fixed polynomial of `order`, or quantized
/// coefficients.
pub open spec fn read_predictive(b: Seq<bool>, p: int, w: nat, bs: nat, order: nat, fixed: bool)
    -> Result<(Seq<i64>, int), DecodeError> {
    if order > bs {
        Err(
            DecodeError::BadSubframe(
                if fixed {
                    "fixed order > blocksize"
                } else {
                    "lpc order > blocksize"
                },
            ),
        )
    } else {
        match read_samples(b, p, w, order) {
            None => Err(DecodeError::Truncated),
            Some((warm, q)) => if fixed {
                read_predicted(b, q, bs, warm, polynomial(order), 0)
            } else {
                match grammar::read_predictor(b, q, order) {
                    Err(e) => Err(e),
                    Ok((coeffs, shift, q2)) => read_predicted(b, q2, bs, warm, coeffs, shift),
                }
            },
        }
    }
}

/// The subframe body behind type `ty`, at `w` bits per sample.
pub open spec fn read_body(b: Seq<bool>, p: int, ty: nat, w: nat, bs: nat) -> Result<
    (Seq<i64>, int),
    DecodeError,
> {
    if ty == 0 {
        match read_samples(b, p, w, 1) {
            None => Err(DecodeError::Truncated),
            Some((s, q)) => Ok((Seq::new(bs, |i: int| s[0]), q)),
        }
    } else if ty == 1 {
        match read_samples(b, p, w, bs) {
            None => Err(DecodeError::Truncated),
            Some(r) => Ok(r),
        }
    } else if 8 <= ty <= 12 {
        read_predictive(b, p, w, bs, (ty - 8) as nat, true)
    } else if ty >= 32 {
        read_predictive(b, p, w, bs, (ty - 31) as nat, false)
    } else {
        Err(DecodeError::BadSubframe("reserved type"))
    }
}

/// Samples with `n` zero bits put back below them.
pub open spec fn shifted_up(s: Seq<i64>, n: nat) -> Seq<i64> {
    Seq::new(s.len(), |i: int| wrap33(s[i] * pow2(n)))
}

/// A subframe of `bs` samples of 33 bits read at `p`.
#[verifier::opaque]
pub open spec fn read_subframe(b: Seq<bool>, p: int, bs: nat) -> Result<
    (Seq<i64>, int),
    DecodeError,
> {
    match grammar::read_subframe_head(b, p, 33) {
        Err(e) => Err(e),
        Ok((ty, wasted, q)) => match read_body(b, q, ty, (33 - wasted) as nat, bs) {
            Err(e) => Err(e),
            Ok((s, r)) => Ok((shifted_up(s, wasted), r)),
        },
    }
}

proof fn lemma_read_samples_pos(b: Seq<bool>, p: int, w: nat, n: nat)
    ensures
        read_samples(b, p, w, n) matches Some((s, q)) ==> s.len() == n && q >= p,
    decreases n,
{
    if n > 0 {
        lemma_read_samples_pos(b, p, w, (n - 1) as nat);
    }
}

proof fn lemma_read_samples_none(b: Seq<bool>, p: int, w: nat, m: nat, n: nat)
    requires
        m <= n,
        read_samples(b, p, w, m) is None,
    ensures
        read_samples(b, p, w, n) is None,
    decreases n - m,
{
    if m < n {
        lemma_read_samples_none(b, p, w, m, (n - 1) as nat);
    }
}

proof fn lemma_read_predicted_pos(
    b: Seq<bool>,
    p: int,
    bs: nat,
    warm: Seq<i64>,
    coeffs: Seq<i32>,
    shift: nat,
)
    requires
        p >= 0,
    ensures
        read_predicted(b, p, bs, warm, coeffs, shift) matches Ok((s, q)) ==> q >= p && s.len()
            == bs,
{
    grammar::lemma_read_residual_pos(b, p, bs, warm.len());
    if let Ok((res, r)) = grammar::read_residual(b, p, bs, warm.len()) {
        lemma_restored_len(coeffs, shift, warm + widened(res), bs);
    }
}

proof fn lemma_read_predictive_pos(
    b: Seq<bool>,
    p: int,
    w: nat,
    bs: nat,
    order: nat,
    fixed: bool,
)
    requires
        p >= 0,
    ensures
        read_predictive(b, p, w, bs, order, fixed) matches Ok((s, q)) ==> q >= p && s.len() == bs,
{
    lemma_read_samples_pos(b, p, w, order);
    if let Some((warm, q)) = read_samples(b, p, w, order) {
        grammar::lemma_read_predictor_pos(b, q, order);
        if fixed {
            lemma_read_predicted_pos(b, q, bs, warm, polynomial(order), 0);
        } else if let Ok((coeffs, shift, q2)) = grammar::read_predictor(b, q, order) {
            lemma_read_predicted_pos(b, q2, bs, warm, coeffs, shift);
        }
    }
}

/// A subframe holds a whole block.
proof fn lemma_read_subframe_pos(b: Seq<bool>, p: int, bs: nat)
    requires
        p >= 0,
    ensures
        read_subframe(b, p, bs) matches Ok((s, q)) ==> q > p && s.len() == bs,
{
    reveal(read_subframe);
    grammar::lemma_read_subframe_head_pos(b, p, 33);
    if let Ok((ty, wasted, q)) = grammar::read_subframe_head(b, p, 33) {
        let w = (33 - wasted) as nat;
        lemma_read_samples_pos(b, q, w, 1);
        lemma_read_samples_pos(b, q, w, bs);
        if 8 <= ty <= 12 {
            lemma_read_predictive_pos(b, q, w, bs, (ty - 8) as nat, true);
        } else if ty >= 32 {
            lemma_read_predictive_pos(b, q, w, bs, (ty - 31) as nat, false);
        }
    }
}

/// A sign bit and 32 more bits are a 33-bit number.
proof fn lemma_signed33(s: Seq<bool>)
    requires
        s.len() == 33,
    ensures
        bits::signed_value(s) == bits::value(s.subrange(1, 33)) - (if bits::value(s.subrange(0, 1))
            == 1 {
            0x1_0000_0000int
        } else {
            0
        }),
        bits::value(s.subrange(0, 1)) <= 1,
        bits::value(s.subrange(1, 33)) < 0x1_0000_0000,
{
    let hi = s.subrange(0, 1);
    let lo = s.subrange(1, 33);
    lemma2_to64();
    lemma2_to64_rest();
    assert(s =~= hi + lo);
    bits::lemma_value_concat(hi, lo);
    bits::lemma_value_bound(lo);
    reveal_with_fuel(bits::value, 2);
    assert(hi.drop_last() =~= Seq::<bool>::empty());
    assert(bits::value(hi) == bits::bit_val(s[0]));
    assert(bits::value(s) == bits::value(hi) * 0x1_0000_0000 + bits::value(lo));
}

/// Read a two's complement number of `w` bits.
fn read_wide(br: &mut BitReader, w: u32) -> (r: Result<i64, DecodeError>)
    requires
        old(br).wf(),
        1 <= w <= 33,
    ensures
        final(br).wf(),
        final(br).bits() == old(br).bits(),
        match bits::read_int(old(br).bits(), old(br).bit_pos(), w as nat) {
            Some((v, q)) => r matches Ok(x) && x == v && final(br).bit_pos() == q && -0x1_0000_0000
                <= x < 0x1_0000_0000,
            None => r == Err::<i64, DecodeError>(DecodeError::Truncated),
        },
{
    let ghost b = br.bits();
    let ghost p = br.bit_pos();
    proof {
        br.lemma_pos_bound();
    }
    if w <= 32 {
        return match br.read_signed(w) {
            Some(v) => Ok(v as i64),
            None => Err(DecodeError::Truncated),
        };
    }
    let sign: u32 = match decode::take_bits(br, 1) {
        Ok(v) => v,
        Err(e) => {
            return Err(e);
        },
    };
    let low: u32 = match decode::take_bits(br, 32) {
        Ok(v) => v,
        Err(e) => {
            return Err(e);
        },
    };
    proof {
        let s = b.subrange(p, p + 33);
        lemma_signed33(s);
        assert(s.subrange(0, 1) =~= b.subrange(p, p + 1));
        assert(s.subrange(1, 33) =~= b.subrange(p + 1, p + 33));
    }
    if sign == 1 {
        Ok(low as i64 - 0x1_0000_0000)
    } else {
        Ok(low as i64)
    }
}

/// Read `n` samples of `w` bits each.
fn decode_samples(br: &mut BitReader, w: u32, n: usize) -> (r: Result<Vec<i64>, DecodeError>)
    requires
        old(br).wf(),
        1 <= w <= 33,
    ensures
        final(br).wf(),
        final(br).bits() == old(br).bits(),
        match read_samples(old(br).bits(), old(br).bit_pos(), w as nat, n as nat) {
            Some((s, q)) => r matches Ok(v) && v@ == s && fits(v@) && final(br).bit_pos() == q,
            None => r == Err::<Vec<i64>, DecodeError>(DecodeError::Truncated),
        },
{
    let ghost b = br.bits();
    let ghost p = br.bit_pos();
    let mut out: Vec<i64> = Vec::new();
    let mut i: usize = 0;
    while i < n
        invariant
            i <= n,
            1 <= w <= 33,
            br.wf(),
            br.bits() == b,
            b == old(br).bits(),
            p == old(br).bit_pos(),
            fits(out@),
            read_samples(b, p, w as nat, i as nat) == Some((out@, br.bit_pos())),
        decreases n - i,
    {
        match read_wide(br, w) {
            Ok(v) => {
                out.push(v);
            },
            Err(e) => {
                proof {
                    lemma_read_samples_none(b, p, w as nat, (i + 1) as nat, n as nat);
                }
                return Err(e);
            },
        }
        i = i + 1;
    }
    Ok(out)
}

/// Read a residual behind warm-up samples and restore the block.
fn decode_predicted(
    br: &mut BitReader,
    bs: usize,
    warm: Vec<i64>,
    coeffs: &Vec<i32>,
    shift: u32,
) -> (r: Result<Vec<i64>, DecodeError>)
    requires
        old(br).wf(),
        bs <= 65536,
        fits(warm@),
        warm@.len() == coeffs@.len() <= 32,
        coeffs@.len() <= bs,
        predict::bounded(coeffs@),
        shift < 32,
    ensures
        final(br).wf(),
        final(br).bits() == old(br).bits(),
        match read_predicted(
            old(br).bits(),
            old(br).bit_pos(),
            bs as nat,
            warm@,
            coeffs@,
            shift as nat,
        ) {
            Ok((s, q)) => r matches Ok(v) && v@ == s && fits(v@) && final(br).bit_pos() == q,
            Err(e) => r == Err::<Vec<i64>, DecodeError>(e),
        },
{
    let ghost head = warm@;
    let mut res: Vec<i32> = Vec::new();
    proof {
        br.lemma_pos_bound();
        grammar::lemma_read_residual_pos(br.bits(), br.bit_pos(), bs as nat, head.len());
    }
    match decode::decode_residual(br, bs, warm.len(), &mut res) {
        Ok(()) => {},
        Err(e) => {
            return Err(e);
        },
    }
    let ghost tail = grammar::read_residual(
        old(br).bits(),
        old(br).bit_pos(),
        bs as nat,
        head.len(),
    )->Ok_0.0;
    assert(res@ =~= tail);
    let mut out: Vec<i64> = warm;
    let mut i: usize = 0;
    assert(out@ =~= head + widened(res@).take(0));
    while i < res.len()
        invariant
            i <= res@.len(),
            fits(out@),
            out@ == head + widened(res@).take(i as int),
        decreases res@.len() - i,
    {
        out.push(res[i] as i64);
        i = i + 1;
        assert(out@ =~= head + widened(res@).take(i as int));
    }
    assert(widened(res@).take(i as int) =~= widened(res@));
    restore(&mut out, coeffs, shift);
    Ok(out)
}

/// Read a predictive block.
fn decode_predictive(br: &mut BitReader, w: u32, bs: usize, order: usize, fixed: bool) -> (r:
    Result<Vec<i64>, DecodeError>)
    requires
        old(br).wf(),
        1 <= w <= 33,
        bs <= 65536,
        order <= 32,
        fixed ==> order <= 4,
    ensures
        final(br).wf(),
        final(br).bits() == old(br).bits(),
        match read_predictive(
            old(br).bits(),
            old(br).bit_pos(),
            w as nat,
            bs as nat,
            order as nat,
            fixed,
        ) {
            Ok((s, q)) => r matches Ok(v) && v@ == s && fits(v@) && final(br).bit_pos() == q,
            Err(e) => r == Err::<Vec<i64>, DecodeError>(e),
        },
{
    if order > bs {
        if fixed {
            return Err(DecodeError::BadSubframe("fixed order > blocksize"));
        }
        return Err(DecodeError::BadSubframe("lpc order > blocksize"));
    }
    proof {
        lemma_read_samples_pos(br.bits(), br.bit_pos(), w as nat, order as nat);
    }
    let warm: Vec<i64> = match decode_samples(br, w, order) {
        Ok(v) => v,
        Err(e) => {
            return Err(e);
        },
    };
    if fixed {
        let coeffs: Vec<i32> = fixed_coeffs(order);
        return decode_predicted(br, bs, warm, &coeffs, 0);
    }
    match decode::decode_predictor(br, order) {
        Ok((coeffs, shift)) => decode_predicted(br, bs, warm, &coeffs, shift),
        Err(e) => Err(e),
    }
}

/// A block of one repeated sample.
fn decode_constant(br: &mut BitReader, w: u32, bs: usize) -> (r: Result<Vec<i64>, DecodeError>)
    requires
        old(br).wf(),
        1 <= w <= 33,
    ensures
        final(br).wf(),
        final(br).bits() == old(br).bits(),
        match read_body(old(br).bits(), old(br).bit_pos(), 0, w as nat, bs as nat) {
            Ok((s, q)) => r matches Ok(v) && v@ == s && fits(v@) && final(br).bit_pos() == q,
            Err(e) => r == Err::<Vec<i64>, DecodeError>(e),
        },
{
    proof {
        lemma_read_samples_pos(br.bits(), br.bit_pos(), w as nat, 1);
    }
    let one: Vec<i64> = match decode_samples(br, w, 1) {
        Ok(v) => v,
        Err(e) => {
            return Err(e);
        },
    };
    let v: i64 = one[0];
    let mut out: Vec<i64> = Vec::new();
    let mut i: usize = 0;
    while i < bs
        invariant
            i <= bs,
            -0x1_0000_0000 <= v < 0x1_0000_0000,
            out@ == Seq::new(i as nat, |j: int| v),
        decreases bs - i,
    {
        out.push(v);
        i = i + 1;
        assert(out@ =~= Seq::new(i as nat, |j: int| v));
    }
    assert(out@ =~= Seq::new(bs as nat, |j: int| one@[0]));
    Ok(out)
}

/// The body of a subframe of type `ty`, at `w` bits per sample.
fn decode_body(br: &mut BitReader, ty: u32, w: u32, bs: usize) -> (r: Result<
    Vec<i64>,
    DecodeError,
>)
    requires
        old(br).wf(),
        1 <= w <= 33,
        bs <= 65536,
        ty < 64,
    ensures
        final(br).wf(),
        final(br).bits() == old(br).bits(),
        match read_body(
            old(br).bits(),
            old(br).bit_pos(),
            ty as nat,
            w as nat,
            bs as nat,
        ) {
            Ok((s, q)) => r matches Ok(v) && v@ == s && fits(v@) && final(br).bit_pos() == q,
            Err(e) => r == Err::<Vec<i64>, DecodeError>(e),
        },
{
    if ty == 0 {
        decode_constant(br, w, bs)
    } else if ty == 1 {
        decode_samples(br, w, bs)
    } else if 8 <= ty && ty <= 12 {
        decode_predictive(br, w, bs, (ty - 8) as usize, true)
    } else if ty >= 32 {
        decode_predictive(br, w, bs, (ty - 31) as usize, false)
    } else {
        Err(DecodeError::BadSubframe("reserved type"))
    }
}

/// Multiply by a power of two, up to 2^32.
fn scale_up(x: i64, n: u32) -> (r: i64)
    requires
        -0x1_0000_0000 <= x < 0x1_0000_0000,
        n <= 32,
    ensures
        r == wrap33(x * pow2(n as nat)),
        -0x1_0000_0000 <= r < 0x1_0000_0000,
{
    let half: u32 = n / 2;
    let rest: u32 = n - half;
    proof {
        lemma2_to64();
        arith::lemma_pow2_monotone(half as nat, 16);
        arith::lemma_pow2_monotone(rest as nat, 16);
        vstd::bits::lemma_u64_shl_is_mul(1, half as u64);
        vstd::bits::lemma_u64_shl_is_mul(1, rest as u64);
        lemma_pow2_adds(half as nat, rest as nat);
    }
    let a: i64 = (1u64 << half) as i64;
    let b: i64 = (1u64 << rest) as i64;
    assert(-0x1_0000_0000_0000 <= x * a <= 0x1_0000_0000_0000) by (nonlinear_arith)
        requires
            -0x1_0000_0000 <= x < 0x1_0000_0000,
            1 <= a <= 0x1_0000,
    ;
    let y: i64 = keep33(x * a);
    assert(-0x1_0000_0000_0000 <= y * b <= 0x1_0000_0000_0000) by (nonlinear_arith)
        requires
            -0x1_0000_0000 <= y < 0x1_0000_0000,
            1 <= b <= 0x1_0000,
    ;
    proof {
        lemma_wrap33_mul(x * a, b as int);
        assert((x * a) * b == x * (a * b)) by (nonlinear_arith);
    }
    keep33(y * b)
}

/// Put `n` zero bits back below every sample.
fn shift_up(v: &mut Vec<i64>, n: u32)
    requires
        fits(old(v)@),
        n <= 32,
    ensures
        final(v)@ == shifted_up(old(v)@, n as nat),
        fits(final(v)@),
{
    let ghost raw = v@;
    let mut i: usize = 0;
    while i < v.len()
        invariant
            n <= 32,
            i <= v@.len(),
            v@.len() == raw.len(),
            fits(v@),
            forall|j: int| 0 <= j < i ==> #[trigger] v@[j] == wrap33(raw[j] * pow2(n as nat)),
            forall|j: int| i <= j < raw.len() ==> #[trigger] v@[j] == raw[j],
        decreases v@.len() - i,
    {
        let x: i64 = v[i];
        assert(x == raw[i as int]);
        let y: i64 = scale_up(x, n);
        v.set(i, y);
        i = i + 1;
    }
    assert(v@ =~= shifted_up(raw, n as nat));
}

/// Decode one subframe of `bs` samples of 33 bits each.
fn decode_subframe(br: &mut BitReader, bs: usize) -> (r: Result<Vec<i64>, DecodeError>)
    requires
        old(br).wf(),
        bs <= 65536,
    ensures
        final(br).wf(),
        final(br).bits() == old(br).bits(),
        match read_subframe(old(br).bits(), old(br).bit_pos(), bs as nat) {
            Ok((s, q)) => r matches Ok(v) && v@ == s && fits(v@) && final(br).bit_pos() == q,
            Err(e) => r == Err::<Vec<i64>, DecodeError>(e),
        },
{
    proof {
        reveal(read_subframe);
    }
    let (ty, wasted): (u32, u32) = match decode::decode_subframe_head(br, 33) {
        Ok(v) => v,
        Err(e) => {
            return Err(e);
        },
    };
    match decode_body(br, ty, 33 - wasted, bs) {
        Ok(v) => {
            let mut out: Vec<i64> = v;
            shift_up(&mut out, wasted);
            Ok(out)
        },
        Err(e) => Err(e),
    }
}

// ---------------------------------------------------------------------------
// Frames
// ---------------------------------------------------------------------------
/// A frame with a side channel of 33 bits.
pub open spec fn is_wide(h: HeaderModel) -> bool {
    h.depth == 32 && 8 <= h.assignment <= 10
}

/// The two subframes of such a frame: the channel of 32 bits (left, right or
/// mid), and the side.
pub open spec fn read_pair(b: Seq<bool>, h: HeaderModel) -> Result<
    (Seq<i32>, Seq<i64>, int),
    DecodeError,
> {
    if h.assignment == 9 {
        match read_subframe(b, h.end, h.block_size) {
            Err(e) => Err(e),
            Ok((side, q)) => match grammar::read_subframe(b, q, h.block_size, 32) {
                Err(e) => Err(e),
                Ok((x, r)) => Ok((x, side, r)),
            },
        }
    } else {
        match grammar::read_subframe(b, h.end, h.block_size, 32) {
            Err(e) => Err(e),
            Ok((x, q)) => match read_subframe(b, q, h.block_size) {
                Err(e) => Err(e),
                Ok((side, r)) => Ok((x, side, r)),
            },
        }
    }
}

/// The left sample behind a pair.
pub open spec fn left_of(assignment: nat, x: i32, side: i64) -> int {
    if assignment == 8 {
        x as int
    } else if assignment == 9 {
        side + x
    } else {
        (2 * x + side as int % 2 + side) / 2
    }
}

/// The right sample behind a pair.
pub open spec fn right_of(assignment: nat, x: i32, side: i64) -> int {
    if assignment == 8 {
        x - side
    } else if assignment == 9 {
        x as int
    } else {
        (2 * x + side as int % 2 - side) / 2
    }
}

/// A sample of 32 bits.
pub open spec fn is_sample(v: int) -> bool {
    i32::MIN <= v <= i32::MAX
}

/// Both samples behind a pair are samples of 32 bits.
pub open spec fn are_samples(assignment: nat, x: i32, side: i64) -> bool {
    is_sample(left_of(assignment, x, side)) && is_sample(right_of(assignment, x, side))
}

/// The left and the right channel behind a pair, where both are channels of 32
/// bits.
pub open spec fn undone(assignment: nat, x: Seq<i32>, side: Seq<i64>) -> Option<Seq<Seq<i32>>> {
    if forall|i: int| 0 <= i < x.len() ==> #[trigger] are_samples(assignment, x[i], side[i]) {
        Some(
            seq![
                Seq::new(x.len(), |i: int| left_of(assignment, x[i], side[i]) as i32),
                Seq::new(x.len(), |i: int| right_of(assignment, x[i], side[i]) as i32),
            ],
        )
    } else {
        None
    }
}

/// The channel of 32 bits that a pair codes: left, right, or their mean.
pub open spec fn plain_of(assignment: nat, l: Seq<i32>, r: Seq<i32>) -> Seq<i32> {
    if assignment == 8 {
        l
    } else if assignment == 9 {
        r
    } else {
        Seq::new(l.len(), |i: int| ((l[i] + r[i]) / 2) as i32)
    }
}

/// The difference of two channels.
pub open spec fn side_of(l: Seq<i32>, r: Seq<i32>) -> Seq<i64> {
    Seq::new(l.len(), |i: int| (l[i] - r[i]) as i64)
}

/// Every stereo mode is undone exactly at 32 bits too: whatever two channels
/// hold, the decoder gets them back from the pair that codes them.
pub proof fn lemma_pair_restores(assignment: nat, l: Seq<i32>, r: Seq<i32>)
    requires
        8 <= assignment <= 10,
        l.len() == r.len(),
    ensures
        fits(side_of(l, r)),
        undone(assignment, plain_of(assignment, l, r), side_of(l, r)) == Some(seq![l, r]),
{
    let x = plain_of(assignment, l, r);
    let s = side_of(l, r);
    assert forall|i: int| 0 <= i < x.len() implies #[trigger] are_samples(assignment, x[i], s[i])
        && left_of(assignment, x[i], s[i]) == l[i] && right_of(assignment, x[i], s[i]) == r[i] by {}
    assert(Seq::new(x.len(), |i: int| left_of(assignment, x[i], s[i]) as i32) =~= l);
    assert(Seq::new(x.len(), |i: int| right_of(assignment, x[i], s[i]) as i32) =~= r);
}

/// Both subframes hold a whole block.
pub proof fn lemma_read_pair_pos(b: Seq<bool>, h: HeaderModel)
    requires
        h.end >= 0,
    ensures
        read_pair(b, h) matches Ok((x, side, q)) ==> q >= h.end && x.len() == h.block_size
            && side.len() == h.block_size,
{
    if h.assignment == 9 {
        lemma_read_subframe_pos(b, h.end, h.block_size);
        if let Ok((side, q)) = read_subframe(b, h.end, h.block_size) {
            grammar::lemma_read_subframe_pos(b, q, h.block_size, 32);
        }
    } else {
        grammar::lemma_read_subframe_pos(b, h.end, h.block_size, 32);
        if let Ok((x, q)) = grammar::read_subframe(b, h.end, h.block_size, 32) {
            lemma_read_subframe_pos(b, q, h.block_size);
        }
    }
}

/// Decode the two subframes of a frame with a side channel of 33 bits.
pub(crate) fn decode_pair(
    br: &mut BitReader,
    bs: usize,
    assignment: u32,
    Ghost(h): Ghost<HeaderModel>,
) -> (r: Result<(Vec<i32>, Vec<i64>), DecodeError>)
    requires
        old(br).wf(),
        bs <= 65536,
        h.block_size == bs,
        h.assignment == assignment,
        old(br).bit_pos() == h.end,
    ensures
        final(br).wf(),
        final(br).bits() == old(br).bits(),
        match read_pair(old(br).bits(), h) {
            Ok((x, side, q)) => r matches Ok(v) && v.0@ == x && v.1@ == side && fits(side)
                && final(br).bit_pos() == q,
            Err(e) => r == Err::<(Vec<i32>, Vec<i64>), DecodeError>(e),
        },
{
    if assignment == 9 {
        let side: Vec<i64> = match decode_subframe(br, bs) {
            Ok(v) => v,
            Err(e) => {
                return Err(e);
            },
        };
        match decode::decode_subframe(br, bs, 32) {
            Ok(x) => Ok((x, side)),
            Err(e) => Err(e),
        }
    } else {
        let x: Vec<i32> = match decode::decode_subframe(br, bs, 32) {
            Ok(v) => v,
            Err(e) => {
                return Err(e);
            },
        };
        match decode_subframe(br, bs) {
            Ok(side) => Ok((x, side)),
            Err(e) => Err(e),
        }
    }
}

/// The left and the right sample behind a pair.
fn undo_one(assignment: u32, x: i32, side: i64) -> (r: (i64, i64))
    requires
        8 <= assignment <= 10,
        -0x1_0000_0000 <= side < 0x1_0000_0000,
    ensures
        r.0 == left_of(assignment as nat, x, side),
        r.1 == right_of(assignment as nat, x, side),
{
    if assignment == 8 {
        return (x as i64, x as i64 - side);
    }
    if assignment == 9 {
        return (side + x as i64, x as i64);
    }
    let odd: i64 = if side % 2 == 0 {
        0
    } else {
        1
    };
    let mid: i64 = 2 * x as i64 + odd;
    proof {
        arith::lemma_i64_shr((mid + side) as i64, 1);
        arith::lemma_i64_shr((mid - side) as i64, 1);
        lemma2_to64();
    }
    ((mid + side) >> 1u32, (mid - side) >> 1u32)
}

/// Turn a pair into the left and the right channel.
pub(crate) fn undo(assignment: u32, x: &Vec<i32>, side: &Vec<i64>) -> (r: Option<Vec<Vec<i32>>>)
    requires
        8 <= assignment <= 10,
        x@.len() == side@.len(),
        fits(side@),
    ensures
        match undone(assignment as nat, x@, side@) {
            Some(c) => r matches Some(v) && decode::planes(v@) == c,
            None => r is None,
        },
{
    let ghost a = assignment as nat;
    let mut left: Vec<i32> = Vec::with_capacity(x.len());
    let mut right: Vec<i32> = Vec::with_capacity(x.len());
    let mut i: usize = 0;
    while i < x.len()
        invariant
            8 <= assignment <= 10,
            a == assignment,
            i <= x@.len() == side@.len(),
            fits(side@),
            forall|j: int| 0 <= j < i ==> #[trigger] are_samples(a, x@[j], side@[j]),
            left@ == Seq::new(i as nat, |j: int| left_of(a, x@[j], side@[j]) as i32),
            right@ == Seq::new(i as nat, |j: int| right_of(a, x@[j], side@[j]) as i32),
        decreases x@.len() - i,
    {
        let (l, r): (i64, i64) = undo_one(assignment, x[i], side[i]);
        if l < -0x8000_0000 || l > 0x7FFF_FFFF || r < -0x8000_0000 || r > 0x7FFF_FFFF {
            assert(!are_samples(a, x@[i as int], side@[i as int]));
            return None;
        }
        assert(are_samples(a, x@[i as int], side@[i as int]));
        left.push(l as i32);
        right.push(r as i32);
        i = i + 1;
        assert(left@ =~= Seq::new(i as nat, |j: int| left_of(a, x@[j], side@[j]) as i32));
        assert(right@ =~= Seq::new(i as nat, |j: int| right_of(a, x@[j], side@[j]) as i32));
    }
    let mut out: Vec<Vec<i32>> = Vec::new();
    out.push(left);
    out.push(right);
    assert(decode::planes(out@) =~= undone(a, x@, side@)->0);
    Some(out)
}

} // verus!
