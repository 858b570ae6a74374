//! What the decoder owes every encoder, inside a frame: numbers, Rice codes,
//! partitions, subframes and stereo modes are read from where they stand, bit
//! by bit, whoever wrote them.
use crate::arith;
use crate::bits;
use crate::crc;
use crate::decode::DecodeError;
use crate::grammar;
use crate::grammar::{FrameModel, HeaderModel, InfoModel};
use crate::interop;
use crate::predict;
use crate::predict::Predictor;
use crate::rice;
use crate::wide;
use vstd::arithmetic::div_mod::*;
use vstd::arithmetic::power2::*;
use vstd::prelude::*;

verus! {

// ---------------------------------------------------------------------------
// Numbers
// ---------------------------------------------------------------------------
/// The `w` bits at `p` are the two's complement of `v`.
pub open spec fn holds(b: Seq<bool>, p: int, w: nat, v: int) -> bool {
    &&& 0 <= p
    &&& p + w <= b.len()
    &&& w >= 1
    &&& -pow2((w - 1) as nat) <= v < pow2((w - 1) as nat)
    &&& grammar::uint(b, p, w) == (if v < 0 {
        v + pow2(w)
    } else {
        v
    })
}

/// A two's complement number is read as what it is.
pub proof fn lemma_number_read(b: Seq<bool>, p: int, w: nat, v: int)
    requires
        holds(b, p, w, v),
    ensures
        bits::read_int(b, p, w) == Some((v, p + w)),
{
    let s = b.subrange(p, p + w);
    lemma_pow2_unfold(w);
    lemma_pow2_pos(w);
    let m = pow2(w) as int;
    bits::lemma_field_value(s);
    if v < 0 {
        lemma_mod_add_multiples_vanish(v, m);
        assert((v + m) % m == v % m);
    }
    bits::lemma_field_congruent(v, bits::value(s) as int, w);
    bits::lemma_signed_field(v, w);
}

/// Samples of `w` bits each stand one behind the other from `p` on.
pub open spec fn numbers_stand(b: Seq<bool>, p: int, w: nat, s: Seq<i32>) -> bool {
    forall|i: int| 0 <= i < s.len() ==> holds(b, p + w * i, w, #[trigger] s[i] as int)
}

proof fn lemma_numbers_prefix(b: Seq<bool>, p: int, w: nat, s: Seq<i32>, n: nat)
    requires
        numbers_stand(b, p, w, s),
        n <= s.len(),
    ensures
        grammar::read_ints(b, p, w, n) == Some((s.take(n as int), p + w * n)),
    decreases n,
{
    if n == 0 {
        assert(s.take(0) =~= Seq::empty());
        assert(w * 0 == 0) by (nonlinear_arith);
    } else {
        let m = (n - 1) as nat;
        lemma_numbers_prefix(b, p, w, s, m);
        assert(holds(b, p + w * (n - 1), w, s[n - 1] as int));
        assert(w * m + w == w * n) by (nonlinear_arith)
            requires
                m + 1 == n,
        ;
        lemma_number_read(b, p + w * m, w, s[n - 1] as int);
        assert(s.take(m as int).push(s[n - 1]) =~= s.take(n as int));
    }
}

/// Samples that stand one behind the other are read as what they are.
pub proof fn lemma_numbers_read(b: Seq<bool>, p: int, w: nat, s: Seq<i32>)
    requires
        numbers_stand(b, p, w, s),
    ensures
        grammar::read_ints(b, p, w, s.len()) == Some((s, p + w * s.len())),
{
    lemma_numbers_prefix(b, p, w, s, s.len());
    assert(s.take(s.len() as int) =~= s);
}

// ---------------------------------------------------------------------------
// Residuals
// ---------------------------------------------------------------------------
/// A residual as the unsigned number that its code spells: 0, -1, 1, -2, 2 and
/// so on count from zero.
pub open spec fn folded(v: int) -> nat {
    if v < 0 {
        (-2 * v - 1) as nat
    } else {
        (2 * v) as nat
    }
}

/// From `p` to `q` stands the Rice code of `v`: as many zeros as the folded
/// number holds the power of two, a one, and the remainder.
pub open spec fn code_stands(b: Seq<bool>, p: int, k: nat, v: i32, q: int) -> bool {
    let n = folded(v as int) / pow2(k);
    &&& 0 <= p
    &&& q == p + n + 1 + k
    &&& q <= b.len()
    &&& forall|i: int| p <= i < p + n ==> !#[trigger] b[i]
    &&& b[p + n]
    &&& grammar::uint(b, p + n + 1, k) == folded(v as int) % pow2(k)
}

/// A Rice code is read as its residual.
pub proof fn lemma_code_read(b: Seq<bool>, p: int, k: nat, v: i32, q: int)
    requires
        code_stands(b, p, k, v, q),
    ensures
        bits::read_rice(b, p, k) == Some((folded(v as int) as u32, q)),
        rice::unfold(folded(v as int) as int) == v,
{
    let u = folded(v as int);
    let m = pow2(k);
    lemma_pow2_pos(k);
    let n = u / m;
    lemma_fundamental_div_mod(u as int, m as int);
    assert(n * m + u % m == u) by (nonlinear_arith)
        requires
            u == m * n + u % m,
    ;
    assert(n >= 0);
    bits::lemma_first_one_skip(b, p, p + n);
    assert(bits::first_one(b, p) == p + n);
}

/// From `at[0]` to the last of `at` stand the Rice codes of a run.
pub open spec fn codes_stand(b: Seq<bool>, k: nat, s: Seq<i32>, at: Seq<int>) -> bool {
    &&& at.len() == s.len() + 1
    &&& forall|i: int| 0 <= i < s.len() ==> code_stands(b, at[i], k, #[trigger] s[i], at[i + 1])
}

proof fn lemma_codes_prefix(b: Seq<bool>, k: nat, s: Seq<i32>, at: Seq<int>, n: nat)
    requires
        codes_stand(b, k, s, at),
        n <= s.len(),
    ensures
        grammar::read_codes(b, at[0], k, n) == Some((s.take(n as int), at[n as int])),
    decreases n,
{
    if n == 0 {
        assert(s.take(0) =~= Seq::empty());
    } else {
        let m = (n - 1) as nat;
        lemma_codes_prefix(b, k, s, at, m);
        assert(code_stands(b, at[n - 1], k, s[n - 1], at[n - 1 + 1]));
        lemma_code_read(b, at[n - 1], k, s[n - 1], at[n as int]);
        assert(s.take(m as int).push(s[n - 1]) =~= s.take(n as int));
    }
}

/// From `p` to the last of `at` stands a partition of Rice codes: a parameter
/// of four bits up to 14, or of five bits up to 30, and the codes.
pub open spec fn rice_partition(
    b: Seq<bool>,
    p: int,
    method: nat,
    s: Seq<i32>,
    at: Seq<int>,
) -> bool {
    let k = grammar::uint(b, p, 4 + method);
    &&& 0 <= p
    &&& p + 4 + method <= b.len()
    &&& k < (if method == 0 {
        15nat
    } else {
        31
    })
    &&& at.len() > 0 && at[0] == p + 4 + method
    &&& codes_stand(b, k, s, at)
}

/// From `p` on stands an escaped partition: four or five ones, a width of five
/// bits, and the residuals at that width, all zero at width zero.
pub open spec fn escaped_partition(b: Seq<bool>, p: int, method: nat, s: Seq<i32>) -> bool {
    let width = grammar::uint(b, p + 4 + method, 5);
    &&& 0 <= p
    &&& p + 9 + method <= b.len()
    &&& grammar::uint(b, p, 4 + method) == (if method == 0 {
        15nat
    } else {
        31
    })
    &&& if width == 0 {
        forall|i: int| 0 <= i < s.len() ==> #[trigger] s[i] == 0
    } else {
        numbers_stand(b, p + 9 + method, width, s)
    }
}

/// A partition of Rice codes is read as its residuals.
pub proof fn lemma_rice_partition_read(
    b: Seq<bool>,
    p: int,
    method: nat,
    s: Seq<i32>,
    at: Seq<int>,
)
    requires
        method <= 1,
        rice_partition(b, p, method, s, at),
    ensures
        grammar::read_partition(b, p, method, s.len()) == Some((s, at.last())),
{
    let k = grammar::uint(b, p, 4 + method);
    lemma_codes_prefix(b, k, s, at, s.len());
    assert(s.take(s.len() as int) =~= s);
}

/// An escaped partition is read as its residuals.
pub proof fn lemma_escaped_partition_read(b: Seq<bool>, p: int, method: nat, s: Seq<i32>)
    requires
        method <= 1,
        escaped_partition(b, p, method, s),
    ensures
        grammar::read_partition(b, p, method, s.len()) == Some(
            (s, p + 9 + method + grammar::uint(b, p + 4 + method, 5) * s.len()),
        ),
{
    let width = grammar::uint(b, p + 4 + method, 5);
    if width == 0 {
        assert(s =~= grammar::silence(s.len()));
        assert(0 * s.len() == 0) by (nonlinear_arith);
    } else {
        lemma_numbers_read(b, p + 9 + method, width, s);
    }
}

/// The residuals of a list of partitions, in order.
pub open spec fn joined(parts: Seq<Seq<i32>>) -> Seq<i32>
    decreases parts.len(),
{
    if parts.len() == 0 {
        Seq::empty()
    } else {
        joined(parts.drop_last()) + parts.last()
    }
}

/// The partitions of a residual are read one behind the other. The partitions
/// share the block evenly, and the first one is short by the warm-up samples.
pub open spec fn partitions_stand(
    b: Seq<bool>,
    method: nat,
    size: nat,
    order: nat,
    parts: Seq<Seq<i32>>,
    at: Seq<int>,
) -> bool {
    &&& at.len() == parts.len() + 1
    &&& forall|j: int|
        0 <= j < parts.len() ==> (#[trigger] parts[j]).len() == (if j == 0 {
            size - order
        } else {
            size as int
        }) && grammar::read_partition(b, at[j], method, parts[j].len()) == Some(
            (parts[j], at[j + 1]),
        )
}

proof fn lemma_partitions_prefix(
    b: Seq<bool>,
    method: nat,
    size: nat,
    order: nat,
    parts: Seq<Seq<i32>>,
    at: Seq<int>,
    n: nat,
)
    requires
        partitions_stand(b, method, size, order, parts, at),
        n <= parts.len(),
    ensures
        grammar::read_partitions(b, at[0], method, size, order, n) == Some(
            (joined(parts.take(n as int)), at[n as int]),
        ),
    decreases n,
{
    if n == 0 {
        assert(parts.take(0) =~= Seq::empty());
    } else {
        let m = (n - 1) as nat;
        lemma_partitions_prefix(b, method, size, order, parts, at, m);
        assert(parts.take(n as int).drop_last() =~= parts.take(m as int));
        assert(parts.take(n as int).last() == parts[n - 1]);
        assert(parts[n - 1].len() == (if n == 1 {
            size - order
        } else {
            size as int
        }));
    }
}

/// A residual of any partition order up to 15 that divides the block, with
/// either method, is read as its partitions: two bits of method, four of
/// partition order, and the partitions.
pub proof fn lemma_residual_read(
    b: Seq<bool>,
    p: int,
    bs: nat,
    order: nat,
    parts: Seq<Seq<i32>>,
    at: Seq<int>,
)
    requires
        0 <= p,
        p + 6 <= b.len(),
        grammar::uint(b, p, 2) <= 1,
        parts.len() == pow2(grammar::uint(b, p + 2, 4)),
        bs % parts.len() == 0,
        order <= bs / parts.len(),
        at.len() > 0 && at[0] == p + 6,
        partitions_stand(b, grammar::uint(b, p, 2), bs / parts.len(), order, parts, at),
    ensures
        grammar::read_residual(b, p, bs, order) == Ok::<(Seq<i32>, int), DecodeError>(
            (joined(parts), at.last()),
        ),
{
    lemma_partitions_prefix(
        b,
        grammar::uint(b, p, 2),
        bs / parts.len(),
        order,
        parts,
        at,
        parts.len(),
    );
    assert(parts.take(parts.len() as int) =~= parts);
}

// ---------------------------------------------------------------------------
// Subframes
// ---------------------------------------------------------------------------
/// A subframe header from `p` to `q`: a zero, six bits of type, and a zero, or
/// a one with the count of wasted bits in unary behind it.
pub open spec fn head_stands(b: Seq<bool>, p: int, ty: nat, wasted: nat, q: int) -> bool {
    &&& 0 <= p
    &&& q == p + 8 + wasted
    &&& q <= b.len()
    &&& !b[p]
    &&& grammar::uint(b, p + 1, 6) == ty
    &&& b[p + 7] == (wasted > 0)
    &&& wasted > 0 ==> b[q - 1] && forall|i: int| p + 8 <= i < q - 1 ==> !#[trigger] b[i]
}

/// One bit as a number.
proof fn lemma_one_bit(b: Seq<bool>, p: int)
    requires
        0 <= p < b.len(),
    ensures
        grammar::uint(b, p, 1) == (if b[p] {
            1nat
        } else {
            0
        }),
{
    let s = b.subrange(p, p + 1);
    assert(s.drop_last() =~= Seq::empty());
    assert(bits::value(s.drop_last()) == 0);
}

/// A subframe header is read as what it says.
pub proof fn lemma_head_read(b: Seq<bool>, p: int, depth: nat, ty: nat, wasted: nat, q: int)
    requires
        head_stands(b, p, ty, wasted, q),
        wasted < depth <= 33,
    ensures
        grammar::read_subframe_head(b, p, depth) == Ok::<(nat, nat, int), DecodeError>(
            (ty, wasted, q),
        ),
{
    lemma_one_bit(b, p);
    lemma_one_bit(b, p + 7);
    if wasted > 0 {
        bits::lemma_first_one_skip(b, p + 8, q - 1);
        assert(bits::first_one(b, p + 8) == q - 1);
    }
}

/// Samples with their wasted bits put back: every sample times the power of
/// two.
pub open spec fn scaled(s: Seq<i32>, out: Seq<i32>, wasted: nat) -> bool {
    &&& out.len() == s.len()
    &&& forall|i: int| 0 <= i < s.len() ==> #[trigger] out[i] == s[i] * pow2(wasted)
}

proof fn lemma_scaled(s: Seq<i32>, out: Seq<i32>, wasted: nat)
    requires
        scaled(s, out, wasted),
    ensures
        grammar::shifted_up(s, wasted) == out,
{
    assert forall|i: int| 0 <= i < s.len() implies grammar::shifted_up(s, wasted)[i] == out[i] by {
        assert(out[i] == s[i] * pow2(wasted));
        arith::lemma_wrap32_in_range(out[i] as int);
    }
    assert(grammar::shifted_up(s, wasted) =~= out);
}

/// Type 0: one sample stands for the whole block.
pub proof fn lemma_constant_read(
    b: Seq<bool>,
    p: int,
    bs: nat,
    depth: nat,
    wasted: nat,
    q: int,
    v: i32,
    out: Seq<i32>,
)
    requires
        head_stands(b, p, 0, wasted, q),
        wasted < depth <= 32,
        holds(b, q, (depth - wasted) as nat, v as int),
        scaled(Seq::new(bs, |i: int| v), out, wasted),
    ensures
        grammar::read_subframe(b, p, bs, depth) == Ok::<(Seq<i32>, int), DecodeError>(
            (out, q + depth - wasted),
        ),
{
    reveal(grammar::read_subframe);
    let w = (depth - wasted) as nat;
    lemma_head_read(b, p, depth, 0, wasted, q);
    let one = seq![v];
    assert(w * 0 == 0) by (nonlinear_arith);
    assert(w * 1 == w) by (nonlinear_arith);
    assert(numbers_stand(b, q, w, one));
    lemma_numbers_read(b, q, w, one);
    lemma_scaled(Seq::new(bs, |i: int| v), out, wasted);
    assert(Seq::new(bs, |i: int| one[0]) =~= Seq::new(bs, |i: int| v));
}

/// Type 1: the samples themselves.
pub proof fn lemma_verbatim_read(
    b: Seq<bool>,
    p: int,
    depth: nat,
    wasted: nat,
    q: int,
    s: Seq<i32>,
    out: Seq<i32>,
)
    requires
        head_stands(b, p, 1, wasted, q),
        wasted < depth <= 32,
        numbers_stand(b, q, (depth - wasted) as nat, s),
        scaled(s, out, wasted),
    ensures
        grammar::read_subframe(b, p, s.len(), depth) == Ok::<(Seq<i32>, int), DecodeError>(
            (out, q + (depth - wasted) * s.len()),
        ),
{
    reveal(grammar::read_subframe);
    lemma_head_read(b, p, depth, 1, wasted, q);
    lemma_numbers_read(b, q, (depth - wasted) as nat, s);
    lemma_scaled(s, out, wasted);
}

/// Types 8 to 12: warm-up samples of a fixed polynomial of order 0 to 4, and
/// what it leaves of the rest.
pub proof fn lemma_fixed_read(
    b: Seq<bool>,
    p: int,
    depth: nat,
    wasted: nat,
    q: int,
    order: nat,
    s: Seq<i32>,
    end: int,
    out: Seq<i32>,
)
    requires
        order <= 4,
        order <= s.len(),
        head_stands(b, p, 8 + order, wasted, q),
        wasted < depth <= 32,
        numbers_stand(b, q, (depth - wasted) as nat, s.take(order as int)),
        grammar::read_residual(b, q + (depth - wasted) * order, s.len(), order) == Ok::<
            (Seq<i32>, int),
            DecodeError,
        >(((Predictor::Fixed { order }).residual(s), end)),
        scaled(s, out, wasted),
    ensures
        grammar::read_subframe(b, p, s.len(), depth) == Ok::<(Seq<i32>, int), DecodeError>(
            (out, end),
        ),
{
    reveal(grammar::read_subframe);
    lemma_head_read(b, p, depth, 8 + order, wasted, q);
    lemma_numbers_read(b, q, (depth - wasted) as nat, s.take(order as int));
    predict::lemma_residual_restores(Predictor::Fixed { order }, s);
    lemma_scaled(s, out, wasted);
}

/// Types 32 to 63: warm-up samples of a linear predictor of order 1 to 32, four
/// bits of precision, five bits of shift, coefficients of that precision, and
/// what the predictor leaves of the rest.
pub proof fn lemma_linear_read(
    b: Seq<bool>,
    p: int,
    depth: nat,
    wasted: nat,
    q: int,
    coeffs: Seq<i32>,
    shift: nat,
    precision: nat,
    s: Seq<i32>,
    end: int,
    out: Seq<i32>,
)
    requires
        1 <= coeffs.len() <= 32,
        coeffs.len() <= s.len(),
        head_stands(b, p, (31 + coeffs.len()) as nat, wasted, q),
        wasted < depth <= 32,
        numbers_stand(b, q, (depth - wasted) as nat, s.take(coeffs.len() as int)),
        ({
            let q1 = q + (depth - wasted) * coeffs.len();
            &&& 1 <= precision <= 15
            &&& q1 + 4 <= b.len()
            &&& grammar::uint(b, q1, 4) == precision - 1
            &&& holds(b, q1 + 4, 5, shift as int)
            &&& numbers_stand(b, q1 + 9, precision, coeffs)
            &&& grammar::read_residual(
                b,
                q1 + 9 + precision * coeffs.len(),
                s.len(),
                coeffs.len(),
            ) == Ok::<(Seq<i32>, int), DecodeError>(
                ((Predictor::Lpc { coeffs, shift }).residual(s), end),
            )
        }),
        scaled(s, out, wasted),
    ensures
        grammar::read_subframe(b, p, s.len(), depth) == Ok::<(Seq<i32>, int), DecodeError>(
            (out, end),
        ),
{
    reveal(grammar::read_subframe);
    let order = coeffs.len();
    let q1 = q + (depth - wasted) * order;
    lemma_head_read(b, p, depth, (31 + order) as nat, wasted, q);
    lemma_numbers_read(b, q, (depth - wasted) as nat, s.take(order as int));
    lemma_number_read(b, q1 + 4, 5, shift as int);
    lemma_numbers_read(b, q1 + 9, precision, coeffs);
    predict::lemma_residual_restores(Predictor::Lpc { coeffs, shift }, s);
    lemma_scaled(s, out, wasted);
}

// ---------------------------------------------------------------------------
// Stereo
// ---------------------------------------------------------------------------
/// What the two subframes of a stereo mode hold of a left and a right sample:
/// with assignment 8 left and side, with 9 side and right, with 10 mid and
/// side. The side is the difference, the mid the mean rounded down.
pub open spec fn stereo_pair(assignment: nat, l: i32, r: i32, x: i32, y: i32) -> bool {
    if assignment == 8 {
        x == l && y == l - r
    } else if assignment == 9 {
        x == l - r && y == r
    } else {
        y == l - r && 2 * x <= l + r <= 2 * x + 1
    }
}

/// Every stereo mode is undone exactly.
pub proof fn lemma_stereo_undone(
    assignment: nat,
    l: Seq<i32>,
    r: Seq<i32>,
    x: Seq<i32>,
    y: Seq<i32>,
)
    requires
        8 <= assignment <= 10,
        l.len() == r.len() == x.len() == y.len(),
        forall|i: int|
            0 <= i < l.len() ==> stereo_pair(
                assignment,
                #[trigger] l[i],
                r[i],
                x[i],
                y[i],
            ),
    ensures
        grammar::undo_stereo(assignment, seq![x, y]) == seq![l, r],
{
    let u = grammar::undo_stereo(assignment, seq![x, y]);
    assert forall|i: int| 0 <= i < l.len() implies u[0][i] == l[i] && u[1][i] == r[i] by {
        assert(stereo_pair(assignment, l[i], r[i], x[i], y[i]));
        arith::lemma_wrap32_in_range(l[i] as int);
        arith::lemma_wrap32_in_range(r[i] as int);
        if assignment == 10 {
            lemma_mid_side(l[i], r[i], x[i], y[i]);
        }
    }
    assert(u[0] =~= l);
    assert(u[1] =~= r);
    assert(u =~= seq![l, r]);
}

proof fn lemma_mid_side(l: i32, r: i32, m: i32, s: i32)
    requires
        s == l - r,
        2 * m <= l + r <= 2 * m + 1,
    ensures
        grammar::mid_side_left(m, s) == l,
        grammar::mid_side_right(m, s) == r,
{
    assert(2 * m + s as int % 2 == l + r);
    arith::lemma_wrap32_in_range(l as int);
    arith::lemma_wrap32_in_range(r as int);
}

/// Channels that are not coupled are the subframes themselves.
pub proof fn lemma_uncoupled(assignment: nat, subs: Seq<Seq<i32>>)
    requires
        assignment <= 7,
    ensures
        grammar::undo_stereo(assignment, subs) == subs,
{
}

// ---------------------------------------------------------------------------
// Frames
// ---------------------------------------------------------------------------
/// The subframes of a frame are read one behind the other, from the end of its
/// header on. A side channel has a bit more than the others.
pub open spec fn subframes_stand(
    b: Seq<bool>,
    h: HeaderModel,
    subs: Seq<Seq<i32>>,
    at: Seq<int>,
) -> bool {
    &&& at.len() == subs.len() + 1
    &&& at[0] == h.end
    &&& forall|c: int|
        0 <= c < subs.len() ==> grammar::read_subframe(
            b,
            at[c],
            h.block_size,
            (if (h.assignment == 8 && c == 1) || (h.assignment == 9 && c == 0) || (h.assignment
                == 10 && c == 1) {
                h.depth + 1
            } else {
                h.depth
            }),
        ) == Ok::<(Seq<i32>, int), DecodeError>((#[trigger] subs[c], at[c + 1]))
}

proof fn lemma_subframes_prefix(
    b: Seq<bool>,
    h: HeaderModel,
    subs: Seq<Seq<i32>>,
    at: Seq<int>,
    n: nat,
)
    requires
        subframes_stand(b, h, subs, at),
        n <= subs.len(),
    ensures
        grammar::read_subframes(b, h, n) == Ok::<(Seq<Seq<i32>>, int), DecodeError>(
            (subs.take(n as int), at[n as int]),
        ),
    decreases n,
{
    if n == 0 {
        assert(subs.take(0) =~= Seq::empty());
    } else {
        let m = (n - 1) as nat;
        lemma_subframes_prefix(b, h, subs, at, m);
        let last = subs[n - 1];
        assert(subs.take(m as int).push(last) =~= subs.take(n as int));
    }
}

/// A frame is accepted where its header is, its subframes are, and the sixteen
/// bits at the next whole byte are the checksum of all bytes before them; it
/// holds the channels behind its subframes, and ends behind the checksum.
pub proof fn lemma_frame_accepted(
    rest: Seq<u8>,
    info: InfoModel,
    h: HeaderModel,
    subs: Seq<Seq<i32>>,
    at: Seq<int>,
    n: int,
)
    requires
        grammar::read_header(rest, info) == Ok::<HeaderModel, DecodeError>(h),
        h.depth < 32 || h.assignment < 8,
        subs.len() == info.channels,
        subframes_stand(bits::byte_bits(rest), h, subs, at),
        at.last() >= 0,
        8 * (n - 1) < at.last() <= 8 * n,
        n + 2 <= rest.len(),
        rest[n] * 0x100 + rest[n + 1] == crc::crc16_of(rest.take(n)),
    ensures
        grammar::read_frame(rest, info) == Ok::<FrameModel, DecodeError>(
            FrameModel {
                block_size: h.block_size,
                channels: grammar::undo_stereo(h.assignment, subs),
                len: n + 2,
            },
        ),
{
    broadcast use bits::lemma_byte_bits_len;

    reveal(grammar::read_frame);
    let b = bits::byte_bits(rest);
    lemma_subframes_prefix(b, h, subs, at, subs.len());
    assert(subs.take(subs.len() as int) =~= subs);
    let q = at.last();
    assert(q + bits::padding(q as nat) == 8 * n);
    interop::lemma_two_bytes(rest, n);
}

// ---------------------------------------------------------------------------
// Side channels of 33 bits
// ---------------------------------------------------------------------------
/// Samples of `w` bits each, up to 33, stand one behind the other from `p` on.
pub open spec fn wide_numbers_stand(b: Seq<bool>, p: int, w: nat, s: Seq<i64>) -> bool {
    forall|i: int| 0 <= i < s.len() ==> holds(b, p + w * i, w, #[trigger] s[i] as int)
}

proof fn lemma_wide_numbers_read(b: Seq<bool>, p: int, w: nat, s: Seq<i64>, n: nat)
    requires
        wide_numbers_stand(b, p, w, s),
        n <= s.len(),
    ensures
        wide::read_samples(b, p, w, n) == Some((s.take(n as int), p + w * n)),
    decreases n,
{
    if n == 0 {
        assert(s.take(0) =~= Seq::empty());
        assert(w * 0 == 0) by (nonlinear_arith);
    } else {
        let m = (n - 1) as nat;
        lemma_wide_numbers_read(b, p, w, s, m);
        assert(holds(b, p + w * (n - 1), w, s[n - 1] as int));
        assert(w * m + w == w * n) by (nonlinear_arith)
            requires
                m + 1 == n,
        ;
        lemma_number_read(b, p + w * m, w, s[n - 1] as int);
        assert(s.take(m as int).push(s[n - 1]) =~= s.take(n as int));
    }
}

/// The fixed polynomials are those of 32 bits, and so is a weighted sum.
pub proof fn lemma_wide_prediction(s: Seq<i32>, i: int, coeffs: Seq<i32>, order: nat)
    requires
        order <= 4,
        order <= i <= s.len(),
        coeffs.len() <= i,
    ensures
        wide::polynomial(order).len() == order,
        wide::weighted(wide::widened(s), i, wide::polynomial(order), order)
            == (Predictor::Fixed { order }).predict(s, i),
        wide::weighted(wide::widened(s), i, coeffs, coeffs.len()) == predict::lpc_sum(
            s,
            i,
            coeffs,
            coeffs.len(),
        ),
{
    lemma_wide_sum(s, i, coeffs, coeffs.len());
    lemma_wide_sum(s, i, wide::polynomial(order), order);
    reveal_with_fuel(predict::lpc_sum, 5);
    let c = wide::polynomial(order);
    if order == 1 {
        lemma_term(c[0], 1, s[i - 1]);
    } else if order == 2 {
        lemma_term(c[0], 2, s[i - 1]);
        lemma_term(c[1], -1, s[i - 2]);
    } else if order == 3 {
        lemma_term(c[0], 3, s[i - 1]);
        lemma_term(c[1], -3, s[i - 2]);
        lemma_term(c[2], 1, s[i - 3]);
    } else if order == 4 {
        lemma_term(c[0], 4, s[i - 1]);
        lemma_term(c[1], -6, s[i - 2]);
        lemma_term(c[2], 4, s[i - 3]);
        lemma_term(c[3], -1, s[i - 4]);
    }
}

/// A product with a small constant.
proof fn lemma_term(c: i32, k: int, x: i32)
    requires
        c == k,
        k == -6 || k == -3 || k == -1 || k == 1 || k == 2 || k == 3 || k == 4,
    ensures
        c * x == (if k == -6 {
            -6 * x
        } else if k == -3 {
            -3 * x
        } else if k == -1 {
            -x
        } else if k == 1 {
            x as int
        } else if k == 2 {
            2 * x
        } else if k == 3 {
            3 * x
        } else {
            4 * x
        }),
{
    let a = c as int;
    let y = x as int;
    assert(a == -6 ==> a * y == -6 * y) by (nonlinear_arith);
    assert(a == -3 ==> a * y == -3 * y) by (nonlinear_arith);
    assert(a == -1 ==> a * y == -y) by (nonlinear_arith);
    assert(a == 1 ==> a * y == y) by (nonlinear_arith);
    assert(a == 2 ==> a * y == 2 * y) by (nonlinear_arith);
    assert(a == 3 ==> a * y == 3 * y) by (nonlinear_arith);
    assert(a == 4 ==> a * y == 4 * y) by (nonlinear_arith);
}

proof fn lemma_wide_sum(s: Seq<i32>, i: int, coeffs: Seq<i32>, n: nat)
    requires
        n <= i <= s.len(),
    ensures
        wide::weighted(wide::widened(s), i, coeffs, n) == predict::lpc_sum(s, i, coeffs, n),
    decreases n,
{
    if n > 0 {
        lemma_wide_sum(s, i, coeffs, (n - 1) as nat);
        assert(wide::widened(s)[i - n] == s[i - n]);
    }
}

/// What a predictor leaves of a block of 33 bits, where that is numbers of 32
/// bits.
pub open spec fn wide_residual(t: Seq<i64>, coeffs: Seq<i32>, shift: nat, res: Seq<i32>) -> bool {
    &&& res.len() + coeffs.len() == t.len()
    &&& forall|j: int|
        0 <= j < res.len() ==> #[trigger] res[j] == t[coeffs.len() + j] - wide::weighted(
            t,
            coeffs.len() + j,
            coeffs,
            coeffs.len(),
        ) / (pow2(shift) as int)
}

/// Prediction is lossless at 33 bits too.
proof fn lemma_wide_restores(t: Seq<i64>, coeffs: Seq<i32>, shift: nat, res: Seq<i32>, n: nat)
    requires
        wide::fits(t),
        wide_residual(t, coeffs, shift, res),
        n <= t.len(),
    ensures
        wide::restored(
            coeffs,
            shift,
            t.take(coeffs.len() as int) + wide::widened(res),
            n,
        ) == t.take(n as int),
    decreases n,
{
    let buf = t.take(coeffs.len() as int) + wide::widened(res);
    if n <= coeffs.len() {
        assert(buf.take(n as int) =~= t.take(n as int));
    } else {
        lemma_wide_restores(t, coeffs, shift, res, (n - 1) as nat);
        let before = t.take(n - 1);
        wide::lemma_weighted_prefix(t, before, n - 1, coeffs, coeffs.len());
        let j = n - 1 - coeffs.len();
        assert(res[j] == t[coeffs.len() + j] - wide::weighted(
            t,
            coeffs.len() + j,
            coeffs,
            coeffs.len(),
        ) / (pow2(shift) as int));
        assert(buf[n - 1] == res[j]);
        assert(-0x1_0000_0000 <= t[n - 1] < 0x1_0000_0000);
        assert(wide::wrap33(t[n - 1] as int) == t[n - 1]);
        assert(before.push(t[n - 1]) =~= t.take(n as int));
    }
}

/// Samples of 33 bits with their wasted bits put back.
pub open spec fn wide_scaled(s: Seq<i64>, out: Seq<i64>, wasted: nat) -> bool {
    &&& out.len() == s.len()
    &&& wide::fits(out)
    &&& forall|i: int| 0 <= i < s.len() ==> #[trigger] out[i] == s[i] * pow2(wasted)
}

proof fn lemma_wide_scaled(s: Seq<i64>, out: Seq<i64>, wasted: nat)
    requires
        wide_scaled(s, out, wasted),
    ensures
        wide::shifted_up(s, wasted) == out,
{
    assert forall|i: int| 0 <= i < s.len() implies wide::shifted_up(s, wasted)[i] == out[i] by {
        assert(out[i] == s[i] * pow2(wasted));
        assert(-0x1_0000_0000 <= out[i] < 0x1_0000_0000);
    }
    assert(wide::shifted_up(s, wasted) =~= out);
}

/// A side channel of 33 bits that is constant or raw is read as its samples.
pub proof fn lemma_wide_plain_read(
    b: Seq<bool>,
    p: int,
    wasted: nat,
    q: int,
    s: Seq<i64>,
    constant: bool,
    out: Seq<i64>,
)
    requires
        s.len() >= 1,
        head_stands(
            b,
            p,
            (if constant {
                0
            } else {
                1
            }),
            wasted,
            q,
        ),
        wasted < 33,
        constant ==> holds(b, q, (33 - wasted) as nat, s[0] as int) && forall|i: int|
            0 <= i < s.len() ==> #[trigger] s[i] == s[0],
        !constant ==> wide_numbers_stand(b, q, (33 - wasted) as nat, s),
        wide_scaled(s, out, wasted),
    ensures
        wide::read_subframe(b, p, s.len()) == Ok::<(Seq<i64>, int), DecodeError>(
            (
                out,
                if constant {
                    q + 33 - wasted
                } else {
                    q + (33 - wasted) * s.len()
                },
            ),
        ),
{
    reveal(wide::read_subframe);
    let w = (33 - wasted) as nat;
    lemma_wide_scaled(s, out, wasted);
    if constant {
        lemma_head_read(b, p, 33, 0, wasted, q);
        let one = seq![s[0]];
        assert(w * 0 == 0) by (nonlinear_arith);
        assert(w * 1 == w) by (nonlinear_arith);
        assert(wide_numbers_stand(b, q, w, one));
        lemma_wide_numbers_read(b, q, w, one, 1);
        assert(one.take(1) =~= one);
        assert(Seq::new(s.len(), |i: int| one[0]) =~= s);
    } else {
        lemma_head_read(b, p, 33, 1, wasted, q);
        lemma_wide_numbers_read(b, q, w, s, s.len());
        assert(s.take(s.len() as int) =~= s);
    }
}

/// A subframe of 33 bits is what its body is, with the wasted bits put back.
proof fn lemma_wide_body_read(
    b: Seq<bool>,
    p: int,
    ty: nat,
    wasted: nat,
    q: int,
    s: Seq<i64>,
    end: int,
    out: Seq<i64>,
)
    requires
        head_stands(b, p, ty, wasted, q),
        wasted < 33,
        wide::read_body(b, q, ty, (33 - wasted) as nat, s.len()) == Ok::<
            (Seq<i64>, int),
            DecodeError,
        >((s, end)),
        wide_scaled(s, out, wasted),
    ensures
        wide::read_subframe(b, p, s.len()) == Ok::<(Seq<i64>, int), DecodeError>((out, end)),
{
    reveal(wide::read_subframe);
    lemma_head_read(b, p, 33, ty, wasted, q);
    lemma_wide_scaled(s, out, wasted);
}

/// Warm-up samples and what a predictor leaves of the rest are read as the
/// block.
proof fn lemma_wide_predicted(
    b: Seq<bool>,
    p: int,
    s: Seq<i64>,
    coeffs: Seq<i32>,
    shift: nat,
    res: Seq<i32>,
    end: int,
)
    requires
        coeffs.len() <= s.len(),
        wide::fits(s),
        wide_residual(s, coeffs, shift, res),
        grammar::read_residual(b, p, s.len(), coeffs.len()) == Ok::<(Seq<i32>, int), DecodeError>(
            (res, end),
        ),
    ensures
        wide::read_predicted(
            b,
            p,
            s.len(),
            s.take(coeffs.len() as int),
            coeffs,
            shift,
        ) == Ok::<(Seq<i64>, int), DecodeError>((s, end)),
{
    lemma_wide_restores(s, coeffs, shift, res, s.len());
    assert(s.take(s.len() as int) =~= s);
}

/// The body behind a fixed polynomial.
proof fn lemma_wide_fixed_body(
    b: Seq<bool>,
    q: int,
    w: nat,
    order: nat,
    s: Seq<i64>,
    end: int,
)
    requires
        order <= 4,
        order <= s.len(),
        wide_numbers_stand(b, q, w, s.take(order as int)),
        wide::read_predicted(
            b,
            q + w * order,
            s.len(),
            s.take(order as int),
            wide::polynomial(order),
            0,
        ) == Ok::<(Seq<i64>, int), DecodeError>((s, end)),
    ensures
        wide::read_body(b, q, 8 + order, w, s.len()) == Ok::<(Seq<i64>, int), DecodeError>(
            (s, end),
        ),
{
    let warm = s.take(order as int);
    lemma_wide_numbers_read(b, q, w, warm, order);
    assert(warm.take(order as int) =~= warm);
}

/// A side channel of 33 bits behind a fixed polynomial is read as its samples.
pub proof fn lemma_wide_fixed_read(
    b: Seq<bool>,
    p: int,
    wasted: nat,
    q: int,
    order: nat,
    s: Seq<i64>,
    res: Seq<i32>,
    end: int,
    out: Seq<i64>,
)
    requires
        order <= 4,
        order <= s.len(),
        head_stands(b, p, 8 + order, wasted, q),
        wasted < 33,
        wide::fits(s),
        wide_numbers_stand(b, q, (33 - wasted) as nat, s.take(order as int)),
        wide_residual(s, wide::polynomial(order), 0, res),
        grammar::read_residual(b, q + (33 - wasted) * order, s.len(), order) == Ok::<
            (Seq<i32>, int),
            DecodeError,
        >((res, end)),
        wide_scaled(s, out, wasted),
    ensures
        wide::read_subframe(b, p, s.len()) == Ok::<(Seq<i64>, int), DecodeError>((out, end)),
{
    let w = (33 - wasted) as nat;
    assert(wide::polynomial(order).len() == order);
    lemma_wide_predicted(b, q + w * order, s, wide::polynomial(order), 0, res, end);
    lemma_wide_fixed_body(b, q, w, order, s, end);
    lemma_wide_body_read(b, p, 8 + order, wasted, q, s, end, out);
}

/// A side channel of 33 bits behind a linear predictor is read as its samples.
pub proof fn lemma_wide_linear_read(
    b: Seq<bool>,
    p: int,
    wasted: nat,
    q: int,
    coeffs: Seq<i32>,
    shift: nat,
    precision: nat,
    s: Seq<i64>,
    res: Seq<i32>,
    end: int,
    out: Seq<i64>,
)
    requires
        1 <= coeffs.len() <= 32,
        coeffs.len() <= s.len(),
        head_stands(b, p, (31 + coeffs.len()) as nat, wasted, q),
        wasted < 33,
        wide::fits(s),
        wide_numbers_stand(b, q, (33 - wasted) as nat, s.take(coeffs.len() as int)),
        wide_residual(s, coeffs, shift, res),
        ({
            let q1 = q + (33 - wasted) * coeffs.len();
            &&& 1 <= precision <= 15
            &&& q1 + 4 <= b.len()
            &&& grammar::uint(b, q1, 4) == precision - 1
            &&& holds(b, q1 + 4, 5, shift as int)
            &&& numbers_stand(b, q1 + 9, precision, coeffs)
            &&& grammar::read_residual(
                b,
                q1 + 9 + precision * coeffs.len(),
                s.len(),
                coeffs.len(),
            ) == Ok::<(Seq<i32>, int), DecodeError>((res, end))
        }),
        wide_scaled(s, out, wasted),
    ensures
        wide::read_subframe(b, p, s.len()) == Ok::<(Seq<i64>, int), DecodeError>((out, end)),
{
    let order = coeffs.len();
    let w = (33 - wasted) as nat;
    let q1 = q + (33 - wasted) * order;
    let warm = s.take(order as int);
    lemma_wide_numbers_read(b, q, w, warm, order);
    assert(warm.take(order as int) =~= warm);
    lemma_number_read(b, q1 + 4, 5, shift as int);
    lemma_numbers_read(b, q1 + 9, precision, coeffs);
    lemma_wide_predicted(b, q1 + 9 + precision * order, s, coeffs, shift, res, end);
    let ty = (31 + order) as nat;
    assert(wide::read_body(b, q, ty, w, s.len()) == wide::read_predictive(
        b,
        q,
        w,
        s.len(),
        order,
        false,
    ));
    lemma_wide_body_read(b, p, ty, wasted, q, s, end, out);
}

/// The left and right samples behind a pair with a side of 33 bits: `x` is
/// left, right, or the mean rounded down.
pub open spec fn wide_stereo_pair(assignment: nat, l: i32, r: i32, x: i32, side: i64) -> bool {
    &&& side == l - r
    &&& if assignment == 8 {
        x == l
    } else if assignment == 9 {
        x == r
    } else {
        2 * x <= l + r <= 2 * x + 1
    }
}

/// A stereo frame of 32-bit samples is accepted where its header is, its two
/// subframes are (the side first with assignment 9, second with 8 and 10) and
/// its checksum is; it holds the left and the right channel.
pub proof fn lemma_wide_frame_accepted(
    rest: Seq<u8>,
    info: InfoModel,
    h: HeaderModel,
    x: Seq<i32>,
    side: Seq<i64>,
    l: Seq<i32>,
    r: Seq<i32>,
    mid: int,
    end: int,
    n: int,
)
    requires
        grammar::read_header(rest, info) == Ok::<HeaderModel, DecodeError>(h),
        h.depth == 32,
        8 <= h.assignment <= 10,
        ({
            let b = bits::byte_bits(rest);
            if h.assignment == 9 {
                &&& wide::read_subframe(b, h.end, h.block_size) == Ok::<
                    (Seq<i64>, int),
                    DecodeError,
                >((side, mid))
                &&& grammar::read_subframe(b, mid, h.block_size, 32) == Ok::<
                    (Seq<i32>, int),
                    DecodeError,
                >((x, end))
            } else {
                &&& grammar::read_subframe(b, h.end, h.block_size, 32) == Ok::<
                    (Seq<i32>, int),
                    DecodeError,
                >((x, mid))
                &&& wide::read_subframe(b, mid, h.block_size) == Ok::<
                    (Seq<i64>, int),
                    DecodeError,
                >((side, end))
            }
        }),
        l.len() == r.len() == x.len() == side.len(),
        forall|i: int|
            0 <= i < l.len() ==> wide_stereo_pair(
                h.assignment,
                #[trigger] l[i],
                r[i],
                x[i],
                side[i],
            ),
        end >= 0,
        8 * (n - 1) < end <= 8 * n,
        n + 2 <= rest.len(),
        rest[n] * 0x100 + rest[n + 1] == crc::crc16_of(rest.take(n)),
    ensures
        grammar::read_frame(rest, info) == Ok::<FrameModel, DecodeError>(
            FrameModel { block_size: h.block_size, channels: seq![l, r], len: n + 2 },
        ),
{
    broadcast use bits::lemma_byte_bits_len;

    reveal(grammar::read_frame);
    assert(end + bits::padding(end as nat) == 8 * n);
    interop::lemma_two_bytes(rest, n);
    lemma_wide_undone(h.assignment, l, r, x, side);
}

proof fn lemma_wide_undone(
    assignment: nat,
    l: Seq<i32>,
    r: Seq<i32>,
    x: Seq<i32>,
    side: Seq<i64>,
)
    requires
        8 <= assignment <= 10,
        l.len() == r.len() == x.len() == side.len(),
        forall|i: int|
            0 <= i < l.len() ==> wide_stereo_pair(
                assignment,
                #[trigger] l[i],
                r[i],
                x[i],
                side[i],
            ),
    ensures
        wide::undone(assignment, x, side) == Some(seq![l, r]),
{
    assert forall|i: int| 0 <= i < x.len() implies #[trigger] wide::are_samples(
        assignment,
        x[i],
        side[i],
    ) && wide::left_of(assignment, x[i], side[i]) == l[i] && wide::right_of(
        assignment,
        x[i],
        side[i],
    ) == r[i] by {
        assert(wide_stereo_pair(assignment, l[i], r[i], x[i], side[i]));
        if assignment == 10 {
            assert(2 * x[i] + side[i] as int % 2 == l[i] + r[i]);
        }
    }
    let left = Seq::new(x.len(), |i: int| wide::left_of(assignment, x[i], side[i]) as i32);
    let right = Seq::new(x.len(), |i: int| wide::right_of(assignment, x[i], side[i]) as i32);
    assert forall|i: int| 0 <= i < x.len() implies left[i] == l[i] && right[i] == r[i] by {
        assert(wide::are_samples(assignment, x[i], side[i]));
    }
    assert(left =~= l);
    assert(right =~= r);
}

// ---------------------------------------------------------------------------
// What is refused
// ---------------------------------------------------------------------------
/// A subframe that starts with a one, has a reserved type, or wastes all of its
/// bits is refused.
pub proof fn lemma_subframe_refused(
    b: Seq<bool>,
    p: int,
    bs: nat,
    depth: nat,
    ty: nat,
    wasted: nat,
    q: int,
)
    requires
        1 <= depth <= 32,
        wasted < 0x1_0000_0000,
    ensures
        0 <= p < b.len() && b[p] ==> grammar::read_subframe(b, p, bs, depth) == Err::<
            (Seq<i32>, int),
            DecodeError,
        >(DecodeError::BadSubframe("padding bit")),
        head_stands(b, p, ty, wasted, q) && wasted >= depth ==> grammar::read_subframe(
            b,
            p,
            bs,
            depth,
        ) == Err::<(Seq<i32>, int), DecodeError>(DecodeError::BadSubframe("wasted bits >= bps")),
        head_stands(b, p, ty, wasted, q) && wasted < depth && (2 <= ty <= 7 || 13 <= ty <= 31)
            ==> grammar::read_subframe(b, p, bs, depth) == Err::<(Seq<i32>, int), DecodeError>(
            DecodeError::BadSubframe("reserved type"),
        ),
{
    reveal(grammar::read_subframe);
    if 0 <= p < b.len() {
        lemma_one_bit(b, p);
    }
    if head_stands(b, p, ty, wasted, q) {
        if wasted < depth {
            lemma_head_read(b, p, depth, ty, wasted, q);
        } else {
            lemma_one_bit(b, p + 7);
            bits::lemma_first_one_skip(b, p + 8, q - 1);
            assert(bits::first_one(b, p + 8) == q - 1);
        }
    }
}

/// A residual is refused where its method is neither 0 nor 1, where its
/// partitions do not share the block evenly, and where the warm-up samples are
/// more than the first partition.
pub proof fn lemma_residual_refused(b: Seq<bool>, p: int, bs: nat, order: nat)
    requires
        0 <= p,
        p + 6 <= b.len(),
    ensures
        grammar::uint(b, p, 2) >= 2 ==> grammar::read_residual(b, p, bs, order) == Err::<
            (Seq<i32>, int),
            DecodeError,
        >(DecodeError::BadSubframe("residual method")),
        grammar::uint(b, p, 2) <= 1 && (bs % pow2(grammar::uint(b, p + 2, 4)) != 0 || bs / pow2(
            grammar::uint(b, p + 2, 4),
        ) < order) ==> grammar::read_residual(b, p, bs, order) == Err::<
            (Seq<i32>, int),
            DecodeError,
        >(DecodeError::BadSubframe("partition geometry")),
{
}

/// A linear predictor of precision 16, or with a negative shift, is refused.
pub proof fn lemma_predictor_refused(b: Seq<bool>, q: int, order: nat)
    requires
        0 <= q,
        q + 9 <= b.len(),
    ensures
        grammar::uint(b, q, 4) == 15 ==> grammar::read_predictor(b, q, order) == Err::<
            (Seq<i32>, nat, int),
            DecodeError,
        >(DecodeError::BadSubframe("qlp precision 16")),
        grammar::uint(b, q, 4) != 15 && b[q + 4] ==> grammar::read_predictor(b, q, order) == Err::<
            (Seq<i32>, nat, int),
            DecodeError,
        >(DecodeError::BadSubframe("negative shift")),
{
    let s = b.subrange(q + 4, q + 9);
    assert(s[0] == b[q + 4]);
    bits::lemma_value_bound(s);
}

/// A frame with a wrong checksum is refused, whatever it holds.
pub proof fn lemma_frame_refused(
    rest: Seq<u8>,
    info: InfoModel,
    h: HeaderModel,
    subs: Seq<Seq<i32>>,
    at: Seq<int>,
    n: int,
)
    requires
        grammar::read_header(rest, info) == Ok::<HeaderModel, DecodeError>(h),
        h.depth < 32 || h.assignment < 8,
        subs.len() == info.channels,
        subframes_stand(bits::byte_bits(rest), h, subs, at),
        at.last() >= 0,
        8 * (n - 1) < at.last() <= 8 * n,
    ensures
        n + 2 > rest.len() ==> grammar::read_frame(rest, info) == Err::<FrameModel, DecodeError>(
            DecodeError::Truncated,
        ),
        n + 2 <= rest.len() && rest[n] * 0x100 + rest[n + 1] != crc::crc16_of(rest.take(n))
            ==> grammar::read_frame(rest, info) == Err::<FrameModel, DecodeError>(
            DecodeError::BadFrameCrc,
        ),
{
    broadcast use bits::lemma_byte_bits_len;

    reveal(grammar::read_frame);
    let b = bits::byte_bits(rest);
    lemma_subframes_prefix(b, h, subs, at, subs.len());
    assert(subs.take(subs.len() as int) =~= subs);
    let q = at.last();
    assert(q + bits::padding(q as nat) == 8 * n);
    if n + 2 <= rest.len() {
        interop::lemma_two_bytes(rest, n);
    }
}

} // verus!
