//! Whatever is written reads back: the laws that connect the encoder's bits
//! with the decoder's grammar, from single numbers up to subframes.
use crate::arith;
use crate::arm;
use crate::arm::ArmModel;
use crate::bits;
use crate::choice;
use crate::choice::{AnalysisModel, KindModel};
use crate::grammar;
use crate::partition;
use crate::partition::PlanModel;
use crate::predict;
use crate::rice;
use crate::subframe;
use vstd::arithmetic::div_mod::*;
use vstd::arithmetic::power2::*;
use vstd::prelude::*;

verus! {

/// Every sample fits into `w` bits.
pub open spec fn fits(s: Seq<i32>, w: nat) -> bool {
    forall|i: int|
        0 <= i < s.len() ==> -pow2((w - 1) as nat) <= #[trigger] s[i] < pow2((w - 1) as nat)
}

// ---------------------------------------------------------------------------
// Numbers
// ---------------------------------------------------------------------------
/// An unsigned number reads back where it stands.
pub proof fn lemma_uint_round_trip(b: Seq<bool>, p: int, v: int, n: nat)
    requires
        bits::stands_at(b, p, bits::field(v, n)),
        0 <= v < pow2(n),
    ensures
        grammar::room(b, p, n),
        grammar::uint(b, p, n) == v,
        bits::read_uint(b, p, n) == Some((v as nat, p + n)),
{
    broadcast use bits::group_bits_len;

    bits::lemma_value_field(v, n);
    lemma_small_mod(v as nat, pow2(n));
}

/// A two's complement number reads back where it stands.
pub proof fn lemma_int_round_trip(b: Seq<bool>, p: int, v: int, n: nat)
    requires
        bits::stands_at(b, p, bits::field(v, n)),
        n >= 1,
        -pow2((n - 1) as nat) <= v < pow2((n - 1) as nat),
    ensures
        bits::read_int(b, p, n) == Some((v, p + n)),
{
    broadcast use bits::group_bits_len;

    bits::lemma_signed_field(v, n);
}

pub proof fn lemma_ints_len(s: Seq<i32>, w: nat)
    ensures
        subframe::ints_bits(s, w).len() == s.len() * w,
    decreases s.len(),
{
    broadcast use bits::group_bits_len;

    if s.len() > 0 {
        lemma_ints_len(s.drop_last(), w);
        assert((s.len() - 1) * w + w == s.len() * w) by (nonlinear_arith);
    } else {
        assert(0 * w == 0) by (nonlinear_arith);
    }
}

/// Numbers of equal width read back where they stand.
pub proof fn lemma_ints_round_trip(b: Seq<bool>, p: int, s: Seq<i32>, w: nat)
    requires
        bits::stands_at(b, p, subframe::ints_bits(s, w)),
        1 <= w,
        fits(s, w),
    ensures
        grammar::read_ints(b, p, w, s.len()) == Some((s, p + subframe::ints_bits(s, w).len())),
    decreases s.len(),
{
    broadcast use bits::group_bits_len;

    if s.len() == 0 {
        assert(s =~= Seq::empty());
    } else {
        let t = s.drop_last();
        let head = subframe::ints_bits(t, w);
        let last = bits::field(s.last() as int, w);
        bits::lemma_stands_split(b, p, head, last);
        assert(fits(t, w)) by {
            assert forall|i: int| 0 <= i < t.len() implies -pow2((w - 1) as nat) <= #[trigger] t[i]
                < pow2((w - 1) as nat) by {
                assert(t[i] == s[i]);
            }
        }
        lemma_ints_round_trip(b, p, t, w);
        assert(s[s.len() - 1] == s.last());
        lemma_int_round_trip(b, p + head.len(), s.last() as int, w);
        assert(t.push(s.last()) =~= s);
    }
}

// ---------------------------------------------------------------------------
// Residuals
// ---------------------------------------------------------------------------
/// A Rice code reads back where it stands.
pub proof fn lemma_rice_round_trip(b: Seq<bool>, p: int, v: i32, k: nat)
    requires
        bits::stands_at(b, p, rice::rice_code(v as int, k)),
    ensures
        bits::read_rice(b, p, k) == Some(
            (rice::fold(v as int) as u32, p + rice::rice_code(v as int, k).len()),
        ),
{
    broadcast use bits::group_bits_len;

    let u = rice::fold(v as int);
    let m = pow2(k);
    lemma_pow2_pos(k);
    let q = u / m;
    let z = bits::zeros(q);
    let one = seq![true];
    let low = bits::field(u as int, k);
    bits::lemma_stands_split(b, p, z + one, low);
    bits::lemma_stands_split(b, p, z, one);
    assert forall|i: int| p <= i < p + q implies !b[i] by {
        assert(b.subrange(p, p + q)[i - p] == z[i - p]);
    }
    assert(b[p + q]) by {
        assert(b.subrange(p + q, p + q + 1)[0] == one[0]);
    }
    bits::lemma_first_one_skip(b, p, p + q);
    assert(bits::first_one(b, p) == p + q);
    bits::lemma_value_field(u as int, k);
    lemma_fundamental_div_mod(u as int, m as int);
    assert(m * q == q * m) by (nonlinear_arith);
    rice::lemma_fold_bound(v);
}

/// Rice codes read back where they stand.
pub proof fn lemma_codes_round_trip(b: Seq<bool>, p: int, res: Seq<i32>, k: nat)
    requires
        p >= 0,
        bits::stands_at(b, p, rice::rice_codes(res, k)),
    ensures
        grammar::read_codes(b, p, k, res.len()) == Some(
            (res, p + rice::rice_codes(res, k).len()),
        ),
    decreases res.len(),
{
    if res.len() == 0 {
        assert(res =~= Seq::empty());
    } else {
        let t = res.drop_last();
        let head = rice::rice_codes(t, k);
        let last = rice::rice_code(res.last() as int, k);
        bits::lemma_stands_split(b, p, head, last);
        lemma_codes_round_trip(b, p, t, k);
        lemma_rice_round_trip(b, p + head.len(), res.last(), k);
        rice::lemma_fold_bound(res.last());
        rice::lemma_fold_unfold(res.last() as int);
        assert(t.push(res.last()) =~= res);
    }
}

/// A partition reads back where it stands.
proof fn lemma_partition_round_trip(b: Seq<bool>, p: int, part: Seq<i32>, k: nat, method: nat)
    requires
        p >= 0,
        method <= 1,
        k <= rice::kmax_of(method),
        bits::stands_at(b, p, bits::field(k as int, 4 + method) + rice::rice_codes(part, k)),
    ensures
        grammar::read_partition(b, p, method, part.len()) == Some(
            (part, p + 4 + method + rice::rice_codes(part, k).len()),
        ),
{
    broadcast use bits::group_bits_len;

    lemma2_to64();
    let f = bits::field(k as int, 4 + method);
    bits::lemma_stands_split(b, p, f, rice::rice_codes(part, k));
    lemma_uint_round_trip(b, p, k as int, 4 + method);
    lemma_codes_round_trip(b, p + 4 + method, part, k);
}

/// The samples of the first `n` partitions of a residual.
pub open spec fn parts_end(bs: nat, p: nat, po: nat, n: nat) -> int {
    if n == 0 {
        0
    } else {
        n * (bs / pow2(po)) - p
    }
}

/// The first partitions of a residual body read back where they stand.
proof fn lemma_partitions_round_trip(
    b: Seq<bool>,
    at: int,
    res: Seq<i32>,
    bs: nat,
    p: nat,
    plan: PlanModel,
    n: nat,
)
    requires
        at >= 0,
        partition::fits(plan, res.len(), bs, p),
        n <= pow2(plan.order),
        bits::stands_at(b, at, partition::body_bits(res, bs, p, plan, n)),
    ensures
        0 <= parts_end(bs, p, plan.order, n) <= res.len(),
        grammar::read_partitions(b, at, plan.method, bs / pow2(plan.order), p, n) == Some(
            (
                res.take(parts_end(bs, p, plan.order, n)),
                at + partition::body_bits(res, bs, p, plan, n).len(),
            ),
        ),
    decreases n,
{
    broadcast use bits::group_bits_len;

    let po = plan.order;
    let size = bs / pow2(po);
    if n == 0 {
        assert(res.take(0) =~= Seq::empty());
    } else {
        let m = (n - 1) as nat;
        let head = partition::body_bits(res, bs, p, plan, m);
        let k = plan.ks[n - 1] as nat;
        let part = partition::partition(res, bs, p, po, n - 1);
        let f = bits::field(k as int, 4 + plan.method);
        let codes = rice::rice_codes(part, k);
        assert((head + f) + codes =~= head + (f + codes));
        bits::lemma_stands_split(b, at, head, f + codes);
        lemma_partitions_round_trip(b, at, res, bs, p, plan, m);
        partition::lemma_partition_range(res.len(), bs, p, po, n - 1);
        partition::lemma_partition_len(res, bs, p, po, n - 1);
        assert(plan.ks[n - 1] <= rice::kmax_of(plan.method));
        lemma_partition_round_trip(b, at + head.len(), part, k, plan.method);
        assert((m as int) * size + size == (n as int) * size) by (nonlinear_arith)
            requires
                m + 1 == n,
        ;
        let from = parts_end(bs, p, po, m);
        assert(from == (if n - 1 == 0 {
            0
        } else {
            (n - 1) * size - p
        }));
        assert(res.take(from) + part =~= res.take(parts_end(bs, p, po, n)));
    }
}

/// A residual coded with any plan that fits it reads back where it stands.
pub proof fn lemma_plan_round_trip(
    b: Seq<bool>,
    at: int,
    res: Seq<i32>,
    bs: nat,
    p: nat,
    plan: PlanModel,
)
    requires
        at >= 0,
        partition::fits(plan, res.len(), bs, p),
        bits::stands_at(
            b,
            at,
            bits::field(plan.method as int, 2) + bits::field(plan.order as int, 4)
                + partition::body_bits(res, bs, p, plan, pow2(plan.order)),
        ),
    ensures
        grammar::read_residual(b, at, bs, p) == Ok::<(Seq<i32>, int), crate::decode::DecodeError>(
            (res, at + 6 + partition::body_bits(res, bs, p, plan, pow2(plan.order)).len()),
        ),
{
    lemma2_to64();
    let f = bits::field(plan.method as int, 2);
    let g = bits::field(plan.order as int, 4);
    bits::lemma_field_len(plan.method as int, 2);
    bits::lemma_field_len(plan.order as int, 4);
    let n = pow2(plan.order);
    let body = partition::body_bits(res, bs, p, plan, n);
    bits::lemma_stands_split(b, at, f + g, body);
    bits::lemma_stands_split(b, at, f, g);
    lemma_uint_round_trip(b, at, plan.method as int, 2);
    lemma_uint_round_trip(b, at + 2, plan.order as int, 4);
    lemma_partitions_round_trip(b, at + 6, res, bs, p, plan, n);
    lemma_pow2_pos(plan.order);
    lemma_fundamental_div_mod(bs as int, n as int);
    assert(n * (bs / n) == bs);
    assert(res.take(res.len() as int) =~= res);
}

/// A coded residual reads back where it stands.
pub proof fn lemma_residual_round_trip(b: Seq<bool>, at: int, res: Seq<i32>, bs: nat, p: nat)
    requires
        at >= 0,
        res.len() + p == bs,
        bits::stands_at(b, at, subframe::residual_bits(res, bs, p)),
    ensures
        grammar::read_residual(b, at, bs, p) == Ok::<(Seq<i32>, int), crate::decode::DecodeError>(
            (res, at + subframe::residual_bits(res, bs, p).len()),
        ),
{
    let plan = partition::plan_of(res, bs, p);
    bits::lemma_field_len(plan.method as int, 2);
    bits::lemma_field_len(plan.order as int, 4);
    partition::lemma_plan_fits(res, bs, p);
    lemma_plan_round_trip(b, at, res, bs, p, plan);
}

// ---------------------------------------------------------------------------
// Subframes
// ---------------------------------------------------------------------------
/// A kind is one that can code the arm `a`.
pub open spec fn codes(a: ArmModel, kind: KindModel) -> bool {
    match kind {
        KindModel::Constant { value } => forall|i: int|
            0 <= i < a.samples.len() ==> #[trigger] a.samples[i] == value,
        KindModel::Verbatim => true,
        KindModel::Fixed { order } => order <= 4 && order <= a.samples.len(),
        KindModel::Lpc { coeffs, shift } => choice::sound(
            choice::QuantizedModel { coeffs, shift },
            choice::LPC_MAX_ORDER as nat,
        ) && coeffs.len() <= a.samples.len(),
    }
}

/// The chosen kind can code its arm, whatever the analysis says.
pub proof fn lemma_chosen_codes(a: ArmModel, analysis: AnalysisModel, max_lpc_order: nat)
    requires
        a.samples.len() >= 1,
        max_lpc_order <= choice::LPC_MAX_ORDER,
    ensures
        codes(
            a,
            choice::chosen(
                a,
                choice::usable_both(
                    analysis,
                    choice::top_order(max_lpc_order, a.samples.len()),
                ),
            ),
        ),
{
    reveal(choice::chosen);
    let top = choice::top_order(max_lpc_order, a.samples.len());
    let e = choice::usable_both(analysis, top);
    arith::lemma_argmin(
        |order: int|
            crate::estimate::fixed_sum(a.samples, order as nat, a.samples.len()) as int,
        crate::estimate::top_fixed_order(a.samples.len()),
    );
    if let Some((k, second)) = choice::best_window(a, e) {
        assert(codes(a, k));
    }
}

/// The cost of a kind is the exact length of its subframe.
pub proof fn lemma_cost_exact(a: ArmModel, kind: KindModel)
    requires
        codes(a, kind),
    ensures
        subframe::subframe_bits(a, kind).len() == kind.cost(a),
{
    broadcast use bits::group_bits_len;

    reveal(KindModel::cost);
    let n = a.samples.len();
    match kind {
        KindModel::Constant { value } => {},
        KindModel::Verbatim => {
            lemma_ints_len(a.samples, a.depth);
        },
        KindModel::Fixed { order } => {
            lemma_ints_len(a.samples.take(order as int), a.depth);
            partition::lemma_plan_bits_exact(kind.residual(a), n, order);
        },
        KindModel::Lpc { coeffs, shift } => {
            lemma_ints_len(a.samples.take(coeffs.len() as int), a.depth);
            lemma_ints_len(coeffs, choice::LPC_PRECISION as nat);
            partition::lemma_plan_bits_exact(kind.residual(a), n, coeffs.len());
        },
    }
}

/// The wasted-bits field reads back where it stands.
proof fn lemma_wasted_round_trip(b: Seq<bool>, p: int, wasted: nat)
    requires
        wasted <= 31,
        bits::stands_at(b, p, subframe::wasted_bits(wasted)),
    ensures
        grammar::read_wasted(b, p) == Some((wasted, p + subframe::wasted_bits(wasted).len())),
{
    broadcast use bits::group_bits_len;

    lemma2_to64();
    if wasted == 0 {
        lemma_uint_round_trip(b, p, 0, 1);
    } else {
        let z = bits::zeros((wasted - 1) as nat);
        let one = bits::field(1, 1);
        bits::lemma_stands_split(b, p, one + z, one);
        bits::lemma_stands_split(b, p, one, z);
        lemma_uint_round_trip(b, p, 1, 1);
        let q = p + wasted;
        assert forall|i: int| p + 1 <= i < q implies !b[i] by {
            assert(b.subrange(p + 1, q)[i - p - 1] == z[i - p - 1]);
        }
        assert(b[q]) by {
            assert(b.subrange(q, q + 1)[0] == one[0]);
        }
        bits::lemma_first_one_skip(b, p + 1, q);
        assert(bits::first_one(b, p + 1) == q);
    }
}

proof fn lemma_fits_take(s: Seq<i32>, w: nat, n: int)
    requires
        fits(s, w),
        0 <= n <= s.len(),
    ensures
        fits(s.take(n), w),
{
    let t = s.take(n);
    assert forall|i: int| 0 <= i < t.len() implies -pow2((w - 1) as nat) <= #[trigger] t[i] < pow2(
        (w - 1) as nat,
    ) by {
        assert(t[i] == s[i]);
    }
}

/// A fixed prediction subframe reads back.
proof fn lemma_fixed_round_trip(b: Seq<bool>, q: int, a: ArmModel, order: nat)
    requires
        q >= 0,
        1 <= a.depth <= 32,
        fits(a.samples, a.depth),
        order <= 4,
        order <= a.samples.len(),
        bits::stands_at(b, q, subframe::payload_bits(a, KindModel::Fixed { order })),
    ensures
        grammar::read_fixed(b, q, a.depth, a.samples.len(), order) == Ok::<
            (Seq<i32>, int),
            crate::decode::DecodeError,
        >((a.samples, q + subframe::payload_bits(a, KindModel::Fixed { order }).len())),
{
    let kind = KindModel::Fixed { order };
    let n = a.samples.len();
    let warm = a.samples.take(order as int);
    let res = kind.residual(a);
    let x = subframe::ints_bits(warm, a.depth);
    let y = subframe::residual_bits(res, n, order);
    bits::lemma_stands_split(b, q, x, y);
    lemma_fits_take(a.samples, a.depth, order as int);
    lemma_ints_round_trip(b, q, warm, a.depth);
    lemma_residual_round_trip(b, q + x.len(), res, n, order);
    predict::lemma_residual_restores(kind.predictor(), a.samples);
}

/// A linear predictor reads back.
proof fn lemma_predictor_round_trip(b: Seq<bool>, p: int, coeffs: Seq<i32>, shift: nat)
    requires
        p >= 0,
        choice::sound(
            choice::QuantizedModel { coeffs, shift },
            choice::LPC_MAX_ORDER as nat,
        ),
        bits::stands_at(b, p, subframe::lpc_bits(coeffs, shift)),
    ensures
        grammar::room(b, p, 4),
        grammar::uint(b, p, 4) == 13,
        bits::read_int(b, p + 4, 5) == Some((shift as int, p + 9)),
        grammar::read_ints(b, p + 9, 14, coeffs.len()) == Some(
            (coeffs, p + subframe::lpc_bits(coeffs, shift).len()),
        ),
{
    lemma2_to64();
    let f = bits::field(13, 4);
    let g = bits::field(shift as int, 5);
    let h = subframe::ints_bits(coeffs, 14);
    bits::lemma_field_len(13, 4);
    bits::lemma_field_len(shift as int, 5);
    bits::lemma_stands_split(b, p, f + g, h);
    bits::lemma_stands_split(b, p, f, g);
    lemma_uint_round_trip(b, p, 13, 4);
    lemma_int_round_trip(b, p + 4, shift as int, 5);
    assert(fits(coeffs, 14)) by {
        let m = choice::QuantizedModel { coeffs, shift };
        assert forall|i: int| 0 <= i < coeffs.len() implies -pow2(13) <= #[trigger] coeffs[i]
            < pow2(13) by {
            assert(m.coeffs[i] == coeffs[i]);
        }
    }
    lemma_ints_round_trip(b, p + 9, coeffs, 14);
}

/// A linear prediction subframe reads back.
proof fn lemma_lpc_round_trip(b: Seq<bool>, q: int, a: ArmModel, coeffs: Seq<i32>, shift: nat)
    requires
        q >= 0,
        1 <= a.depth <= 32,
        fits(a.samples, a.depth),
        codes(a, KindModel::Lpc { coeffs, shift }),
        bits::stands_at(b, q, subframe::payload_bits(a, KindModel::Lpc { coeffs, shift })),
    ensures
        grammar::read_lpc(b, q, a.depth, a.samples.len(), coeffs.len()) == Ok::<
            (Seq<i32>, int),
            crate::decode::DecodeError,
        >((a.samples, q + subframe::payload_bits(a, KindModel::Lpc { coeffs, shift }).len())),
{
    let kind = KindModel::Lpc { coeffs, shift };
    let n = a.samples.len();
    let order = coeffs.len();
    let warm = a.samples.take(order as int);
    let res = kind.residual(a);
    let x = subframe::ints_bits(warm, a.depth);
    let y = subframe::lpc_bits(coeffs, shift);
    let z = subframe::residual_bits(res, n, order);
    bits::lemma_stands_split(b, q, x + y, z);
    bits::lemma_stands_split(b, q, x, y);
    lemma_fits_take(a.samples, a.depth, order as int);
    lemma_ints_round_trip(b, q, warm, a.depth);
    lemma_predictor_round_trip(b, q + x.len(), coeffs, shift);
    lemma_residual_round_trip(b, q + x.len() + y.len(), res, n, order);
    predict::lemma_residual_restores(kind.predictor(), a.samples);
}

/// What a subframe stores behind its header reads back.
proof fn lemma_payload_round_trip(b: Seq<bool>, q: int, a: ArmModel, kind: KindModel)
    requires
        q >= 0,
        a.samples.len() >= 1,
        1 <= a.depth <= 32,
        fits(a.samples, a.depth),
        codes(a, kind),
        bits::stands_at(b, q, subframe::payload_bits(a, kind)),
    ensures
        grammar::read_body(b, q, subframe::type_of(kind), a.depth, a.samples.len()) == Ok::<
            (Seq<i32>, int),
            crate::decode::DecodeError,
        >((a.samples, q + subframe::payload_bits(a, kind).len())),
{
    broadcast use bits::group_bits_len;

    match kind {
        KindModel::Constant { value } => {
            assert(a.samples[0] == value);
            lemma_int_round_trip(b, q, value as int, a.depth);
            reveal_with_fuel(grammar::read_ints, 2);
            assert(grammar::read_ints(b, q, a.depth, 1) == Some(
                (Seq::<i32>::empty().push(value), q + a.depth),
            ));
            assert(Seq::new(a.samples.len(), |i: int| value) =~= a.samples);
        },
        KindModel::Verbatim => {
            lemma_ints_round_trip(b, q, a.samples, a.depth);
        },
        KindModel::Fixed { order } => {
            lemma_fixed_round_trip(b, q, a, order);
        },
        KindModel::Lpc { coeffs, shift } => {
            lemma_lpc_round_trip(b, q, a, coeffs, shift);
        },
    }
}

/// A subframe header reads back.
proof fn lemma_subframe_header(b: Seq<bool>, p: int, ty: nat, wasted: nat)
    requires
        p >= 0,
        ty < 64,
        wasted <= 31,
        bits::stands_at(b, p, subframe::header_bits(ty, wasted)),
    ensures
        grammar::room(b, p, 7),
        grammar::uint(b, p, 1) == 0,
        grammar::uint(b, p + 1, 6) == ty,
        grammar::read_wasted(b, p + 7) == Some(
            (wasted, p + subframe::header_bits(ty, wasted).len()),
        ),
{
    lemma2_to64();
    let f = bits::field(0, 1);
    let g = bits::field(ty as int, 6);
    let w = subframe::wasted_bits(wasted);
    bits::lemma_field_len(0, 1);
    bits::lemma_field_len(ty as int, 6);
    bits::lemma_stands_split(b, p, f + g, w);
    bits::lemma_stands_split(b, p, f, g);
    lemma_uint_round_trip(b, p, 0, 1);
    lemma_uint_round_trip(b, p + 1, ty as int, 6);
    lemma_wasted_round_trip(b, p + 7, wasted);
}

/// A subframe with its parts read back is read back.
proof fn lemma_subframe_parts(
    b: Seq<bool>,
    p: int,
    q: int,
    r: int,
    ty: nat,
    bs: nat,
    depth: nat,
    wasted: nat,
    s: Seq<i32>,
)
    requires
        grammar::room(b, p, 7),
        grammar::uint(b, p, 1) == 0,
        grammar::uint(b, p + 1, 6) == ty,
        grammar::read_wasted(b, p + 7) == Some((wasted, q)),
        wasted <= 31,
        depth >= 1,
        grammar::read_body(b, q, ty, depth, bs) == Ok::<
            (Seq<i32>, int),
            crate::decode::DecodeError,
        >((s, r)),
    ensures
        grammar::read_subframe(b, p, bs, depth + wasted) == Ok::<
            (Seq<i32>, int),
            crate::decode::DecodeError,
        >((grammar::shifted_up(s, wasted), r)),
{
    reveal(grammar::read_subframe);
}

/// A subframe reads back where it stands: whatever kind codes an arm, the
/// decoder restores the arm's samples with the wasted bits put back.
pub proof fn lemma_subframe_round_trip(b: Seq<bool>, p: int, a: ArmModel, kind: KindModel)
    requires
        p >= 0,
        a.samples.len() >= 1,
        1 <= a.depth <= 32,
        a.wasted <= 31,
        fits(a.samples, a.depth),
        codes(a, kind),
        bits::stands_at(b, p, subframe::subframe_bits(a, kind)),
    ensures
        grammar::read_subframe(b, p, a.samples.len(), a.depth + a.wasted) == Ok::<
            (Seq<i32>, int),
            crate::decode::DecodeError,
        >(
            (
                grammar::shifted_up(a.samples, a.wasted),
                p + subframe::subframe_bits(a, kind).len(),
            ),
        ),
{
    let ty = subframe::type_of(kind);
    let h = subframe::header_bits(ty, a.wasted);
    let x = subframe::payload_bits(a, kind);
    bits::lemma_stands_split(b, p, h, x);
    lemma_subframe_header(b, p, ty, a.wasted);
    lemma_payload_round_trip(b, p + h.len(), a, kind);
    lemma_subframe_parts(
        b,
        p,
        p + h.len(),
        p + h.len() + x.len(),
        ty,
        a.samples.len(),
        a.depth,
        a.wasted,
        a.samples,
    );
}

// ---------------------------------------------------------------------------
// Arms
// ---------------------------------------------------------------------------
/// The wasted bits that are shifted out of a block are zero, so shifting them
/// back restores it.
pub proof fn lemma_arm_restores(s: Seq<i32>, bps: nat)
    requires
        1 <= bps <= 32,
    ensures
        arm::arm_of(s, bps).wasted < bps,
        arm::arm_of(s, bps).depth + arm::arm_of(s, bps).wasted == bps,
        grammar::shifted_up(arm::arm_of(s, bps).samples, arm::arm_of(s, bps).wasted) == s,
{
    let w = arm::wasted_of(s, bps);
    let a = arm::arm_of(s, bps);
    lemma2_to64();
    arm::lemma_widest(s, (bps - 1) as nat);
    lemma_pow2_pos(w);
    let m = pow2(w) as int;
    assert forall|i: int| 0 <= i < s.len() implies grammar::shifted_up(a.samples, w)[i]
        == s[i] by {
        let v = s[i] as int;
        assert(v % m == 0);
        lemma_fundamental_div_mod(v, m);
        assert(m * (v / m) == (v / m) * m) by (nonlinear_arith);
        assert(i32::MIN <= v / m <= i32::MAX) by (nonlinear_arith)
            requires
                m >= 1,
                v == (v / m) * m,
                i32::MIN <= v <= i32::MAX,
        ;
        arith::lemma_wrap32_in_range(v);
    }
    assert(grammar::shifted_up(a.samples, w) =~= s);
}

/// What fits into the full depth fits into the coded one with the wasted bits
/// shifted out.
pub proof fn lemma_arm_fits(s: Seq<i32>, bps: nat)
    requires
        1 <= bps <= 32,
        fits(s, bps),
    ensures
        fits(arm::arm_of(s, bps).samples, arm::arm_of(s, bps).depth),
        arm::arm_of(s, bps).depth >= 1,
{
    let w = arm::wasted_of(s, bps);
    let a = arm::arm_of(s, bps);
    arm::lemma_widest(s, (bps - 1) as nat);
    lemma2_to64();
    lemma_pow2_pos(w);
    let m = pow2(w) as int;
    let h = pow2((a.depth - 1) as nat) as int;
    lemma_pow2_adds((a.depth - 1) as nat, w);
    assert forall|i: int| 0 <= i < a.samples.len() implies -h <= #[trigger] a.samples[i] < h by {
        let v = s[i] as int;
        assert(-pow2((bps - 1) as nat) <= s[i] < pow2((bps - 1) as nat));
        assert(h * m == pow2((bps - 1) as nat));
        lemma_fundamental_div_mod(v, m);
        lemma_mod_bound(v, m);
        let q = v / m;
        assert(-h <= q < h) by (nonlinear_arith)
            requires
                v == m * q + v % m,
                0 <= v % m < m,
                -(h * m) <= v < h * m,
                m >= 1,
        ;
        arith::lemma_pow2_monotone((a.depth - 1) as nat, 31);
    }
}

/// A written subframe reads back as its block: whatever the analysis says, the
/// chosen coding of a block decodes to the block, wasted bits included, and
/// ends where the written bits end.
pub proof fn lemma_block_round_trip(
    b: Seq<bool>,
    p: int,
    s: Seq<i32>,
    bps: nat,
    analysis: AnalysisModel,
    max_lpc_order: nat,
)
    requires
        p >= 0,
        s.len() >= 1,
        1 <= bps <= 32,
        fits(s, bps),
        max_lpc_order <= choice::LPC_MAX_ORDER,
        bits::stands_at(
            b,
            p,
            subframe::subframe_bits(
                arm::arm_of(s, bps),
                choice::chosen(
                    arm::arm_of(s, bps),
                    choice::usable_both(analysis, choice::top_order(max_lpc_order, s.len())),
                ),
            ),
        ),
    ensures
        grammar::read_subframe(b, p, s.len(), bps) == Ok::<
            (Seq<i32>, int),
            crate::decode::DecodeError,
        >(
            (
                s,
                p + subframe::subframe_bits(
                    arm::arm_of(s, bps),
                    choice::chosen(
                        arm::arm_of(s, bps),
                        choice::usable_both(analysis, choice::top_order(max_lpc_order, s.len())),
                    ),
                ).len(),
            ),
        ),
{
    let a = arm::arm_of(s, bps);
    let kind = choice::chosen(
        a,
        choice::usable_both(analysis, choice::top_order(max_lpc_order, s.len())),
    );
    lemma_arm_restores(s, bps);
    lemma_arm_fits(s, bps);
    lemma_chosen_codes(a, analysis, max_lpc_order);
    lemma_subframe_round_trip(b, p, a, kind);
}

} // verus!
