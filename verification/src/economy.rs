//! What the encoder owes its users: a block is coded in no more bits than any
//! of the codings that it stands to choose from, stated over the block and the
//! analysis themselves.
use crate::arith;
use crate::arm;
use crate::arm::ArmModel;
use crate::audit;
use crate::binary64;
use crate::bits;
use crate::choice;
use crate::choice::{AnalysisModel, EstimateModel, KindModel, QuantizedModel};
use crate::estimate;
use crate::frame;
use crate::layout;
use crate::number;
use crate::partition;
use crate::partition::PlanModel;
use crate::predict::Predictor;
use crate::rice;
use crate::roundtrip;
use vstd::arithmetic::power2::*;
use vstd::prelude::*;

verus! {

// ---------------------------------------------------------------------------
// Costs
// ---------------------------------------------------------------------------
/// A residual costs no more than its Rice codes with any one parameter: up to
/// 14 behind four bits, up to 30 behind five.
pub proof fn lemma_plan_at_most(res: Seq<i32>, bs: nat, p: nat, k: nat)
    requires
        res.len() + p == bs,
        k <= 30,
    ensures
        partition::plan_of(res, bs, p).bits <= (if k <= 14 {
            4nat
        } else {
            5
        }) + rice::rice_sum(res, k) + res.len() * (1 + k),
{
    broadcast use bits::group_bits_len;

    lemma2_to64();
    let method: nat = if k <= 14 {
        0
    } else {
        1
    };
    let plain = PlanModel { method, order: 0, ks: seq![k as u32], bits: 0 };
    assert(bs / 1 == bs);
    partition::lemma_plan_optimal(res, bs, p, plain);
    let part = partition::partition(res, bs, p, 0, 0);
    partition::lemma_partition_len(res, bs, p, 0, 0);
    assert(part =~= res);
    rice::lemma_rice_cost_exact(part, k);
    assert(partition::body_bits(res, bs, p, plain, 0) =~= Seq::<bool>::empty());
    assert(partition::body_bits(res, bs, p, plain, 1).len() == 4 + method + rice::rice_cost(
        part,
        k,
    ));
}

/// The planner is exhaustive: with every partition order up to 8 at which the
/// block splits evenly and no partition is empty, with both methods and with
/// any parameters, the codes take at least as many bits as the plan says.
pub proof fn lemma_plan_least(res: Seq<i32>, bs: nat, p: nat, other: PlanModel)
    requires
        res.len() + p == bs,
        other.order <= 8,
        bs % pow2(other.order) == 0,
        bs / pow2(other.order) > p || other.order == 0,
        other.method <= 1,
        other.ks.len() == pow2(other.order),
        forall|i: int|
            0 <= i < other.ks.len() ==> #[trigger] other.ks[i] <= (if other.method == 0 {
                14int
            } else {
                30
            }),
    ensures
        partition::plan_of(res, bs, p).bits <= partition::body_bits(
            res,
            bs,
            p,
            other,
            pow2(other.order),
        ).len(),
{
    lemma2_to64();
    if other.order > 0 {
        partition::lemma_max_order(bs, p, other.order);
    } else {
        assert(bs / 1 == bs);
    }
    assert forall|i: int| 0 <= i < other.ks.len() implies #[trigger] other.ks[i] <= rice::kmax_of(
        other.method,
    ) by {}
    partition::lemma_plan_optimal(res, bs, p, other);
}

/// What the four kinds cost at most, in plain numbers: the header of eight bits
/// with one more for every wasted bit, then a sample, all samples, or warm-up
/// samples, predictor and residual.
pub proof fn lemma_costs(a: ArmModel, kind: KindModel, k: nat)
    requires
        k <= 30,
        match kind {
            KindModel::Fixed { order } => order <= a.samples.len(),
            KindModel::Lpc { coeffs, shift } => coeffs.len() <= a.samples.len(),
            _ => true,
        },
    ensures
        ({
            let n = a.samples.len();
            let d = a.depth;
            let field: nat = if k <= 14 {
                4
            } else {
                5
            };
            let res = kind.residual(a);
            match kind {
                KindModel::Constant { value } => kind.cost(a) == 8 + a.wasted + d,
                KindModel::Verbatim => kind.cost(a) == 8 + a.wasted + n * d,
                KindModel::Fixed { order } => kind.cost(a) <= 8 + a.wasted + order * d + 6 + field
                    + rice::rice_sum(res, k) + (n - order) * (1 + k),
                KindModel::Lpc { coeffs, shift } => kind.cost(a) <= 8 + a.wasted + coeffs.len() * d
                    + 9 + 14 * coeffs.len() + 6 + field + rice::rice_sum(res, k) + (n
                    - coeffs.len()) * (1 + k),
            }
        }),
{
    reveal(KindModel::cost);
    let n = a.samples.len();
    let res = kind.residual(a);
    match kind {
        KindModel::Fixed { order } => {
            lemma_plan_at_most(res, n, order, k);
            assert(res.len() == n - order);
        },
        KindModel::Lpc { coeffs, shift } => {
            lemma_plan_at_most(res, n, coeffs.len(), k);
            assert(res.len() == n - coeffs.len());
        },
        _ => {},
    }
}

// ---------------------------------------------------------------------------
// The choice of a subframe
// ---------------------------------------------------------------------------
/// The way that an arm is coded, given what the analysis of it says and the
/// highest order of the encoder.
pub open spec fn coding(a: ArmModel, analysis: AnalysisModel, max_lpc_order: nat) -> KindModel {
    choice::chosen(
        a,
        choice::usable_both(analysis, choice::top_order(max_lpc_order, a.samples.len())),
    )
}

/// An estimate with a predictor that a subframe of `n` samples can hold and
/// that predicts something: estimated at 1 to 2^32 bits, of an order from 1 to
/// half the samples and to the highest order, coefficients of 14 bits that are
/// not all zero, a shift up to 15.
pub open spec fn proposes(e: Option<EstimateModel>, q: QuantizedModel, n: nat, max_lpc_order: nat)
    -> bool {
    &&& e is Some
    &&& 0x3FF0_0000_0000_0000 <= e->0.est_bits < 0x41F0_0000_0000_0000
    &&& e->0.quantized == Some(q)
    &&& 1 <= q.coeffs.len() <= max_lpc_order
    &&& 2 * q.coeffs.len() <= n
    &&& q.shift <= 15
    &&& forall|j: int| 0 <= j < q.coeffs.len() ==> -8192 <= #[trigger] q.coeffs[j] <= 8191
    &&& exists|j: int| 0 <= j < q.coeffs.len() && #[trigger] q.coeffs[j] != 0
}

/// The subframe that codes with a predictor.
pub open spec fn predicted(q: QuantizedModel) -> KindModel {
    KindModel::Lpc { coeffs: q.coeffs, shift: q.shift }
}

/// Not all samples are the same.
pub open spec fn varied(s: Seq<i32>) -> bool {
    exists|i: int| 0 <= i < s.len() && #[trigger] s[i] != s[0]
}

proof fn lemma_varied(s: Seq<i32>)
    requires
        varied(s),
    ensures
        arm::constant_of(s) is None,
        s.len() >= 2,
{
    let i = choose|i: int| 0 <= i < s.len() && #[trigger] s[i] != s[0];
    assert(s[i] != s[0]);
}

proof fn lemma_proposal_counts(
    e: Option<EstimateModel>,
    q: QuantizedModel,
    n: nat,
    max_lpc_order: nat,
)
    requires
        proposes(e, q, n, max_lpc_order),
    ensures
        choice::usable(e, choice::top_order(max_lpc_order, n)) == e,
        choice::realized(e->0) == Some(predicted(q)),
{
    let j = choose|j: int| 0 <= j < q.coeffs.len() && #[trigger] q.coeffs[j] != 0;
    assert(q.coeffs[j] != 0);
}

/// The predictor with the better estimate is always weighed: a block costs no
/// more than with the first window's predictor where no better estimate stands
/// against it.
pub proof fn lemma_first_window_weighed(
    a: ArmModel,
    analysis: AnalysisModel,
    max_lpc_order: nat,
    q: QuantizedModel,
)
    requires
        varied(a.samples),
        proposes(analysis.first, q, a.samples.len(), max_lpc_order),
        analysis.second matches Some(y) ==> analysis.first->0.est_bits <= y.est_bits,
    ensures
        coding(a, analysis, max_lpc_order).cost(a) <= predicted(q).cost(a),
{
    lemma_varied(a.samples);
    lemma_proposal_counts(analysis.first, q, a.samples.len(), max_lpc_order);
    lemma_realized_weighed(
        a,
        choice::usable_both(analysis, choice::top_order(max_lpc_order, a.samples.len())),
    );
}

/// The second window's predictor is weighed where its estimate is the better
/// one.
pub proof fn lemma_second_window_weighed(
    a: ArmModel,
    analysis: AnalysisModel,
    max_lpc_order: nat,
    q: QuantizedModel,
)
    requires
        varied(a.samples),
        proposes(analysis.second, q, a.samples.len(), max_lpc_order),
        analysis.first matches Some(x) ==> analysis.second->0.est_bits < x.est_bits,
    ensures
        coding(a, analysis, max_lpc_order).cost(a) <= predicted(q).cost(a),
{
    lemma_varied(a.samples);
    lemma_proposal_counts(analysis.second, q, a.samples.len(), max_lpc_order);
    lemma_realized_weighed(
        a,
        choice::usable_both(analysis, choice::top_order(max_lpc_order, a.samples.len())),
    );
}

/// Where the two estimates are within two percent, both predictors are weighed.
pub proof fn lemma_close_windows_weighed(
    a: ArmModel,
    analysis: AnalysisModel,
    max_lpc_order: nat,
    q: QuantizedModel,
    r: QuantizedModel,
)
    requires
        varied(a.samples),
        proposes(analysis.first, q, a.samples.len(), max_lpc_order),
        proposes(analysis.second, r, a.samples.len(), max_lpc_order),
        analysis.first->0.est_bits <= binary64::raised(analysis.second->0.est_bits),
        analysis.second->0.est_bits <= binary64::raised(analysis.first->0.est_bits),
    ensures
        coding(a, analysis, max_lpc_order).cost(a) <= predicted(q).cost(a),
        coding(a, analysis, max_lpc_order).cost(a) <= predicted(r).cost(a),
{
    lemma_varied(a.samples);
    lemma_proposal_counts(analysis.first, q, a.samples.len(), max_lpc_order);
    lemma_proposal_counts(analysis.second, r, a.samples.len(), max_lpc_order);
    lemma_realized_weighed(
        a,
        choice::usable_both(analysis, choice::top_order(max_lpc_order, a.samples.len())),
    );
}

/// What was realized is weighed.
proof fn lemma_realized_weighed(a: ArmModel, e: AnalysisModel)
    requires
        arm::constant_of(a.samples) is None,
    ensures
        choice::tries_first(e) ==> (choice::realized(e.first->0) matches Some(k) ==> choice::chosen(
            a,
            e,
        ).cost(a) <= k.cost(a)),
        choice::tries_second(e) ==> (choice::realized(e.second->0) matches Some(k)
            ==> choice::chosen(a, e).cost(a) <= k.cost(a)),
{
    choice::lemma_chosen_least(a, e);
}

/// A fixed order that predicts best: one that the block allows, with the
/// smallest sum of absolute residuals, and the lowest such order.
pub open spec fn predicts_best(s: Seq<i32>, order: nat) -> bool {
    &&& order <= 4
    &&& order < s.len()
    &&& forall|o: nat|
        o <= 4 && o < s.len() ==> estimate::fixed_sum(s, order, s.len())
            <= #[trigger] estimate::fixed_sum(s, o, s.len())
    &&& forall|o: nat|
        o < order ==> estimate::fixed_sum(s, order, s.len()) < #[trigger] estimate::fixed_sum(
            s,
            o,
            s.len(),
        )
}

proof fn lemma_best_fixed(s: Seq<i32>, order: nat)
    requires
        predicts_best(s, order),
    ensures
        estimate::fixed_order(s) == order,
{
    let f = |o: int| estimate::fixed_sum(s, o as nat, s.len()) as int;
    let top = estimate::top_fixed_order(s.len());
    assert forall|o: int| 0 <= o <= top implies f(order as int) <= #[trigger] f(o) by {
        assert(estimate::fixed_sum(s, order, s.len()) <= estimate::fixed_sum(
            s,
            o as nat,
            s.len(),
        ));
    }
    assert forall|o: int| 0 <= o < order implies f(order as int) < #[trigger] f(o) by {
        assert(estimate::fixed_sum(s, order, s.len()) < estimate::fixed_sum(s, o as nat, s.len()));
    }
    arith::lemma_argmin_unique(f, top, order);
}

/// Without a predictor the fixed polynomial that predicts best is weighed,
/// whatever the depth and the length of the block.
pub proof fn lemma_fixed_weighed(
    a: ArmModel,
    analysis: AnalysisModel,
    max_lpc_order: nat,
    order: nat,
)
    requires
        varied(a.samples),
        predicts_best(a.samples, order),
        forall|q: QuantizedModel|
            !(#[trigger] proposes(analysis.first, q, a.samples.len(), max_lpc_order)),
        forall|q: QuantizedModel|
            !(#[trigger] proposes(analysis.second, q, a.samples.len(), max_lpc_order)),
    ensures
        coding(a, analysis, max_lpc_order).cost(a) <= (KindModel::Fixed { order }).cost(a),
{
    lemma_varied(a.samples);
    lemma_best_fixed(a.samples, order);
    let n = a.samples.len();
    let top = choice::top_order(max_lpc_order, n);
    let e = choice::usable_both(analysis, top);
    lemma_no_proposal(analysis.first, n, max_lpc_order);
    lemma_no_proposal(analysis.second, n, max_lpc_order);
    choice::lemma_chosen_least(a, e);
    assert(choice::best_window(a, e) is None);
}

proof fn lemma_no_proposal(e: Option<EstimateModel>, n: nat, max_lpc_order: nat)
    requires
        forall|q: QuantizedModel| !(#[trigger] proposes(e, q, n, max_lpc_order)),
    ensures
        choice::usable(e, choice::top_order(max_lpc_order, n)) matches Some(m) ==> choice::realized(
            m,
        ) is None,
{
    if let Some(m) = choice::usable(e, choice::top_order(max_lpc_order, n)) {
        if let Some(q) = m.quantized {
            if choice::predictive(q) {
                assert(proposes(e, q, n, max_lpc_order));
            }
        }
    }
}

/// With predictors the fixed polynomial is left aside only where its estimate
/// already costs more than what is chosen.
pub proof fn lemma_fixed_or_better(
    a: ArmModel,
    analysis: AnalysisModel,
    max_lpc_order: nat,
    order: nat,
)
    requires
        varied(a.samples),
        predicts_best(a.samples, order),
        coding(a, analysis, max_lpc_order).cost(a) > (KindModel::Fixed { order }).cost(a),
    ensures
        coding(a, analysis, max_lpc_order).cost(a) < choice::fixed_estimate(a),
{
    lemma_varied(a.samples);
    lemma_best_fixed(a.samples, order);
    let e = choice::usable_both(
        analysis,
        choice::top_order(max_lpc_order, a.samples.len()),
    );
    choice::lemma_chosen_least(a, e);
}

/// Nothing costs more than the samples themselves behind a header.
pub proof fn lemma_at_most_raw(a: ArmModel, analysis: AnalysisModel, max_lpc_order: nat)
    requires
        a.samples.len() >= 1,
    ensures
        coding(a, analysis, max_lpc_order).cost(a) <= 8 + a.wasted + a.samples.len() * a.depth,
        !varied(a.samples) ==> coding(a, analysis, max_lpc_order).cost(a) == 8 + a.wasted
            + a.depth,
{
    let e = choice::usable_both(analysis, choice::top_order(max_lpc_order, a.samples.len()));
    choice::lemma_chosen_at_most_verbatim(a, e);
    lemma_costs(a, KindModel::Verbatim, 0);
    if !varied(a.samples) {
        let v = a.samples[0];
        assert forall|i: int| 0 <= i < a.samples.len() implies a.samples[i] == v by {}
        choice::lemma_constant_chosen(a, e, v);
        lemma_costs(a, KindModel::Constant { value: v }, 0);
    }
}

/// Some fixed order always predicts best, and it is the one that is estimated.
pub proof fn lemma_fixed_found(s: Seq<i32>)
    requires
        s.len() >= 1,
    ensures
        predicts_best(s, estimate::fixed_order(s)),
{
    let f = |o: int| estimate::fixed_sum(s, o as nat, s.len()) as int;
    let order = estimate::fixed_order(s);
    arith::lemma_argmin(f, estimate::top_fixed_order(s.len()));
    assert forall|o: nat| o <= 4 && o < s.len() implies estimate::fixed_sum(s, order, s.len())
        <= #[trigger] estimate::fixed_sum(s, o, s.len()) by {
        assert(f(order as int) <= f(o as int));
    }
    assert forall|o: nat| o < order implies estimate::fixed_sum(s, order, s.len())
        < #[trigger] estimate::fixed_sum(s, o, s.len()) by {
        assert(f(order as int) < f(o as int));
    }
}

// ---------------------------------------------------------------------------
// Blocks that a polynomial predicts
// ---------------------------------------------------------------------------
/// The fixed polynomial of `order` predicts every sample from the `order`-th on.
pub open spec fn on_polynomial(s: Seq<i32>, order: nat) -> bool {
    forall|i: int|
        order <= i < s.len() ==> (Predictor::Fixed { order }).predict(s, i) == #[trigger] s[i]
}

proof fn lemma_on_polynomial_sum(s: Seq<i32>, order: nat, n: nat)
    requires
        on_polynomial(s, order),
        n <= s.len(),
    ensures
        estimate::fixed_sum(s, order, n) == 0,
    decreases n,
{
    if n > order {
        lemma_on_polynomial_sum(s, order, (n - 1) as nat);
        assert((Predictor::Fixed { order }).predict(s, n - 1) == s[n - 1]);
    }
}

proof fn lemma_no_sum_polynomial(s: Seq<i32>, order: nat, n: nat)
    requires
        estimate::fixed_sum(s, order, n) == 0,
        n <= s.len(),
    ensures
        forall|i: int|
            order <= i < n ==> (Predictor::Fixed { order }).predict(s, i) == #[trigger] s[i],
    decreases n,
{
    if n > order {
        lemma_no_sum_polynomial(s, order, (n - 1) as nat);
    }
}

/// Zeros cost a bit each.
proof fn lemma_zeros(res: Seq<i32>)
    requires
        forall|i: int| 0 <= i < res.len() ==> res[i] == 0,
    ensures
        rice::rice_sum(res, 0) == 0,
    decreases res.len(),
{
    lemma2_to64();
    if res.len() > 0 {
        lemma_zeros(res.drop_last());
        assert(res.last() == 0);
    }
}

/// A block on a polynomial takes a bit for each sample behind the warm-up, and
/// a header, whatever the analysis says of it.
pub proof fn lemma_polynomial_cheap(
    a: ArmModel,
    analysis: AnalysisModel,
    max_lpc_order: nat,
    order: nat,
)
    requires
        varied(a.samples),
        a.depth >= 1,
        order <= 4,
        order < a.samples.len(),
        on_polynomial(a.samples, order),
    ensures
        coding(a, analysis, max_lpc_order).cost(a) <= 8 + a.wasted + order * a.depth + 6 + 4 + (
        a.samples.len() - order),
{
    let s = a.samples;
    let n = s.len();
    let least = estimate::fixed_order(s);
    lemma_fixed_found(s);
    lemma_on_polynomial_sum(s, order, n);
    assert(estimate::fixed_sum(s, least, n) <= estimate::fixed_sum(s, order, n));
    assert(least <= order);
    lemma_no_sum_polynomial(s, least, n);
    let kind = KindModel::Fixed { order: least };
    let res = kind.residual(a);
    assert forall|j: int| 0 <= j < res.len() implies res[j] == 0 by {
        assert((Predictor::Fixed { order: least }).predict(s, least + j) == s[least + j]);
        arith::lemma_wrap32_in_range(0);
    }
    lemma_zeros(res);
    lemma_costs(a, kind, 0);
    assert((n - least) * (1 + 0nat) == n - least) by (nonlinear_arith)
        requires
            least <= n,
    ;
    let cnt = (n - least) as nat;
    estimate::lemma_rice_estimate_least(0, cnt, 0);
    lemma2_to64();
    assert(cnt * (1 + 0nat) == cnt) by (nonlinear_arith);
    if coding(a, analysis, max_lpc_order).cost(a) > kind.cost(a) {
        lemma_fixed_or_better(a, analysis, max_lpc_order, least);
    }
    let d = a.depth;
    assert(least * d - least <= order * d - order) by (nonlinear_arith)
        requires
            0 <= least <= order,
            d >= 1,
    ;
}

/// A residual costs a parameter at least, and a bit for every number.
proof fn lemma_body_at_least(res: Seq<i32>, bs: nat, p: nat, plan: PlanModel, n: nat)
    requires
        partition::fits(plan, res.len(), bs, p),
        n <= pow2(plan.order),
    ensures
        partition::body_bits(res, bs, p, plan, n).len() >= 4 * n + roundtrip::parts_end(
            bs,
            p,
            plan.order,
            n,
        ),
    decreases n,
{
    broadcast use bits::lemma_field_len;

    if n > 0 {
        let m = (n - 1) as nat;
        lemma_body_at_least(res, bs, p, plan, m);
        let part = partition::partition(res, bs, p, plan.order, n - 1);
        let k = plan.ks[n - 1] as nat;
        let size = bs / pow2(plan.order);
        rice::lemma_rice_cost_exact(part, k);
        partition::lemma_partition_len(res, bs, p, plan.order, n - 1);
        assert(part.len() * (1 + k) >= part.len()) by (nonlinear_arith);
        assert((m as int) * size + size == (n as int) * size) by (nonlinear_arith)
            requires
                m + 1 == n,
        ;
    }
}

proof fn lemma_plan_at_least(res: Seq<i32>, bs: nat, p: nat)
    requires
        res.len() + p == bs,
    ensures
        partition::plan_of(res, bs, p).bits >= 4 + res.len(),
{
    let plan = partition::plan_of(res, bs, p);
    let n = pow2(plan.order);
    partition::lemma_plan_fits(res, bs, p);
    partition::lemma_plan_bits_exact(res, bs, p);
    lemma_body_at_least(res, bs, p, plan, n);
    lemma_pow2_pos(plan.order);
    vstd::arithmetic::div_mod::lemma_fundamental_div_mod(bs as int, n as int);
}

/// A block on a line that is cheaper as FIXED of order 2 than raw is not coded
/// raw, and takes no more than FIXED of order 2 does.
pub proof fn lemma_line_not_raw(a: ArmModel, analysis: AnalysisModel, max_lpc_order: nat)
    requires
        varied(a.samples),
        a.depth >= 1,
        a.samples.len() >= 2,
        forall|i: int|
            2 <= i < a.samples.len() ==> (#[trigger] a.samples[i]) - a.samples[i - 1]
                == a.samples[i - 1] - a.samples[i - 2],
        (KindModel::Fixed { order: 2 }).cost(a) < KindModel::Verbatim.cost(a),
    ensures
        coding(a, analysis, max_lpc_order) !is Verbatim,
        coding(a, analysis, max_lpc_order).cost(a) <= (KindModel::Fixed { order: 2 }).cost(a),
{
    let line = KindModel::Fixed { order: 2 };
    lemma_plan_at_least(line.residual(a), a.samples.len(), 2);
    assert(line.cost(a) >= 8 + a.wasted + 2 * a.depth + 6 + 4 + (a.samples.len() - 2)) by {
        reveal(KindModel::cost);
    }
    lemma_costs(a, KindModel::Verbatim, 0);
    if a.samples.len() == 2 {
        assert(2 * a.depth == a.samples.len() * a.depth);
    } else {
        assert(on_polynomial(a.samples, 2)) by {
            assert forall|i: int| 2 <= i < a.samples.len() implies (Predictor::Fixed {
                order: 2,
            }).predict(a.samples, i) == #[trigger] a.samples[i] by {}
        }
        lemma_polynomial_cheap(a, analysis, max_lpc_order, 2);
    }
}

// ---------------------------------------------------------------------------
// Estimates
// ---------------------------------------------------------------------------
/// The quotients of a residual are no more than what its absolute sum allows.
proof fn lemma_quotients_within(res: Seq<i32>, k: nat)
    ensures
        rice::rice_sum(res, k) * pow2(k) <= 2 * estimate::abs_sum(res),
    decreases res.len(),
{
    lemma_pow2_pos(k);
    let m = pow2(k) as int;
    if res.len() > 0 {
        lemma_quotients_within(res.drop_last(), k);
        let u = rice::fold(res.last() as int) as int;
        let q = u / m;
        let before = rice::rice_sum(res.drop_last(), k) as int;
        vstd::arithmetic::div_mod::lemma_fundamental_div_mod(u, m);
        assert((before + q) * m <= before * m + u) by (nonlinear_arith)
            requires
                u == m * q + u % m,
                0 <= u % m,
        ;
        assert(rice::rice_sum(res, k) == before + q);
    } else {
        assert(0 * m == 0) by (nonlinear_arith);
    }
}

/// The estimate of the fixed polynomial is met: the subframe takes no more than
/// its estimate, the count of wasted bits and one parameter, for samples of up
/// to 25 bits.
pub proof fn lemma_fixed_estimate_met(a: ArmModel)
    requires
        1 <= a.samples.len() < 0x800_0000,
        forall|i: int|
            0 <= i < a.samples.len() ==> -0x100_0000 <= #[trigger] a.samples[i] <= 0x100_0000,
    ensures
        (KindModel::Fixed { order: estimate::fixed_order(a.samples) }).cost(a)
            <= choice::fixed_estimate(a) + a.wasted + 5,
{
    let s = a.samples;
    let n = s.len();
    let order = estimate::fixed_order(s);
    let kind = KindModel::Fixed { order };
    let res = kind.residual(a);
    lemma_fixed_found(s);
    estimate::lemma_fixed_sum_residual(s, order);
    estimate::lemma_fixed_sum_bound(s, order, n);
    let sum = estimate::fixed_sum(s, order, n);
    let cnt = (n - order) as nat;
    assert(sum <= 0x8000_0000_0000_0000 - 0x10_0000_0000);
    estimate::lemma_rice_estimate_least(sum, cnt, 0);
    let k = choose|j: nat|
        j <= 30 && estimate::rice_estimate(sum, cnt) == cnt * (1 + j) + 2 * sum / #[trigger] pow2(
            j,
        );
    lemma_quotients_within(res, k);
    lemma_pow2_pos(k);
    let m = pow2(k) as int;
    let r = rice::rice_sum(res, k) as int;
    let u = 2 * sum as int;
    vstd::arithmetic::div_mod::lemma_fundamental_div_mod(u, m);
    let q = u / m;
    assert(r <= q) by (nonlinear_arith)
        requires
            r * m <= u,
            u == m * q + u % m,
            u % m < m,
            m >= 1,
    ;
    lemma_costs(a, kind, k);
}

/// What an arm is estimated at: a constant exactly, any other arm at no more
/// than raw, and at no more than the first window's estimate where there is
/// one and than the fixed polynomial's where there is none; and at one of these.
pub proof fn lemma_arm_estimate(a: ArmModel, first: Option<EstimateModel>)
    requires
        a.samples.len() >= 1,
    ensures
        ({
            let e = choice::estimated_cost(a, first);
            let raw = 8 + a.wasted + a.samples.len() * a.depth;
            let guess = a.wasted + (match first {
                Some(x) => binary64::floor_of(x.est_bits),
                None => choice::fixed_estimate(a),
            });
            &&& !varied(a.samples) ==> e == 8 + a.wasted + a.depth
            &&& varied(a.samples) ==> e <= raw && e <= guess && (e == raw || e == guess)
        }),
{
    reveal(choice::estimated_cost);
    if !varied(a.samples) {
        assert forall|i: int| 0 <= i < a.samples.len() implies #[trigger] a.samples[i]
            == a.samples[0] by {}
    } else {
        lemma_varied(a.samples);
    }
}

// ---------------------------------------------------------------------------
// Whole blocks
// ---------------------------------------------------------------------------
/// The bits of a layout's subframes.
pub open spec fn layout_cost(subs: Seq<layout::CodedModel>) -> nat
    decreases subs.len(),
{
    if subs.len() == 0 {
        0
    } else {
        layout_cost(subs.drop_last()) + subs.last().kind.cost(subs.last().arm)
    }
}

/// Channels that are coded on their own are coded as their own analysis says,
/// and without predictors where they have none.
pub proof fn lemma_alone(
    blocks: Seq<Seq<i32>>,
    bps: nat,
    list: Seq<AnalysisModel>,
    max_lpc_order: nat,
    c: int,
)
    requires
        blocks.len() != 2,
        0 <= c < blocks.len(),
    ensures
        ({
            let out = layout::layout_of(blocks, bps, list, max_lpc_order);
            let a = arm::arm_of(blocks[c], bps);
            &&& out.subs.len() == blocks.len()
            &&& out.subs[c].arm == a
            &&& out.subs[c].kind == coding(
                a,
                if c < list.len() {
                    list[c]
                } else {
                    AnalysisModel { first: None, second: None }
                },
                max_lpc_order,
            )
        }),
{
}

/// Two arms that can stand for a stereo block: left and right, left and side,
/// side and right, mid and side.
pub open spec fn stands_for_stereo(i: int, j: int) -> bool {
    (i == 0 && j == 1) || (i == 0 && j == 3) || (i == 3 && j == 1) || (i == 2 && j == 3)
}

/// What two arms are estimated at together.
pub open spec fn pair_estimate(arms: Seq<ArmModel>, e: Seq<AnalysisModel>, i: int, j: int) -> nat {
    choice::estimated_cost(arms[i], e[i].first) + choice::estimated_cost(arms[j], e[j].first)
}

/// A stereo block takes no more bits than any pair of arms whose estimate is
/// within one percent of every other pair's, each arm coded as its own analysis
/// says.
pub proof fn lemma_stereo_economy(
    l: Seq<i32>,
    r: Seq<i32>,
    bps: nat,
    list: Seq<AnalysisModel>,
    max_lpc_order: nat,
    i: int,
    j: int,
)
    requires
        l.len() == r.len(),
        list.len() == 4,
        stands_for_stereo(i, j),
        ({
            let arms = seq![
                arm::arm_of(l, bps),
                arm::arm_of(r, bps),
                arm::arm_of(layout::mid_of(l, r), bps),
                arm::arm_of(layout::side_of(l, r), bps + 1),
            ];
            let e = layout::stereo_estimates(list, max_lpc_order, l.len());
            forall|u: int, v: int|
                stands_for_stereo(u, v) ==> pair_estimate(arms, e, i, j) <= #[trigger] pair_estimate(
                    arms,
                    e,
                    u,
                    v,
                ) + pair_estimate(arms, e, u, v) / 100
        }),
    ensures
        ({
            let arms = seq![
                arm::arm_of(l, bps),
                arm::arm_of(r, bps),
                arm::arm_of(layout::mid_of(l, r), bps),
                arm::arm_of(layout::side_of(l, r), bps + 1),
            ];
            let out = layout::layout_of(seq![l, r], bps, list, max_lpc_order);
            &&& out.subs.len() == 2
            &&& layout_cost(out.subs) <= coding(arms[i], list[i], max_lpc_order).cost(arms[i])
                + coding(arms[j], list[j], max_lpc_order).cost(arms[j])
        }),
{
    let arms = layout::stereo_arms(l, r, bps);
    let e = layout::stereo_estimates(list, max_lpc_order, l.len());
    let m: nat = if i == 0 && j == 1 {
        0
    } else if i == 0 {
        1
    } else if i == 3 {
        2
    } else {
        3
    };
    assert(pair_estimate(arms, e, i, j) == layout::mode_estimate(arms, e, m));
    assert(pair_estimate(arms, e, 0, 1) == layout::mode_estimate(arms, e, 0));
    assert(pair_estimate(arms, e, 0, 3) == layout::mode_estimate(arms, e, 1));
    assert(pair_estimate(arms, e, 3, 1) == layout::mode_estimate(arms, e, 2));
    assert(pair_estimate(arms, e, 2, 3) == layout::mode_estimate(arms, e, 3));
    assert(layout::competes(arms, e, m));
    layout::lemma_stereo_mode_least(arms, e, m);
    let out = layout::layout_of(seq![l, r], bps, list, max_lpc_order);
    assert(out == layout::stereo_layout(arms, e));
    reveal_with_fuel(layout_cost, 3);
    let b = layout::stereo_mode(arms, e);
    assert(out.subs.drop_last().last() == layout::coded(arms, e, layout::mode_first(b)));
    assert(layout_cost(out.subs) == layout::mode_cost(arms, e, b));
}

/// The subframes of a layout take the bits that they cost.
proof fn lemma_subs_cost(subs: Seq<layout::CodedModel>, n: nat)
    requires
        n <= subs.len(),
        forall|c: int|
            0 <= c < subs.len() ==> roundtrip::codes((#[trigger] subs[c]).arm, subs[c].kind),
    ensures
        frame::subs_bits(subs, n).len() == layout_cost(subs.take(n as int)),
    decreases n,
{
    let t = subs.take(n as int);
    if n > 0 {
        lemma_subs_cost(subs, (n - 1) as nat);
        assert(t.drop_last() =~= subs.take(n - 1));
        assert(t.last() == subs[n - 1]);
        assert(roundtrip::codes(subs[n - 1].arm, subs[n - 1].kind));
        roundtrip::lemma_cost_exact(subs[n - 1].arm, subs[n - 1].kind);
    }
}

/// Nothing else is in a frame: seven bytes of header and one to six for the
/// frame number, the subframes filled up to a whole byte, and two bytes of
/// checksum.
pub proof fn lemma_frame_len(
    k: u64,
    blocks: Seq<Seq<i32>>,
    bps: nat,
    list: Seq<AnalysisModel>,
    max_lpc_order: nat,
)
    requires
        blocks.len() >= 1,
        blocks[0].len() >= 1,
        forall|c: int|
            0 <= c < blocks.len() ==> (#[trigger] blocks[c]).len() == blocks[0].len(),
        max_lpc_order <= choice::LPC_MAX_ORDER,
    ensures
        ({
            let cost = layout_cost(layout::layout_of(blocks, bps, list, max_lpc_order).subs);
            let numbered: nat = if k < 0x80 {
                1
            } else if k < 0x800 {
                2
            } else if k < 0x1_0000 {
                3
            } else if k < 0x20_0000 {
                4
            } else if k < 0x400_0000 {
                5
            } else {
                6
            };
            frame::frame_of(k, blocks, bps, list, max_lpc_order).len() == 7 + numbered + (cost
                + 7) / 8 + 2
        }),
{
    let l = layout::layout_of(blocks, bps, list, max_lpc_order);
    let bs = blocks[0].len();
    audit::lemma_layout_codes(blocks, bps, list, max_lpc_order);
    lemma_subs_cost(l.subs, l.subs.len());
    assert(l.subs.take(l.subs.len() as int) =~= l.subs);
    number::lemma_number_len(k);
    frame::lemma_lead_len(l.assignment, bps);
    frame::lemma_header_len(k, bs, l.assignment, bps);
    frame::lemma_frame_bits_len(k, bs, bps, l);
    bits::lemma_field_len(bs - 1, 16);
    let head = frame::header_bits(k, bs, l.assignment, bps);
    let subs = frame::subs_bits(l.subs, l.subs.len());
    let n = (head + subs).len();
    assert(frame::body_bits(k, bs, bps, l).len() == n + bits::padding(n));
}

// ---------------------------------------------------------------------------
// Ties and margins
// ---------------------------------------------------------------------------
/// The choice with one predictor at hand, case by case. The fixed polynomial is
/// weighed where its estimate is within a tenth of what the predictor costs;
/// on ties the predictor goes before the polynomial, and both before raw.
pub proof fn lemma_choice_of_one(
    a: ArmModel,
    analysis: AnalysisModel,
    max_lpc_order: nat,
    q: QuantizedModel,
    order: nat,
)
    requires
        varied(a.samples),
        predicts_best(a.samples, order),
        (proposes(analysis.first, q, a.samples.len(), max_lpc_order) && analysis.second is None)
            || (proposes(analysis.second, q, a.samples.len(), max_lpc_order)
            && analysis.first is None),
    ensures
        ({
            let c = predicted(q).cost(a);
            let f = (KindModel::Fixed { order }).cost(a);
            let raw = KindModel::Verbatim.cost(a);
            let weighed = 10 * choice::fixed_estimate(a) <= 11 * c;
            coding(a, analysis, max_lpc_order) == (if c <= raw && (c <= f || !weighed) {
                predicted(q)
            } else if weighed && f <= raw {
                KindModel::Fixed { order }
            } else {
                KindModel::Verbatim
            })
        }),
{
    lemma_varied(a.samples);
    lemma_best_fixed(a.samples, order);
    reveal(choice::chosen);
    let n = a.samples.len();
    if analysis.second is None {
        lemma_proposal_counts(analysis.first, q, n, max_lpc_order);
    } else {
        lemma_proposal_counts(analysis.second, q, n, max_lpc_order);
    }
    let e = choice::usable_both(analysis, choice::top_order(max_lpc_order, n));
    assert(choice::lpc_of(a, e) == Some(predicted(q)));
}

/// The choice without a predictor: the fixed polynomial, or raw where that is
/// cheaper.
pub proof fn lemma_choice_of_none(a: ArmModel, max_lpc_order: nat, order: nat)
    requires
        varied(a.samples),
        predicts_best(a.samples, order),
    ensures
        ({
            let f = KindModel::Fixed { order };
            let none = AnalysisModel { first: None, second: None };
            coding(a, none, max_lpc_order) == (if f.cost(a) <= KindModel::Verbatim.cost(a) {
                f
            } else {
                KindModel::Verbatim
            })
        }),
{
    lemma_varied(a.samples);
    lemma_best_fixed(a.samples, order);
    reveal(choice::chosen);
}

/// Two predictors: within two percent the cheaper one counts, the first
/// window's on a tie; further apart the one with the better estimate counts. The
/// other one might as well not be there.
pub proof fn lemma_choice_of_two(
    a: ArmModel,
    analysis: AnalysisModel,
    max_lpc_order: nat,
    q: QuantizedModel,
    r: QuantizedModel,
)
    requires
        varied(a.samples),
        proposes(analysis.first, q, a.samples.len(), max_lpc_order),
        proposes(analysis.second, r, a.samples.len(), max_lpc_order),
    ensures
        ({
            let x = analysis.first->0.est_bits;
            let y = analysis.second->0.est_bits;
            let only_first = AnalysisModel { first: analysis.first, second: None };
            let only_second = AnalysisModel { first: None, second: analysis.second };
            let close = x <= binary64::raised(y) && y <= binary64::raised(x);
            let first = if close {
                predicted(q).cost(a) <= predicted(r).cost(a)
            } else {
                x <= y
            };
            coding(a, analysis, max_lpc_order) == coding(
                a,
                if first {
                    only_first
                } else {
                    only_second
                },
                max_lpc_order,
            )
        }),
{
    lemma_varied(a.samples);
    reveal(choice::chosen);
    let n = a.samples.len();
    lemma_proposal_counts(analysis.first, q, n, max_lpc_order);
    lemma_proposal_counts(analysis.second, r, n, max_lpc_order);
    binary64::lemma_raised_above(analysis.first->0.est_bits);
    binary64::lemma_raised_above(analysis.second->0.est_bits);
}

/// A stereo block is coded as a pair of arms that stands for it, with that
/// pair's assignment, and no pair is estimated at less by more than one percent.
pub proof fn lemma_stereo_pair(
    l: Seq<i32>,
    r: Seq<i32>,
    bps: nat,
    list: Seq<AnalysisModel>,
    max_lpc_order: nat,
) -> (p: (int, int))
    requires
        l.len() == r.len(),
        list.len() == 4,
    ensures
        ({
            let arms = seq![
                arm::arm_of(l, bps),
                arm::arm_of(r, bps),
                arm::arm_of(layout::mid_of(l, r), bps),
                arm::arm_of(layout::side_of(l, r), bps + 1),
            ];
            let e = layout::stereo_estimates(list, max_lpc_order, l.len());
            let out = layout::layout_of(seq![l, r], bps, list, max_lpc_order);
            let (i, j) = p;
            &&& stands_for_stereo(i, j)
            &&& out.assignment == (if i == 0 && j == 1 {
                1nat
            } else if i == 0 {
                8
            } else if i == 3 {
                9
            } else {
                10
            })
            &&& out.subs.len() == 2
            &&& out.subs[0].arm == arms[i]
            &&& out.subs[0].kind == coding(arms[i], list[i], max_lpc_order)
            &&& out.subs[1].arm == arms[j]
            &&& out.subs[1].kind == coding(arms[j], list[j], max_lpc_order)
            &&& forall|u: int, v: int|
                stands_for_stereo(u, v) ==> pair_estimate(arms, e, i, j) <= #[trigger] pair_estimate(
                    arms,
                    e,
                    u,
                    v,
                ) + pair_estimate(arms, e, u, v) / 100
        }),
{
    let arms = layout::stereo_arms(l, r, bps);
    let e = layout::stereo_estimates(list, max_lpc_order, l.len());
    let m = layout::stereo_mode(arms, e);
    layout::lemma_stereo_mode(arms, e);
    let i = layout::mode_first(m);
    let j = layout::mode_second(m);
    assert(pair_estimate(arms, e, i, j) == layout::mode_estimate(arms, e, m));
    assert forall|u: int, v: int| stands_for_stereo(u, v) implies pair_estimate(arms, e, i, j)
        <= #[trigger] pair_estimate(arms, e, u, v) + pair_estimate(arms, e, u, v) / 100 by {
        let k: nat = if u == 0 && v == 1 {
            0
        } else if u == 0 {
            1
        } else if u == 3 {
            2
        } else {
            3
        };
        assert(pair_estimate(arms, e, u, v) == layout::mode_estimate(arms, e, k));
        assert(layout::least_estimate(arms, e) <= layout::mode_estimate(arms, e, k));
    }
    let out = layout::layout_of(seq![l, r], bps, list, max_lpc_order);
    assert(out == layout::stereo_layout(arms, e));
    (i, j)
}

} // verus!
