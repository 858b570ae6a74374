//! The choice of a subframe: constant, linear prediction, fixed prediction or
//! verbatim, whichever codes an arm in the fewest bits. Linear predictors come
//! in as ranked estimates, one per analysis window.
use crate::arith;
use crate::arm;
use crate::arm::{ArmInput, ArmModel};
use crate::binary64;
use crate::estimate;
use crate::partition;
use crate::partition::{PlanModel, ResidualPlan};
use crate::predict;
use crate::predict::Predictor;
use crate::stats;
use crate::stats::{EncodeStats, Event};
use vstd::prelude::*;

verus! {

/// Quantized LPC coefficient precision in bits.
pub const LPC_PRECISION: u32 = 14;

/// Highest LPC order searched.
pub const LPC_MAX_ORDER: usize = 12;

// ---------------------------------------------------------------------------
// Estimates
// ---------------------------------------------------------------------------
/// A linear predictor in integers: coefficients, most recent sample first,
/// over a power of two.
#[derive(Debug, Clone)]
pub struct Quantized {
    pub coeffs: Vec<i32>,
    pub shift: u32,
}

#[verifier::ext_equal]
pub struct QuantizedModel {
    pub coeffs: Seq<i32>,
    pub shift: nat,
}

impl View for Quantized {
    type V = QuantizedModel;

    open spec fn view(&self) -> QuantizedModel {
        QuantizedModel { coeffs: self.coeffs@, shift: self.shift as nat }
    }
}

/// An estimated linear predictor of one window: what the analysis of an arm
/// has to say about it.
#[derive(Debug, Clone)]
pub struct LpcEstimate {
    /// How many bits the subframe is estimated to take: a double precision
    /// number from 1 up to 2^32, given as its bits.
    pub est_bits: u64,
    /// The recursion ended before the highest order.
    pub exhausted: bool,
    /// The predictor, where its coefficients could be quantized.
    pub quantized: Option<Quantized>,
}

#[verifier::ext_equal]
pub struct EstimateModel {
    pub est_bits: u64,
    pub exhausted: bool,
    pub quantized: Option<QuantizedModel>,
}

impl View for LpcEstimate {
    type V = EstimateModel;

    open spec fn view(&self) -> EstimateModel {
        EstimateModel {
            est_bits: self.est_bits,
            exhausted: self.exhausted,
            quantized: match self.quantized {
                Some(q) => Some(q@),
                None => None,
            },
        }
    }
}

/// The estimates of the two windows of an arm.
#[derive(Debug, Clone)]
pub struct ArmAnalysis {
    pub first: Option<LpcEstimate>,
    pub second: Option<LpcEstimate>,
}

#[verifier::ext_equal]
pub struct AnalysisModel {
    pub first: Option<EstimateModel>,
    pub second: Option<EstimateModel>,
}

/// An estimate's model.
pub open spec fn model_of(e: Option<LpcEstimate>) -> Option<EstimateModel> {
    match e {
        Some(m) => Some(m@),
        None => None,
    }
}

impl View for ArmAnalysis {
    type V = AnalysisModel;

    open spec fn view(&self) -> AnalysisModel {
        AnalysisModel { first: model_of(self.first), second: model_of(self.second) }
    }
}

/// The highest LPC order for a block of `n` samples.
pub open spec fn top_order(max_lpc_order: nat, n: nat) -> nat {
    arith::min(max_lpc_order as int, n as int / 2) as nat
}

/// A predictor that a subframe can hold: an order from 1 to `top`,
/// coefficients of 14 bits, a shift up to 15.
pub open spec fn sound(q: QuantizedModel, top: nat) -> bool {
    &&& 1 <= q.coeffs.len() <= top
    &&& q.shift <= 15
    &&& forall|j: int| 0 <= j < q.coeffs.len() ==> -8192 <= #[trigger] q.coeffs[j] <= 8191
}

/// An estimate counts where it is in range, and where its predictor, if it has
/// one, can be coded.
pub open spec fn usable(e: Option<EstimateModel>, top: nat) -> Option<EstimateModel> {
    match e {
        Some(m) => if top >= 1 && binary64::moderate(m.est_bits) && (m.quantized matches Some(q)
            ==> sound(q, top)) {
            Some(m)
        } else {
            None
        },
        None => None,
    }
}

/// The estimates of an arm that count.
pub open spec fn usable_both(a: AnalysisModel, top: nat) -> AnalysisModel {
    AnalysisModel { first: usable(a.first, top), second: usable(a.second, top) }
}

// ---------------------------------------------------------------------------
// Kinds and costs
// ---------------------------------------------------------------------------
/// How a subframe codes its arm.
#[verifier::ext_equal]
pub enum KindModel {
    Constant { value: i32 },
    Verbatim,
    Fixed { order: nat },
    Lpc { coeffs: Seq<i32>, shift: nat },
}

impl KindModel {
    /// The predictor of a predictive kind.
    pub open spec fn predictor(self) -> Predictor {
        match self {
            KindModel::Fixed { order } => Predictor::Fixed { order },
            KindModel::Lpc { coeffs, shift } => Predictor::Lpc { coeffs, shift },
            _ => Predictor::Fixed { order: 0 },
        }
    }

    /// The residual of a predictive kind.
    pub open spec fn residual(self, a: ArmModel) -> Seq<i32> {
        self.predictor().residual(a.samples)
    }

    /// The plan for the residual of a predictive kind.
    pub open spec fn plan(self, a: ArmModel) -> PlanModel {
        partition::plan_of(self.residual(a), a.samples.len(), self.predictor().order())
    }

    /// The bits of the subframe: its header with the wasted-bits count, then
    /// what its kind stores.
    #[verifier::opaque]
    pub open spec fn cost(self, a: ArmModel) -> nat {
        8 + a.wasted + match self {
            KindModel::Constant { value } => a.depth,
            KindModel::Verbatim => a.samples.len() * a.depth,
            KindModel::Fixed { order } => order * a.depth + 6 + self.plan(a).bits,
            KindModel::Lpc { coeffs, shift } => coeffs.len() * a.depth + 4 + 5 + coeffs.len()
                * LPC_PRECISION as nat + 6 + self.plan(a).bits,
        }
    }
}

// ---------------------------------------------------------------------------
// The best window
// ---------------------------------------------------------------------------
/// The second window's estimate is the better one. The bits of positive numbers
/// are ordered as the numbers are.
pub open spec fn second_leads(a: AnalysisModel) -> bool {
    match (a.first, a.second) {
        (Some(x), Some(y)) => y.est_bits < x.est_bits,
        (None, Some(y)) => true,
        _ => false,
    }
}

/// The first window's predictor is realized: its estimate leads, or is within
/// two percent of the one that does.
pub open spec fn tries_first(a: AnalysisModel) -> bool {
    a.first matches Some(x) && (second_leads(a) ==> x.est_bits <= binary64::raised(
        a.second->0.est_bits,
    ))
}

/// The second window's predictor is realized.
pub open spec fn tries_second(a: AnalysisModel) -> bool {
    a.second matches Some(y) && (second_leads(a) || y.est_bits <= binary64::raised(
        a.first->0.est_bits,
    ))
}

/// Some predictive power is left after quantization.
pub open spec fn predictive(q: QuantizedModel) -> bool {
    exists|j: int| 0 <= j < q.coeffs.len() && #[trigger] q.coeffs[j] != 0
}

/// The subframe of an estimate; none where the coefficients did not quantize
/// or have no predictive power left.
pub open spec fn realized(e: EstimateModel) -> Option<KindModel> {
    match e.quantized {
        Some(q) => if predictive(q) {
            Some(KindModel::Lpc { coeffs: q.coeffs, shift: q.shift })
        } else {
            None
        },
        None => None,
    }
}

/// The cheapest realized predictor, the first window's on ties, and whether it
/// is the second window's.
pub open spec fn best_window(arm: ArmModel, a: AnalysisModel) -> Option<(KindModel, bool)> {
    let x = if tries_first(a) {
        realized(a.first->0)
    } else {
        None
    };
    let y = if tries_second(a) {
        realized(a.second->0)
    } else {
        None
    };
    match (x, y) {
        (Some(k), Some(l)) => if l.cost(arm) < k.cost(arm) {
            Some((l, true))
        } else {
            Some((k, false))
        },
        (Some(k), None) => Some((k, false)),
        (None, Some(l)) => Some((l, true)),
        (None, None) => None,
    }
}

// ---------------------------------------------------------------------------
// The choice
// ---------------------------------------------------------------------------
/// The estimated bits of the fixed predictor with the best order.
pub open spec fn fixed_estimate(arm: ArmModel) -> nat {
    let order = estimate::fixed_order(arm.samples);
    8 + order * arm.depth + 6 + estimate::rice_estimate(
        estimate::fixed_sum(arm.samples, order, arm.samples.len()),
        (arm.samples.len() - order) as nat,
    )
}

/// The fixed predictor is realized where no linear one is, and where its
/// estimate is within a tenth of the linear one's cost.
pub open spec fn tries_fixed(arm: ArmModel, lpc: Option<KindModel>) -> bool {
    match lpc {
        None => true,
        Some(k) => fixed_estimate(arm) <= k.cost(arm) + k.cost(arm) / 10,
    }
}

/// The cheapest of the realized kinds and verbatim; on ties linear prediction
/// goes before fixed prediction, and both before verbatim.
pub open spec fn cheapest(arm: ArmModel, lpc: Option<KindModel>) -> KindModel {
    let fixed = KindModel::Fixed { order: estimate::fixed_order(arm.samples) };
    let verbatim = KindModel::Verbatim;
    if lpc matches Some(k) && k.cost(arm) <= verbatim.cost(arm) && (tries_fixed(arm, lpc)
        ==> k.cost(arm) <= fixed.cost(arm)) {
        lpc->0
    } else if tries_fixed(arm, lpc) && fixed.cost(arm) <= verbatim.cost(arm) {
        fixed
    } else {
        verbatim
    }
}

/// The linear predictor that an arm's analysis leads to.
pub open spec fn lpc_of(arm: ArmModel, a: AnalysisModel) -> Option<KindModel> {
    match best_window(arm, a) {
        Some((k, second)) => Some(k),
        None => None,
    }
}

/// How an arm is coded, given the estimates that count.
#[verifier::opaque]
pub open spec fn chosen(arm: ArmModel, a: AnalysisModel) -> KindModel {
    match arm::constant_of(arm.samples) {
        Some(value) => KindModel::Constant { value },
        None => cheapest(arm, lpc_of(arm, a)),
    }
}

/// The estimated bits of an arm, before anything is realized.
#[verifier::opaque]
pub open spec fn estimated_cost(arm: ArmModel, first: Option<EstimateModel>) -> nat {
    let verbatim = 8 + arm.samples.len() * arm.depth;
    if arm::constant_of(arm.samples) is Some {
        8 + arm.wasted + arm.depth
    } else {
        arm.wasted + arith::min(
            match first {
                Some(e) => binary64::floor_of(e.est_bits) as int,
                None => fixed_estimate(arm) as int,
            },
            verbatim as int,
        ) as nat
    }
}

/// Whatever the estimates say, an arm is coded in no more bits than verbatim
/// takes.
pub proof fn lemma_chosen_at_most_verbatim(arm: ArmModel, a: AnalysisModel)
    requires
        arm.samples.len() >= 1,
    ensures
        chosen(arm, a).cost(arm) <= KindModel::Verbatim.cost(arm),
{
    reveal(KindModel::cost);
    reveal(chosen);
    assert(arm.depth <= arm.samples.len() * arm.depth) by (nonlinear_arith)
        requires
            arm.samples.len() >= 1,
    ;
}

/// The choice is the cheapest of what was realized.
pub proof fn lemma_chosen_least(arm: ArmModel, a: AnalysisModel)
    requires
        arm::constant_of(arm.samples) is None,
    ensures
        lpc_of(arm, a) matches Some(k) ==> chosen(arm, a).cost(arm) <= k.cost(arm),
        tries_fixed(arm, lpc_of(arm, a)) ==> chosen(arm, a).cost(arm) <= (KindModel::Fixed {
            order: estimate::fixed_order(arm.samples),
        }).cost(arm),
{
    reveal(chosen);
}

/// A block that repeats one sample is always coded as CONSTANT.
pub proof fn lemma_constant_chosen(arm: ArmModel, a: AnalysisModel, value: i32)
    requires
        arm.samples.len() >= 1,
        forall|i: int| 0 <= i < arm.samples.len() ==> arm.samples[i] == value,
    ensures
        chosen(arm, a) == (KindModel::Constant { value }),
{
    reveal(chosen);
    assert(arm.samples[0] == value);
}

// ---------------------------------------------------------------------------
// Events
// ---------------------------------------------------------------------------
/// What using an estimate counts.
pub open spec fn use_events(e: Option<EstimateModel>) -> Seq<Event> {
    if e matches Some(m) && m.exhausted {
        seq![Event::LevinsonExhausted]
    } else {
        Seq::empty()
    }
}

/// What realizing an estimate counts.
pub open spec fn try_events(e: Option<EstimateModel>, tried: bool) -> Seq<Event> {
    if e matches Some(m) && tried && realized(m) is None {
        seq![Event::QuantizeFailed]
    } else {
        Seq::empty()
    }
}

/// What the search for the best window counts.
pub open spec fn window_events(arm: ArmModel, a: AnalysisModel) -> Seq<Event> {
    try_events(a.first, tries_first(a)) + try_events(a.second, tries_second(a)) + (
    if best_window(arm, a) matches Some((k, second)) && second {
        seq![Event::SecondWindowWon]
    } else {
        Seq::empty()
    })
}

/// What estimating an arm counts.
pub open spec fn estimate_events(arm: ArmModel, a: AnalysisModel) -> Seq<Event> {
    if arm::constant_of(arm.samples) is Some {
        Seq::empty()
    } else {
        use_events(a.first)
    }
}

/// What realizing an arm counts.
pub open spec fn realize_events(arm: ArmModel, a: AnalysisModel) -> Seq<Event> {
    if arm::constant_of(arm.samples) is Some {
        Seq::empty()
    } else {
        use_events(a.second) + window_events(arm, a)
    }
}

// ---------------------------------------------------------------------------
// The decisions
// ---------------------------------------------------------------------------
/// An arm that can be coded: one sample to a full block of at most 32 bits.
pub open spec fn codable(a: ArmModel) -> bool {
    &&& 1 <= a.samples.len() <= 65536
    &&& 1 <= a.depth <= 32
    &&& a.wasted <= 31
}

/// A complete LPC subframe candidate and its total bit cost.
pub struct LpcCandidate {
    pub qlp: Vec<i32>,
    pub shift: u32,
    pub res: Vec<i32>,
    pub plan: ResidualPlan,
    pub bits: u64,
}

impl LpcCandidate {
    pub open spec fn kind(&self) -> KindModel {
        KindModel::Lpc { coeffs: self.qlp@, shift: self.shift as nat }
    }

    /// The candidate codes the arm `a`.
    pub open spec fn codes(&self, a: ArmModel) -> bool {
        &&& sound(
            QuantizedModel { coeffs: self.qlp@, shift: self.shift as nat },
            LPC_MAX_ORDER as nat,
        )
        &&& self.qlp@.len() <= a.samples.len()
        &&& self.res@ == self.kind().residual(a)
        &&& self.plan@ == self.kind().plan(a)
        &&& self.bits == self.kind().cost(a)
    }
}

/// The chosen subframe encoding of an arm.
pub enum SubframeKind {
    Constant(i32),
    Verbatim,
    Fixed { order: usize, res: Vec<i32>, plan: ResidualPlan },
    Lpc(LpcCandidate),
}

impl View for SubframeKind {
    type V = KindModel;

    open spec fn view(&self) -> KindModel {
        match self {
            SubframeKind::Constant(value) => KindModel::Constant { value: *value },
            SubframeKind::Verbatim => KindModel::Verbatim,
            SubframeKind::Fixed { order, res, plan } => KindModel::Fixed { order: *order as nat },
            SubframeKind::Lpc(c) => c.kind(),
        }
    }
}

/// The chosen subframe encoding for a channel and its bit cost.
pub struct SubframeChoice {
    pub bits: u64,
    pub kind: SubframeKind,
}

impl SubframeChoice {
    /// The choice codes the arm `a`.
    pub open spec fn codes(&self, a: ArmModel) -> bool {
        &&& self.bits == self.kind@.cost(a)
        &&& match self.kind {
            SubframeKind::Constant(value) => true,
            SubframeKind::Verbatim => true,
            SubframeKind::Fixed { order, res, plan } => {
                &&& order <= 4
                &&& order <= a.samples.len()
                &&& res@ == self.kind@.residual(a)
                &&& plan@ == self.kind@.plan(a)
            },
            SubframeKind::Lpc(c) => c.codes(a),
        }
    }
}

/// The model of an estimate that was picked.
spec fn picked(e: Option<&LpcEstimate>) -> Option<EstimateModel> {
    match e {
        Some(m) => Some(m@),
        None => None,
    }
}

/// An estimate is in range, and its predictor, if it has one, codes the arm
/// `a`.
spec fn suits(e: Option<EstimateModel>, a: ArmModel) -> bool {
    e matches Some(m) ==> binary64::moderate(m.est_bits) && (m.quantized matches Some(q) ==> sound(
        q,
        LPC_MAX_ORDER as nat,
    ) && q.coeffs.len() <= a.samples.len())
}

/// An estimate, if it counts.
fn usable_estimate(e: &Option<LpcEstimate>, top: usize) -> (r: Option<&LpcEstimate>)
    ensures
        picked(r) == usable(model_of(*e), top as nat),
{
    match e {
        None => None,
        Some(m) => {
            if top == 0 || m.est_bits < binary64::ONE || m.est_bits >= binary64::TWO_32 {
                return None;
            }
            match &m.quantized {
                None => Some(m),
                Some(q) => {
                    if q.coeffs.len() == 0 || q.coeffs.len() > top || q.shift > 15 {
                        return None;
                    }
                    let mut j: usize = 0;
                    while j < q.coeffs.len()
                        invariant
                            j <= q.coeffs@.len(),
                            model_of(*e) == Some(m@),
                            m.quantized == Some(*q),
                            forall|i: int| 0 <= i < j ==> -8192 <= #[trigger] q.coeffs@[i] <= 8191,
                        decreases q.coeffs@.len() - j,
                    {
                        if q.coeffs[j] < -8192 || q.coeffs[j] > 8191 {
                            assert(!sound(q@, top as nat)) by {
                                assert(q@.coeffs[j as int] == q.coeffs@[j as int]);
                            }
                            return None;
                        }
                        j = j + 1;
                    }
                    Some(m)
                },
            }
        },
    }
}

/// Compute the exact residual of quantized coefficients and plan its
/// partitions.
fn realize_lpc(arm: &ArmInput, q: &Quantized) -> (r: LpcCandidate)
    requires
        codable(arm@),
        sound(q@, LPC_MAX_ORDER as nat),
        q.coeffs@.len() <= arm.samples@.len(),
    ensures
        r.codes(arm@),
        r.kind() == (KindModel::Lpc { coeffs: q.coeffs@, shift: q.shift as nat }),
{
    let n: usize = arm.samples.len();
    let order: usize = q.coeffs.len();
    assert(predict::bounded(q.coeffs@)) by {
        assert forall|j: int| 0 <= j < q.coeffs@.len() implies -predict::COEFF_LIMIT
            <= #[trigger] q.coeffs@[j] <= predict::COEFF_LIMIT by {
            assert(q@.coeffs[j] == q.coeffs@[j]);
        }
    }
    let res: Vec<i32> = predict::lpc_residual(
        arm.samples.as_slice(),
        q.coeffs.as_slice(),
        q.shift,
    );
    let plan: ResidualPlan = partition::plan_partitions(res.as_slice(), n, order);
    proof {
        reveal(KindModel::cost);
        partition::lemma_plan_bits_bound(res@, n as nat, order as nat);
        lemma_times_depth(order as nat, arm.ebps as nat);
    }
    let warm_up: u64 = order as u64 * arm.ebps as u64;
    let coeffs: u64 = order as u64 * LPC_PRECISION as u64;
    // Header, warm-up, precision, shift, coefficients, residual header, body.
    let bits: u64 = 8 + arm.wasted as u64 + warm_up + 4 + 5 + coeffs + 6 + plan.bits;
    let mut qlp: Vec<i32> = Vec::new();
    qlp.extend_from_slice(q.coeffs.as_slice());
    assert(qlp@ =~= q.coeffs@);
    LpcCandidate { qlp, shift: q.shift, res, plan, bits }
}

proof fn lemma_times_depth(n: nat, depth: nat)
    requires
        n <= 65536,
        depth <= 32,
    ensures
        0 <= n * depth <= 65536 * 32,
{
    assert(0 <= n * depth <= 65536 * 32) by (nonlinear_arith)
        requires
            n <= 65536,
            depth <= 32,
    ;
}

/// Some coefficient is not zero.
fn has_power(q: &Quantized) -> (r: bool)
    ensures
        r == predictive(q@),
{
    let mut j: usize = 0;
    while j < q.coeffs.len()
        invariant
            j <= q.coeffs@.len(),
            forall|i: int| 0 <= i < j ==> #[trigger] q.coeffs@[i] == 0,
        decreases q.coeffs@.len() - j,
    {
        if q.coeffs[j] != 0 {
            assert(q@.coeffs[j as int] != 0);
            return true;
        }
        j = j + 1;
    }
    false
}

/// The shift of quantized coefficients of which the largest is below 2^`exp`
/// in magnitude: as large as 14 bits allow, from 0 to 15.
pub fn coefficient_shift(exp: i32) -> (r: u32)
    ensures
        r == arith::min(vstd::math::max(LPC_PRECISION - 1 - exp, 0), 15),
{
    if exp >= 13 {
        0
    } else if exp <= -2 {
        15
    } else {
        (13 - exp) as u32
    }
}

/// Realize an estimate that is tried; count it where it has no predictor.
fn try_window(arm: &ArmInput, e: Option<&LpcEstimate>, tried: bool, counts: &mut EncodeStats) -> (r:
    Option<LpcCandidate>)
    requires
        codable(arm@),
        suits(picked(e), arm@),
        tried ==> e is Some,
        stats::room(old(counts)@, 1),
    ensures
        match r {
            Some(c) => c.codes(arm@) && tried && realized(picked(e)->0) == Some(c.kind()),
            None => tried ==> realized(picked(e)->0) is None,
        },
        final(counts)@ == stats::tallied(old(counts)@, try_events(picked(e), tried)),
{
    proof {
        stats::lemma_tallied_empty(counts@);
    }
    match e {
        None => None,
        Some(m) => {
            if !tried {
                return None;
            }
            match &m.quantized {
                None => {
                    counts.count(Event::QuantizeFailed);
                    None
                },
                Some(q) => {
                    if !has_power(q) {
                        counts.count(Event::QuantizeFailed);
                        return None;
                    }
                    Some(realize_lpc(arm, q))
                },
            }
        },
    }
}

/// Realize the best LPC subframe from the windows' estimates: realize the
/// estimated winner exactly, and the runner-up only where its estimate is
/// close.
fn realize_best_window(
    arm: &ArmInput,
    first: Option<&LpcEstimate>,
    second: Option<&LpcEstimate>,
    counts: &mut EncodeStats,
) -> (r: Option<LpcCandidate>)
    requires
        codable(arm@),
        suits(picked(first), arm@),
        suits(picked(second), arm@),
        stats::room(old(counts)@, 3),
    ensures
        ({
            let a = AnalysisModel { first: picked(first), second: picked(second) };
            &&& match best_window(arm@, a) {
                Some((k, won)) => r matches Some(c) && c.codes(arm@) && c.kind() == k,
                None => r is None,
            }
            &&& final(counts)@ == stats::tallied(old(counts)@, window_events(arm@, a))
        }),
{
    let ghost a = AnalysisModel { first: picked(first), second: picked(second) };
    let ghost start = counts@;
    let (try_first, try_second): (bool, bool) = match first {
        None => (false, second.is_some()),
        Some(x) => match second {
            None => (true, false),
            Some(y) => if y.est_bits < x.est_bits {
                (x.est_bits <= binary64::raise(y.est_bits), true)
            } else {
                (true, y.est_bits <= binary64::raise(x.est_bits))
            },
        },
    };
    assert(try_first == tries_first(a) && try_second == tries_second(a));
    let ghost h1 = try_events(a.first, tries_first(a));
    let ghost h2 = try_events(a.second, tries_second(a));
    let one: Option<LpcCandidate> = try_window(arm, first, try_first, counts);
    proof {
        stats::lemma_room(start, h1, 3);
    }
    let two: Option<LpcCandidate> = try_window(arm, second, try_second, counts);
    proof {
        stats::lemma_tallied_concat(start, h1, h2);
        stats::lemma_room(start, h1 + h2, 3);
        stats::lemma_tallied_concat(start, h1 + h2, seq![Event::SecondWindowWon]);
        stats::lemma_tallied_concat(start, h1 + h2, Seq::empty());
        stats::lemma_tallied_empty(counts@);
    }
    match one {
        None => {
            match two {
                None => None,
                Some(d) => {
                    counts.count(Event::SecondWindowWon);
                    Some(d)
                },
            }
        },
        Some(c) => {
            match two {
                None => Some(c),
                Some(d) => {
                    if d.bits < c.bits {
                        counts.count(Event::SecondWindowWon);
                        Some(d)
                    } else {
                        Some(c)
                    }
                },
            }
        },
    }
}

/// The fixed order of an arm and its estimated bits.
fn fixed_cost_estimate(arm: &ArmInput) -> (r: (usize, u64))
    requires
        codable(arm@),
    ensures
        r.0 == estimate::fixed_order(arm.samples@),
        r.0 <= 4,
        r.0 < arm.samples@.len(),
        r.1 == fixed_estimate(arm@),
        r.1 <= 0x100_0000_0000_0000,
{
    proof {
        estimate::lemma_sums_fit(arm.samples@);
    }
    let (order, abs_sum): (usize, u64) = estimate::fixed_order_estimate(arm.samples.as_slice());
    proof {
        lemma_times_depth(order as nat, arm.ebps as nat);
    }
    let cnt: u64 = (arm.samples.len() - order) as u64;
    (
        order,
        8 + order as u64 * arm.ebps as u64 + 6 + estimate::rice_bits_estimate(abs_sum, cnt),
    )
}

/// The highest LPC order for a block of `n` samples.
fn highest_order(max_lpc_order: usize, n: usize) -> (r: usize)
    ensures
        r == top_order(max_lpc_order as nat, n as nat),
{
    if max_lpc_order < n / 2 {
        max_lpc_order
    } else {
        n / 2
    }
}

/// The cheap phase of one arm's analysis: constant detection and the estimated
/// subframe cost, used for stereo-mode gating before any expensive realization
/// happens.
pub struct ArmEstimate {
    pub constant: Option<i32>,
    pub est_bits: u64,
}

/// Estimate one arm from its first window; the second one is left to the
/// realization.
pub fn estimate_arm(
    arm: &ArmInput,
    analysis: &ArmAnalysis,
    max_lpc_order: usize,
    counts: &mut EncodeStats,
) -> (r: ArmEstimate)
    requires
        codable(arm@),
        max_lpc_order <= LPC_MAX_ORDER,
        stats::room(old(counts)@, 1),
    ensures
        ({
            let a = usable_both(
                analysis@,
                top_order(max_lpc_order as nat, arm.samples@.len()),
            );
            &&& r.constant == arm::constant_of(arm.samples@)
            &&& r.est_bits == estimated_cost(arm@, a.first)
            &&& r.est_bits <= 0x40_0000
            &&& final(counts)@ == stats::tallied(old(counts)@, estimate_events(arm@, a))
        }),
{
    let n: usize = arm.samples.len();
    proof {
        stats::lemma_tallied_empty(counts@);
        lemma_times_depth(n as nat, arm.ebps as nat);
        reveal(estimated_cost);
    }
    let constant: Option<i32> = arm::constant_sample(arm.samples.as_slice());
    if constant.is_some() {
        return ArmEstimate { constant, est_bits: 8 + arm.wasted as u64 + arm.ebps as u64 };
    }
    let top: usize = highest_order(max_lpc_order, n);
    let verbatim: u64 = 8 + n as u64 * arm.ebps as u64;
    let guess: u64 = match usable_estimate(&analysis.first, top) {
        Some(e) => {
            if e.exhausted {
                counts.count(Event::LevinsonExhausted);
            }
            binary64::floor(e.est_bits)
        },
        None => fixed_cost_estimate(arm).1,
    };
    let best: u64 = if guess < verbatim {
        guess
    } else {
        verbatim
    };
    ArmEstimate { constant: None, est_bits: best + arm.wasted as u64 }
}

/// Realize the fixed predictor of an arm.
fn realize_fixed(arm: &ArmInput, order: usize) -> (r: SubframeChoice)
    requires
        codable(arm@),
        order <= 4,
        order <= arm.samples@.len(),
    ensures
        r.codes(arm@),
        r.kind@ == (KindModel::Fixed { order: order as nat }),
{
    let n: usize = arm.samples.len();
    let res: Vec<i32> = predict::fixed_residual(arm.samples.as_slice(), order);
    let plan: ResidualPlan = partition::plan_partitions(res.as_slice(), n, order);
    proof {
        reveal(KindModel::cost);
        partition::lemma_plan_bits_bound(res@, n as nat, order as nat);
        lemma_times_depth(order as nat, arm.ebps as nat);
    }
    let bits: u64 = 8 + arm.wasted as u64 + order as u64 * arm.ebps as u64 + 6 + plan.bits;
    SubframeChoice { bits, kind: SubframeKind::Fixed { order, res, plan } }
}

/// The cheapest subframe of an arm that is not constant, given its linear
/// predictor.
fn pick_cheapest(arm: &ArmInput, lpc: Option<LpcCandidate>) -> (r: SubframeChoice)
    requires
        codable(arm@),
        lpc matches Some(c) ==> c.codes(arm@),
    ensures
        r.codes(arm@),
        r.kind@ == cheapest(
            arm@,
            match lpc {
                Some(c) => Some(c.kind()),
                None => None,
            },
        ),
{
    let n: usize = arm.samples.len();
    proof {
        lemma_times_depth(n as nat, arm.ebps as nat);
    }
    let verbatim_bits: u64 = 8 + arm.wasted as u64 + n as u64 * arm.ebps as u64;
    assert(verbatim_bits == KindModel::Verbatim.cost(arm@)) by {
        reveal(KindModel::cost);
    }
    // The fixed predictor's residual is computed only where its estimate says
    // that it could still beat the realized linear one.
    let (order, estimated): (usize, u64) = fixed_cost_estimate(arm);
    match lpc {
        None => {
            let fixed: SubframeChoice = realize_fixed(arm, order);
            if fixed.bits <= verbatim_bits {
                fixed
            } else {
                SubframeChoice { bits: verbatim_bits, kind: SubframeKind::Verbatim }
            }
        },
        Some(c) => {
            proof {
                reveal(KindModel::cost);
                partition::lemma_plan_bits_bound(c.res@, n as nat, c.qlp@.len());
                lemma_times_depth(c.qlp@.len(), arm.ebps as nat);
            }
            if estimated <= c.bits + c.bits / 10 {
                let fixed: SubframeChoice = realize_fixed(arm, order);
                if c.bits <= fixed.bits && c.bits <= verbatim_bits {
                    SubframeChoice { bits: c.bits, kind: SubframeKind::Lpc(c) }
                } else if fixed.bits <= verbatim_bits {
                    fixed
                } else {
                    SubframeChoice { bits: verbatim_bits, kind: SubframeKind::Verbatim }
                }
            } else if c.bits <= verbatim_bits {
                SubframeChoice { bits: c.bits, kind: SubframeKind::Lpc(c) }
            } else {
                SubframeChoice { bits: verbatim_bits, kind: SubframeKind::Verbatim }
            }
        },
    }
}

/// The expensive phase: realize the estimated LPC winner (and a close
/// runner-up), the estimate-gated fixed predictor, and pick the cheapest
/// subframe.
pub fn realize_arm(
    arm: &ArmInput,
    est: &ArmEstimate,
    analysis: &ArmAnalysis,
    max_lpc_order: usize,
    counts: &mut EncodeStats,
) -> (r: SubframeChoice)
    requires
        codable(arm@),
        max_lpc_order <= LPC_MAX_ORDER,
        est.constant == arm::constant_of(arm.samples@),
        stats::room(old(counts)@, 4),
    ensures
        ({
            let a = usable_both(
                analysis@,
                top_order(max_lpc_order as nat, arm.samples@.len()),
            );
            &&& r.codes(arm@)
            &&& r.kind@ == chosen(arm@, a)
            &&& final(counts)@ == stats::tallied(old(counts)@, realize_events(arm@, a))
        }),
{
    let n: usize = arm.samples.len();
    let ghost start = counts@;
    proof {
        stats::lemma_tallied_empty(start);
        reveal(chosen);
    }
    if let Some(value) = est.constant {
        proof {
            reveal(KindModel::cost);
        }
        return SubframeChoice {
            bits: 8 + arm.wasted as u64 + arm.ebps as u64,
            kind: SubframeKind::Constant(value),
        };
    }
    let top: usize = highest_order(max_lpc_order, n);
    let ghost a = usable_both(analysis@, top as nat);
    let first: Option<&LpcEstimate> = usable_estimate(&analysis.first, top);
    let second: Option<&LpcEstimate> = usable_estimate(&analysis.second, top);
    if let Some(e) = second {
        if e.exhausted {
            counts.count(Event::LevinsonExhausted);
        }
    }
    proof {
        assert(counts@ == stats::tallied(start, use_events(a.second)));
        stats::lemma_room(start, use_events(a.second), 4);
        stats::lemma_tallied_concat(start, use_events(a.second), window_events(arm@, a));
        assert(a == (AnalysisModel { first: picked(first), second: picked(second) }));
    }
    let lpc: Option<LpcCandidate> = realize_best_window(arm, first, second, counts);
    pick_cheapest(arm, lpc)
}

/// The highest order for a block is the largest one that the encoder searches
/// and that is no more than half the block.
pub proof fn lemma_top_order(max_lpc_order: nat, n: nat, order: nat)
    ensures
        order <= top_order(max_lpc_order, n) <==> order <= max_lpc_order && 2 * order <= n,
{
}

/// Which estimates count: those from 1 up to 2^32 bits, for a block and an
/// encoder that allow an order of 1, without a predictor or with one of up to
/// the highest order, coefficients of 14 bits and a shift up to 15. Any other
/// is as good as none.
pub proof fn lemma_usable(m: EstimateModel, max_lpc_order: nat, n: nat)
    ensures
        ({
            let counts = max_lpc_order >= 1 && n >= 2 && 0x3FF0_0000_0000_0000 <= m.est_bits
                < 0x41F0_0000_0000_0000 && match m.quantized {
                None => true,
                Some(q) => 1 <= q.coeffs.len() <= max_lpc_order && 2 * q.coeffs.len() <= n && q.shift
                    <= 15 && forall|j: int|
                    0 <= j < q.coeffs.len() ==> -8192 <= #[trigger] q.coeffs[j] <= 8191,
            };
            usable(Some(m), top_order(max_lpc_order, n)) == (if counts {
                Some(m)
            } else {
                None
            })
        }),
        usable(None, top_order(max_lpc_order, n)) is None,
{
}

} // verus!
