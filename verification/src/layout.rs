//! The channel layout of a frame: stereo picks the cheapest decorrelation
//! mode, every other channel count codes its channels independently.
use crate::arith;
use crate::arm;
use crate::arm::{ArmInput, ArmModel};
use crate::choice;
use crate::choice::{
    AnalysisModel, ArmAnalysis, ArmEstimate, KindModel, SubframeChoice, LPC_MAX_ORDER,
};
use crate::stats;
use crate::stats::{Assignment, EncodeStats, Event};
use vstd::arithmetic::power2::*;
use vstd::prelude::*;

verus! {

// ---------------------------------------------------------------------------
// Model
// ---------------------------------------------------------------------------
/// An arm and how it is coded.
#[verifier::ext_equal]
pub struct CodedModel {
    pub arm: ArmModel,
    pub kind: KindModel,
}

/// A frame's channel assignment code and its subframes.
#[verifier::ext_equal]
pub struct LayoutModel {
    pub assignment: nat,
    pub subs: Seq<CodedModel>,
}

/// The difference of two channels.
pub open spec fn side_of(l: Seq<i32>, r: Seq<i32>) -> Seq<i32> {
    Seq::new(l.len(), |i: int| arith::wrap32(l[i] - r[i]))
}

/// The mean of two channels, rounded down.
pub open spec fn mid_of(l: Seq<i32>, r: Seq<i32>) -> Seq<i32> {
    Seq::new(l.len(), |i: int| (arith::wrap32(l[i] + r[i]) as int / 2) as i32)
}

/// The four arms of a stereo block: left, right, mid, side.
pub open spec fn stereo_arms(l: Seq<i32>, r: Seq<i32>, bps: nat) -> Seq<ArmModel> {
    seq![
        arm::arm_of(l, bps),
        arm::arm_of(r, bps),
        arm::arm_of(mid_of(l, r), bps),
        arm::arm_of(side_of(l, r), bps + 1),
    ]
}

/// The analysis of the `i`-th arm of a block; none where it is missing.
pub open spec fn analysis_at(list: Seq<AnalysisModel>, i: int) -> AnalysisModel {
    if 0 <= i < list.len() {
        list[i]
    } else {
        AnalysisModel { first: None, second: None }
    }
}

/// The estimates of the `i`-th arm of a block of `n` samples that count.
pub open spec fn estimates_at(
    list: Seq<AnalysisModel>,
    i: int,
    max_lpc_order: nat,
    n: nat,
) -> AnalysisModel {
    choice::usable_both(analysis_at(list, i), choice::top_order(max_lpc_order, n))
}

/// The estimates of the four arms of a stereo block that count.
pub open spec fn stereo_estimates(list: Seq<AnalysisModel>, max_lpc_order: nat, n: nat) -> Seq<
    AnalysisModel,
> {
    Seq::new(4, |i: int| estimates_at(list, i, max_lpc_order, n))
}

/// The first arm of a mode: independent, left/side, side/right, mid/side.
pub open spec fn mode_first(m: nat) -> int {
    if m <= 1 {
        0
    } else if m == 2 {
        3
    } else {
        2
    }
}

/// The second arm of a mode.
pub open spec fn mode_second(m: nat) -> int {
    if m == 0 || m == 2 {
        1
    } else {
        3
    }
}

/// The channel assignment code of a mode.
pub open spec fn mode_code(m: nat) -> nat {
    if m == 0 {
        1
    } else {
        7 + m
    }
}

/// The estimated bits of a mode.
pub open spec fn mode_estimate(arms: Seq<ArmModel>, a: Seq<AnalysisModel>, m: nat) -> nat {
    choice::estimated_cost(arms[mode_first(m)], a[mode_first(m)].first) + choice::estimated_cost(
        arms[mode_second(m)],
        a[mode_second(m)].first,
    )
}

/// The estimated bits of the mode with the fewest.
pub open spec fn least_estimate(arms: Seq<ArmModel>, a: Seq<AnalysisModel>) -> int {
    arith::min(
        arith::min(mode_estimate(arms, a, 0) as int, mode_estimate(arms, a, 1) as int),
        arith::min(mode_estimate(arms, a, 2) as int, mode_estimate(arms, a, 3) as int),
    )
}

/// A mode is realized where its estimate is within one percent of the best.
pub open spec fn competes(arms: Seq<ArmModel>, a: Seq<AnalysisModel>, m: nat) -> bool {
    mode_estimate(arms, a, m) <= least_estimate(arms, a) + least_estimate(arms, a) / 100
}

/// The bits of a mode.
pub open spec fn mode_cost(arms: Seq<ArmModel>, a: Seq<AnalysisModel>, m: nat) -> nat {
    let i = mode_first(m);
    let j = mode_second(m);
    choice::chosen(arms[i], a[i]).cost(arms[i]) + choice::chosen(arms[j], a[j]).cost(arms[j])
}

/// The cheapest of the first `n` modes that compete, the lowest one on ties.
pub open spec fn best_mode(arms: Seq<ArmModel>, a: Seq<AnalysisModel>, n: nat) -> Option<nat>
    decreases n,
{
    if n == 0 {
        None
    } else {
        let m = (n - 1) as nat;
        let before = best_mode(arms, a, m);
        if competes(arms, a, m) && (before matches Some(b) ==> mode_cost(arms, a, m) < mode_cost(
            arms,
            a,
            b,
        )) {
            Some(m)
        } else {
            before
        }
    }
}

/// The mode that a stereo block is coded in.
pub open spec fn stereo_mode(arms: Seq<ArmModel>, a: Seq<AnalysisModel>) -> nat {
    match best_mode(arms, a, 4) {
        Some(m) => m,
        None => 0,
    }
}

/// The `i`-th arm, coded as chosen.
pub open spec fn coded(arms: Seq<ArmModel>, a: Seq<AnalysisModel>, i: int) -> CodedModel {
    CodedModel { arm: arms[i], kind: choice::chosen(arms[i], a[i]) }
}

/// The layout of a stereo block.
pub open spec fn stereo_layout(arms: Seq<ArmModel>, a: Seq<AnalysisModel>) -> LayoutModel {
    let m = stereo_mode(arms, a);
    LayoutModel {
        assignment: mode_code(m),
        subs: seq![coded(arms, a, mode_first(m)), coded(arms, a, mode_second(m))],
    }
}

/// An arm is realized where a competing mode uses it.
pub open spec fn needed(arms: Seq<ArmModel>, a: Seq<AnalysisModel>, i: int) -> bool {
    if i == 0 {
        competes(arms, a, 0) || competes(arms, a, 1)
    } else if i == 1 {
        competes(arms, a, 0) || competes(arms, a, 2)
    } else if i == 2 {
        competes(arms, a, 3)
    } else {
        competes(arms, a, 1) || competes(arms, a, 2) || competes(arms, a, 3)
    }
}

/// What realizing an arm counts, where it is needed.
pub open spec fn need_events(arms: Seq<ArmModel>, a: Seq<AnalysisModel>, i: int) -> Seq<Event> {
    if needed(arms, a, i) {
        choice::realize_events(arms[i], a[i])
    } else {
        Seq::empty()
    }
}

/// The assignment of a mode.
pub open spec fn mode_assignment(m: nat) -> Assignment {
    if m == 0 {
        Assignment::Independent
    } else if m == 1 {
        Assignment::LeftSide
    } else if m == 2 {
        Assignment::RightSide
    } else {
        Assignment::MidSide
    }
}

/// What the first `n` arms' estimates count.
pub open spec fn all_estimate_events(arms: Seq<ArmModel>, a: Seq<AnalysisModel>, n: nat) -> Seq<
    Event,
>
    decreases n,
{
    if n == 0 {
        Seq::empty()
    } else {
        all_estimate_events(arms, a, (n - 1) as nat) + choice::estimate_events(
            arms[n - 1],
            a[n - 1],
        )
    }
}

/// What realizing the needed ones of the first `n` arms counts.
pub open spec fn all_need_events(arms: Seq<ArmModel>, a: Seq<AnalysisModel>, n: nat) -> Seq<Event>
    decreases n,
{
    if n == 0 {
        Seq::empty()
    } else {
        all_need_events(arms, a, (n - 1) as nat) + need_events(arms, a, n - 1)
    }
}

/// What deciding a stereo block counts.
pub open spec fn stereo_events(arms: Seq<ArmModel>, a: Seq<AnalysisModel>) -> Seq<Event> {
    all_estimate_events(arms, a, 4) + all_need_events(arms, a, 4) + seq![
        Event::Stereo(mode_assignment(stereo_mode(arms, a))),
    ]
}

/// The `c`-th channel of a block, coded on its own.
pub open spec fn coded_alone(
    blocks: Seq<Seq<i32>>,
    bps: nat,
    list: Seq<AnalysisModel>,
    max_lpc_order: nat,
    c: int,
) -> CodedModel {
    let arm = arm::arm_of(blocks[c], bps);
    CodedModel {
        arm,
        kind: choice::chosen(arm, estimates_at(list, c, max_lpc_order, blocks[c].len())),
    }
}

/// The layout of a block whose channels are coded on their own.
pub open spec fn independent_layout(
    blocks: Seq<Seq<i32>>,
    bps: nat,
    list: Seq<AnalysisModel>,
    max_lpc_order: nat,
) -> LayoutModel {
    LayoutModel {
        assignment: (blocks.len() - 1) as nat,
        subs: Seq::new(
            blocks.len(),
            |c: int| coded_alone(blocks, bps, list, max_lpc_order, c),
        ),
    }
}

/// What analyzing an arm on its own counts.
pub open spec fn arm_events(arm: ArmModel, a: AnalysisModel) -> Seq<Event> {
    choice::estimate_events(arm, a) + choice::realize_events(arm, a)
}

/// What deciding the first `n` channels on their own counts.
pub open spec fn independent_events(
    blocks: Seq<Seq<i32>>,
    bps: nat,
    list: Seq<AnalysisModel>,
    max_lpc_order: nat,
    n: nat,
) -> Seq<Event>
    decreases n,
{
    if n == 0 {
        Seq::empty()
    } else {
        let c = n - 1;
        independent_events(blocks, bps, list, max_lpc_order, c as nat) + arm_events(
            arm::arm_of(blocks[c], bps),
            estimates_at(list, c, max_lpc_order, blocks[c].len()),
        )
    }
}

/// The layout of a block of any number of channels.
pub open spec fn layout_of(
    blocks: Seq<Seq<i32>>,
    bps: nat,
    list: Seq<AnalysisModel>,
    max_lpc_order: nat,
) -> LayoutModel {
    if blocks.len() == 2 {
        stereo_layout(
            stereo_arms(blocks[0], blocks[1], bps),
            stereo_estimates(list, max_lpc_order, blocks[0].len()),
        )
    } else {
        independent_layout(blocks, bps, list, max_lpc_order)
    }
}

/// What deciding the layout of a block counts.
pub open spec fn layout_events(
    blocks: Seq<Seq<i32>>,
    bps: nat,
    list: Seq<AnalysisModel>,
    max_lpc_order: nat,
) -> Seq<Event> {
    if blocks.len() == 2 {
        stereo_events(
            stereo_arms(blocks[0], blocks[1], bps),
            stereo_estimates(list, max_lpc_order, blocks[0].len()),
        )
    } else {
        independent_events(blocks, bps, list, max_lpc_order, blocks.len())
    }
}

// ---------------------------------------------------------------------------
// The decisions
// ---------------------------------------------------------------------------
/// An arm with its chosen subframe.
pub struct CodedArm {
    pub arm: ArmInput,
    pub choice: SubframeChoice,
}

impl View for CodedArm {
    type V = CodedModel;

    open spec fn view(&self) -> CodedModel {
        CodedModel { arm: self.arm@, kind: self.choice.kind@ }
    }
}

impl CodedArm {
    /// The choice codes the arm.
    pub open spec fn wf(&self) -> bool {
        choice::codable(self.arm@) && self.choice.codes(self.arm@)
    }
}

/// A frame's channel assignment code and its subframes.
pub struct Layout {
    pub assignment: u64,
    pub subs: Vec<CodedArm>,
}

impl View for Layout {
    type V = LayoutModel;

    open spec fn view(&self) -> LayoutModel {
        LayoutModel {
            assignment: self.assignment as nat,
            subs: Seq::new(self.subs@.len(), |i: int| self.subs@[i]@),
        }
    }
}

impl Layout {
    pub open spec fn wf(&self) -> bool {
        forall|i: int| 0 <= i < self.subs@.len() ==> (#[trigger] self.subs@[i]).wf()
    }
}

/// The models of a list of analyses.
pub open spec fn models(list: Seq<ArmAnalysis>) -> Seq<AnalysisModel> {
    Seq::new(list.len(), |i: int| list[i]@)
}

/// The analysis of the `i`-th arm; `none` where it is missing.
fn pick_analysis<'a>(list: &'a [ArmAnalysis], i: usize, none: &'a ArmAnalysis) -> (r:
    &'a ArmAnalysis)
    requires
        none@ == (AnalysisModel { first: None, second: None }),
    ensures
        r@ == analysis_at(models(list@), i as int),
{
    if i < list.len() {
        &list[i]
    } else {
        none
    }
}

/// The difference of two channels.
fn side_channel(l: &[i32], r: &[i32]) -> (side: Vec<i32>)
    requires
        l@.len() == r@.len(),
    ensures
        side@ == side_of(l@, r@),
{
    let mut side: Vec<i32> = Vec::with_capacity(l.len());
    let mut i: usize = 0;
    while i < l.len()
        invariant
            i <= l@.len() == r@.len(),
            side@ == side_of(l@, r@).take(i as int),
        decreases l@.len() - i,
    {
        proof {
            arith::lemma_truncate_i64((l@[i as int] - r@[i as int]) as i64);
        }
        side.push((l[i] as i64 - r[i] as i64) as i32);
        i = i + 1;
        assert(side@ =~= side_of(l@, r@).take(i as int));
    }
    assert(side@ =~= side_of(l@, r@));
    side
}

/// The mean of two channels, rounded down.
fn mid_channel(l: &[i32], r: &[i32]) -> (mid: Vec<i32>)
    requires
        l@.len() == r@.len(),
    ensures
        mid@ == mid_of(l@, r@),
{
    let mut mid: Vec<i32> = Vec::with_capacity(l.len());
    let mut i: usize = 0;
    while i < l.len()
        invariant
            i <= l@.len() == r@.len(),
            mid@ == mid_of(l@, r@).take(i as int),
        decreases l@.len() - i,
    {
        let sum: i32 = (l[i] as i64 + r[i] as i64) as i32;
        proof {
            arith::lemma_truncate_i64((l@[i as int] + r@[i as int]) as i64);
            arith::lemma_i32_shr(sum, 1);
            lemma2_to64();
        }
        mid.push(sum >> 1u32);
        i = i + 1;
        assert(mid@ =~= mid_of(l@, r@).take(i as int));
    }
    assert(mid@ =~= mid_of(l@, r@));
    mid
}

proof fn lemma_estimate_events_len(arms: Seq<ArmModel>, a: Seq<AnalysisModel>, n: nat)
    ensures
        all_estimate_events(arms, a, n).len() <= n,
    decreases n,
{
    if n > 0 {
        lemma_estimate_events_len(arms, a, (n - 1) as nat);
    }
}

/// Realizing an arm counts at most four events.
pub proof fn lemma_realize_events_len(arm: ArmModel, a: AnalysisModel)
    ensures
        choice::realize_events(arm, a).len() <= 4,
{
}

proof fn lemma_need_events_len(arms: Seq<ArmModel>, a: Seq<AnalysisModel>, n: nat)
    ensures
        all_need_events(arms, a, n).len() <= 4 * n,
    decreases n,
{
    if n > 0 {
        lemma_need_events_len(arms, a, (n - 1) as nat);
        lemma_realize_events_len(arms[n - 1], a[n - 1]);
    }
}

/// Arms that are ready to be estimated.
pub open spec fn prepared(arms: Seq<ArmInput>, models: Seq<ArmModel>) -> bool {
    &&& arms.len() == models.len()
    &&& forall|i: int|
        0 <= i < arms.len() ==> (#[trigger] arms[i])@ == models[i] && choice::codable(arms[i]@)
}

/// Estimate the arms of a stereo block.
fn estimate_arms(
    arms: &Vec<ArmInput>,
    list: &[ArmAnalysis],
    max_lpc_order: usize,
    Ghost(m): Ghost<Seq<ArmModel>>,
    Ghost(a): Ghost<Seq<AnalysisModel>>,
    counts: &mut EncodeStats,
) -> (r: Vec<ArmEstimate>)
    requires
        m.len() == 4,
        prepared(arms@, m),
        forall|i: int| 0 <= i < 4 ==> (#[trigger] m[i]).samples.len() == m[0].samples.len(),
        a == stereo_estimates(models(list@), max_lpc_order as nat, m[0].samples.len()),
        max_lpc_order <= LPC_MAX_ORDER,
        stats::room(old(counts)@, 4),
    ensures
        r@.len() == 4,
        forall|i: int|
            0 <= i < 4 ==> (#[trigger] r@[i]).constant == arm::constant_of(m[i].samples)
                && r@[i].est_bits == choice::estimated_cost(m[i], a[i].first) && r@[i].est_bits
                <= 0x40_0000,
        final(counts)@ == stats::tallied(old(counts)@, all_estimate_events(m, a, 4)),
{
    let none: ArmAnalysis = ArmAnalysis { first: None, second: None };
    let ghost start = counts@;
    let mut ests: Vec<ArmEstimate> = Vec::new();
    let mut i: usize = 0;
    proof {
        stats::lemma_tallied_empty(start);
    }
    while i < 4
        invariant
            i <= 4,
            m.len() == 4,
            prepared(arms@, m),
            forall|i: int| 0 <= i < 4 ==> (#[trigger] m[i]).samples.len() == m[0].samples.len(),
            a == stereo_estimates(models(list@), max_lpc_order as nat, m[0].samples.len()),
            max_lpc_order <= LPC_MAX_ORDER,
            none@ == (AnalysisModel { first: None, second: None }),
            stats::room(start, 4),
            ests@.len() == i,
            forall|j: int|
                0 <= j < i ==> (#[trigger] ests@[j]).constant == arm::constant_of(m[j].samples)
                    && ests@[j].est_bits == choice::estimated_cost(m[j], a[j].first)
                    && ests@[j].est_bits <= 0x40_0000,
            counts@ == stats::tallied(start, all_estimate_events(m, a, i as nat)),
        decreases 4 - i,
    {
        let analysis: &ArmAnalysis = pick_analysis(list, i, &none);
        proof {
            assert(arms@[i as int]@ == m[i as int]);
            assert(m[i as int].samples.len() == m[0].samples.len());
            lemma_estimate_events_len(m, a, i as nat);
            stats::lemma_room(start, all_estimate_events(m, a, i as nat), 4);
            stats::lemma_tallied_concat(
                start,
                all_estimate_events(m, a, i as nat),
                choice::estimate_events(m[i as int], a[i as int]),
            );
        }
        let est: ArmEstimate = choice::estimate_arm(&arms[i], analysis, max_lpc_order, counts);
        ests.push(est);
        i = i + 1;
    }
    ests
}

/// Realize the arms of a stereo block that competing modes use.
fn realize_arms(
    arms: &Vec<ArmInput>,
    ests: &Vec<ArmEstimate>,
    list: &[ArmAnalysis],
    max_lpc_order: usize,
    need: [bool; 4],
    Ghost(m): Ghost<Seq<ArmModel>>,
    Ghost(a): Ghost<Seq<AnalysisModel>>,
    counts: &mut EncodeStats,
) -> (r: Vec<Option<SubframeChoice>>)
    requires
        m.len() == 4,
        prepared(arms@, m),
        forall|i: int| 0 <= i < 4 ==> (#[trigger] m[i]).samples.len() == m[0].samples.len(),
        a == stereo_estimates(models(list@), max_lpc_order as nat, m[0].samples.len()),
        max_lpc_order <= LPC_MAX_ORDER,
        ests@.len() == 4,
        forall|i: int|
            0 <= i < 4 ==> (#[trigger] ests@[i]).constant == arm::constant_of(m[i].samples),
        forall|i: int| 0 <= i < 4 ==> #[trigger] need[i] == needed(m, a, i),
        stats::room(old(counts)@, 16),
    ensures
        r@.len() == 4,
        forall|i: int|
            0 <= i < 4 ==> match #[trigger] r@[i] {
                Some(c) => need[i] && c.codes(m[i]) && c.kind@ == choice::chosen(m[i], a[i]),
                None => !need[i],
            },
        final(counts)@ == stats::tallied(old(counts)@, all_need_events(m, a, 4)),
{
    let none: ArmAnalysis = ArmAnalysis { first: None, second: None };
    let ghost start = counts@;
    let mut choices: Vec<Option<SubframeChoice>> = Vec::new();
    let mut i: usize = 0;
    proof {
        stats::lemma_tallied_empty(start);
    }
    while i < 4
        invariant
            i <= 4,
            m.len() == 4,
            prepared(arms@, m),
            forall|i: int| 0 <= i < 4 ==> (#[trigger] m[i]).samples.len() == m[0].samples.len(),
            a == stereo_estimates(models(list@), max_lpc_order as nat, m[0].samples.len()),
            max_lpc_order <= LPC_MAX_ORDER,
            ests@.len() == 4,
            forall|i: int|
                0 <= i < 4 ==> (#[trigger] ests@[i]).constant == arm::constant_of(m[i].samples),
            forall|i: int| 0 <= i < 4 ==> #[trigger] need[i] == needed(m, a, i),
            none@ == (AnalysisModel { first: None, second: None }),
            stats::room(start, 16),
            choices@.len() == i,
            forall|j: int|
                0 <= j < i ==> match #[trigger] choices@[j] {
                    Some(c) => need[j] && c.codes(m[j]) && c.kind@ == choice::chosen(m[j], a[j]),
                    None => !need[j],
                },
            counts@ == stats::tallied(start, all_need_events(m, a, i as nat)),
        decreases 4 - i,
    {
        proof {
            assert(arms@[i as int]@ == m[i as int]);
            assert(m[i as int].samples.len() == m[0].samples.len());
            assert(ests@[i as int].constant == arm::constant_of(m[i as int].samples));
            assert(need[i as int] == needed(m, a, i as int));
            lemma_need_events_len(m, a, i as nat);
            stats::lemma_room(start, all_need_events(m, a, i as nat), 16);
            stats::lemma_tallied_concat(
                start,
                all_need_events(m, a, i as nat),
                need_events(m, a, i as int),
            );
            stats::lemma_tallied_empty(counts@);
        }
        if need[i] {
            let analysis: &ArmAnalysis = pick_analysis(list, i, &none);
            let c: SubframeChoice = choice::realize_arm(
                &arms[i],
                &ests[i],
                analysis,
                max_lpc_order,
                counts,
            );
            choices.push(Some(c));
        } else {
            choices.push(None);
        }
        i = i + 1;
    }
    choices
}

/// The mode with the fewest estimated bits competes.
proof fn lemma_some_mode_competes(arms: Seq<ArmModel>, a: Seq<AnalysisModel>)
    ensures
        best_mode(arms, a, 4) is Some,
        best_mode(arms, a, 4)->0 < 4,
        competes(arms, a, best_mode(arms, a, 4)->0),
{
    reveal_with_fuel(best_mode, 5);
    assert(least_estimate(arms, a) >= 0);
}

/// A stereo block is coded in one of the four modes, and in one that competes.
pub proof fn lemma_stereo_mode(arms: Seq<ArmModel>, a: Seq<AnalysisModel>)
    ensures
        stereo_mode(arms, a) < 4,
        competes(arms, a, stereo_mode(arms, a)),
{
    lemma_some_mode_competes(arms, a);
}

/// The modes that compete, from the arms' estimated bits.
fn competing_modes(
    ests: &Vec<ArmEstimate>,
    Ghost(m): Ghost<Seq<ArmModel>>,
    Ghost(a): Ghost<Seq<AnalysisModel>>,
) -> (r: [bool; 4])
    requires
        ests@.len() == 4,
        forall|i: int|
            0 <= i < 4 ==> (#[trigger] ests@[i]).est_bits == choice::estimated_cost(
                m[i],
                a[i].first,
            ) && ests@[i].est_bits <= 0x40_0000,
    ensures
        forall|k: int| 0 <= k < 4 ==> #[trigger] r[k] == competes(m, a, k as nat),
{
    let e0: u64 = ests[0].est_bits + ests[1].est_bits;
    let e1: u64 = ests[0].est_bits + ests[3].est_bits;
    let e2: u64 = ests[3].est_bits + ests[1].est_bits;
    let e3: u64 = ests[2].est_bits + ests[3].est_bits;
    let e01: u64 = if e0 <= e1 {
        e0
    } else {
        e1
    };
    let e23: u64 = if e2 <= e3 {
        e2
    } else {
        e3
    };
    let least: u64 = if e01 <= e23 {
        e01
    } else {
        e23
    };
    let cutoff: u64 = least + least / 100;
    assert(e0 == mode_estimate(m, a, 0) && e1 == mode_estimate(m, a, 1) && e2 == mode_estimate(
        m,
        a,
        2,
    ) && e3 == mode_estimate(m, a, 3));
    [e0 <= cutoff, e1 <= cutoff, e2 <= cutoff, e3 <= cutoff]
}

/// The bits of a mode whose arms are both realized.
fn pair_bits(choices: &Vec<Option<SubframeChoice>>, i: usize, j: usize) -> (r: u64)
    requires
        i < choices@.len(),
        j < choices@.len(),
        choices@[i as int] is Some,
        choices@[j as int] is Some,
        choices@[i as int]->0.bits + choices@[j as int]->0.bits <= u64::MAX,
    ensures
        r == choices@[i as int]->0.bits + choices@[j as int]->0.bits,
{
    let x: u64 = match &choices[i] {
        Some(c) => c.bits,
        None => 0,
    };
    let y: u64 = match &choices[j] {
        Some(c) => c.bits,
        None => 0,
    };
    x + y
}

/// The arms of a mode.
fn arms_of_mode(k: usize) -> (r: (usize, usize))
    requires
        k < 4,
    ensures
        r.0 == mode_first(k as nat),
        r.1 == mode_second(k as nat),
        r.0 < 4,
        r.1 < 4,
{
    if k == 0 {
        (0, 1)
    } else if k == 1 {
        (0, 3)
    } else if k == 2 {
        (3, 1)
    } else {
        (2, 3)
    }
}

/// Both arms of a competing mode are needed.
proof fn lemma_mode_needs(m: Seq<ArmModel>, a: Seq<AnalysisModel>, k: nat)
    requires
        k < 4,
        competes(m, a, k),
    ensures
        needed(m, a, mode_first(k)),
        needed(m, a, mode_second(k)),
{
}

/// The exact decision over the competing modes.
fn pick_mode(
    choices: &Vec<Option<SubframeChoice>>,
    competing: [bool; 4],
    Ghost(m): Ghost<Seq<ArmModel>>,
    Ghost(a): Ghost<Seq<AnalysisModel>>,
) -> (r: usize)
    requires
        choices@.len() == 4,
        forall|k: int| 0 <= k < 4 ==> #[trigger] competing[k] == competes(m, a, k as nat),
        forall|i: int|
            0 <= i < 4 ==> match #[trigger] choices@[i] {
                Some(c) => c.bits == choice::chosen(m[i], a[i]).cost(m[i]) && c.bits
                    <= 0x100_0000_0000_0000,
                None => !needed(m, a, i),
            },
    ensures
        r == stereo_mode(m, a),
        r < 4,
        competes(m, a, r as nat),
{
    let mut mode: Option<usize> = None;
    let mut least: u64 = 0;
    let mut k: usize = 0;
    while k < 4
        invariant
            k <= 4,
            choices@.len() == 4,
            forall|k: int| 0 <= k < 4 ==> #[trigger] competing[k] == competes(m, a, k as nat),
            forall|i: int|
                0 <= i < 4 ==> match #[trigger] choices@[i] {
                    Some(c) => c.bits == choice::chosen(m[i], a[i]).cost(m[i]) && c.bits
                        <= 0x100_0000_0000_0000,
                    None => !needed(m, a, i),
                },
            match mode {
                Some(b) => best_mode(m, a, k as nat) == Some(b as nat) && b < 4 && least
                    == mode_cost(m, a, b as nat),
                None => best_mode(m, a, k as nat) is None,
            },
        decreases 4 - k,
    {
        assert(competing[k as int] == competes(m, a, k as nat));
        if competing[k] {
            let (i, j): (usize, usize) = arms_of_mode(k);
            proof {
                lemma_mode_needs(m, a, k as nat);
                assert(choices@[i as int] is Some);
                assert(choices@[j as int] is Some);
            }
            let bits: u64 = pair_bits(choices, i, j);
            match mode {
                Some(_) => {
                    if bits < least {
                        mode = Some(k);
                        least = bits;
                    }
                },
                None => {
                    mode = Some(k);
                    least = bits;
                },
            }
        }
        k = k + 1;
    }
    proof {
        lemma_some_mode_competes(m, a);
    }
    match mode {
        Some(b) => b,
        None => 0,
    }
}

proof fn lemma_choice_bits(arm: ArmModel, a: AnalysisModel)
    requires
        choice::codable(arm),
    ensures
        choice::chosen(arm, a).cost(arm) <= 0x40_0000,
{
    choice::lemma_chosen_at_most_verbatim(arm, a);
    reveal(KindModel::cost);
    assert(0 <= arm.samples.len() * arm.depth <= 65536 * 32) by (nonlinear_arith)
        requires
            arm.samples.len() <= 65536,
            arm.depth <= 32,
    ;
}

/// Prepare the four arms of a stereo block.
pub(crate) fn prepare_arms(l: &[i32], r: &[i32], bps: u32) -> (arms: Vec<ArmInput>)
    requires
        1 <= l@.len() <= 65536,
        l@.len() == r@.len(),
        1 <= bps <= 31,
    ensures
        prepared(arms@, stereo_arms(l@, r@, bps as nat)),
{
    let mid: Vec<i32> = mid_channel(l, r);
    let side: Vec<i32> = side_channel(l, r);
    let mut arms: Vec<ArmInput> = Vec::new();
    arms.push(ArmInput::prepare(l, bps));
    arms.push(ArmInput::prepare(r, bps));
    arms.push(ArmInput::prepare(mid.as_slice(), bps));
    arms.push(ArmInput::prepare(side.as_slice(), bps + 1));
    arms
}

/// The two coded arms of a mode.
fn take_pair(arms: Vec<ArmInput>, choices: Vec<Option<SubframeChoice>>, mode: usize) -> (r: Vec<
    CodedArm,
>)
    requires
        arms@.len() == 4,
        choices@.len() == 4,
        mode < 4,
        choices@[mode_first(mode as nat)] is Some,
        choices@[mode_second(mode as nat)] is Some,
    ensures
        r@.len() == 2,
        r@[0].arm == arms@[mode_first(mode as nat)],
        r@[1].arm == arms@[mode_second(mode as nat)],
        r@[0].choice == choices@[mode_first(mode as nat)]->0,
        r@[1].choice == choices@[mode_second(mode as nat)]->0,
{
    let mut arms: Vec<ArmInput> = arms;
    let mut choices: Vec<Option<SubframeChoice>> = choices;
    let (i, j): (usize, usize) = arms_of_mode(mode);
    let mut subs: Vec<CodedArm> = Vec::new();
    if i < j {
        let second: CodedArm = CodedArm { arm: arms.remove(j), choice: choices.remove(j).unwrap() };
        let first: CodedArm = CodedArm { arm: arms.remove(i), choice: choices.remove(i).unwrap() };
        subs.push(first);
        subs.push(second);
    } else {
        let first: CodedArm = CodedArm { arm: arms.remove(i), choice: choices.remove(i).unwrap() };
        let second: CodedArm = CodedArm { arm: arms.remove(j), choice: choices.remove(j).unwrap() };
        subs.push(first);
        subs.push(second);
    }
    subs
}

/// The arms that competing modes use.
fn needed_arms(
    competing: [bool; 4],
    Ghost(m): Ghost<Seq<ArmModel>>,
    Ghost(a): Ghost<Seq<AnalysisModel>>,
) -> (need: [bool; 4])
    requires
        forall|k: int| 0 <= k < 4 ==> #[trigger] competing[k] == competes(m, a, k as nat),
    ensures
        forall|i: int| 0 <= i < 4 ==> #[trigger] need[i] == needed(m, a, i),
{
    assert(competing[0] == competes(m, a, 0));
    assert(competing[1] == competes(m, a, 1));
    assert(competing[2] == competes(m, a, 2));
    assert(competing[3] == competes(m, a, 3));
    [
        competing[0] || competing[1],
        competing[0] || competing[2],
        competing[3],
        competing[1] || competing[2] || competing[3],
    ]
}

/// Estimate the arms, realize those that are needed, and decide on the mode.
fn decide_mode(
    arms: &Vec<ArmInput>,
    list: &[ArmAnalysis],
    max_lpc_order: usize,
    Ghost(m): Ghost<Seq<ArmModel>>,
    Ghost(a): Ghost<Seq<AnalysisModel>>,
    counts: &mut EncodeStats,
) -> (r: (Vec<Option<SubframeChoice>>, usize))
    requires
        m.len() == 4,
        prepared(arms@, m),
        forall|i: int| 0 <= i < 4 ==> (#[trigger] m[i]).samples.len() == m[0].samples.len(),
        a == stereo_estimates(models(list@), max_lpc_order as nat, m[0].samples.len()),
        max_lpc_order <= LPC_MAX_ORDER,
        stats::room(old(counts)@, 20),
    ensures
        r.0@.len() == 4,
        forall|i: int|
            0 <= i < 4 ==> ((#[trigger] r.0@[i]) matches Some(c) ==> c.codes(m[i]) && c.kind@
                == choice::chosen(m[i], a[i])),
        r.1 == stereo_mode(m, a),
        r.1 < 4,
        r.0@[mode_first(r.1 as nat)] is Some,
        r.0@[mode_second(r.1 as nat)] is Some,
        final(counts)@ == stats::tallied(
            old(counts)@,
            all_estimate_events(m, a, 4) + all_need_events(m, a, 4),
        ),
{
    let ghost start = counts@;
    let ests: Vec<ArmEstimate> = estimate_arms(
        arms,
        list,
        max_lpc_order,
        Ghost(m),
        Ghost(a),
        counts,
    );
    let competing: [bool; 4] = competing_modes(&ests, Ghost(m), Ghost(a));
    let need: [bool; 4] = needed_arms(competing, Ghost(m), Ghost(a));
    proof {
        lemma_estimate_events_len(m, a, 4);
        stats::lemma_room(start, all_estimate_events(m, a, 4), 20);
        stats::lemma_tallied_concat(
            start,
            all_estimate_events(m, a, 4),
            all_need_events(m, a, 4),
        );
    }
    let choices: Vec<Option<SubframeChoice>> = realize_arms(
        arms,
        &ests,
        list,
        max_lpc_order,
        need,
        Ghost(m),
        Ghost(a),
        counts,
    );
    proof {
        assert forall|i: int| 0 <= i < 4 implies match #[trigger] choices@[i] {
            Some(c) => c.bits == choice::chosen(m[i], a[i]).cost(m[i]) && c.bits
                <= 0x100_0000_0000_0000,
            None => !needed(m, a, i),
        } by {
            assert(arms@[i]@ == m[i]);
            lemma_choice_bits(m[i], a[i]);
        }
    }
    let mode: usize = pick_mode(&choices, competing, Ghost(m), Ghost(a));
    proof {
        lemma_mode_needs(m, a, mode as nat);
    }
    (choices, mode)
}

/// Count the channel assignment of a mode and give its code.
fn assign(mode: usize, counts: &mut EncodeStats) -> (r: u64)
    requires
        mode < 4,
        stats::room(old(counts)@, 1),
    ensures
        r == mode_code(mode as nat),
        final(counts)@ == stats::tallied(
            old(counts)@,
            seq![Event::Stereo(mode_assignment(mode as nat))],
        ),
{
    if mode == 0 {
        counts.count(Event::Stereo(Assignment::Independent));
        1
    } else if mode == 1 {
        counts.count(Event::Stereo(Assignment::LeftSide));
        8
    } else if mode == 2 {
        counts.count(Event::Stereo(Assignment::RightSide));
        9
    } else {
        counts.count(Event::Stereo(Assignment::MidSide));
        10
    }
}

/// Lay out a stereo block from its arms.
fn lay_out_stereo(
    arms: Vec<ArmInput>,
    list: &[ArmAnalysis],
    max_lpc_order: usize,
    Ghost(m): Ghost<Seq<ArmModel>>,
    Ghost(a): Ghost<Seq<AnalysisModel>>,
    counts: &mut EncodeStats,
) -> (layout: Layout)
    requires
        m.len() == 4,
        prepared(arms@, m),
        forall|i: int| 0 <= i < 4 ==> (#[trigger] m[i]).samples.len() == m[0].samples.len(),
        a == stereo_estimates(models(list@), max_lpc_order as nat, m[0].samples.len()),
        max_lpc_order <= LPC_MAX_ORDER,
        stats::room(old(counts)@, 21),
    ensures
        layout.wf(),
        layout@ == stereo_layout(m, a),
        final(counts)@ == stats::tallied(old(counts)@, stereo_events(m, a)),
{
    let ghost start = counts@;
    let (choices, mode): (Vec<Option<SubframeChoice>>, usize) = decide_mode(
        &arms,
        list,
        max_lpc_order,
        Ghost(m),
        Ghost(a),
        counts,
    );
    proof {
        let h = all_estimate_events(m, a, 4) + all_need_events(m, a, 4);
        lemma_estimate_events_len(m, a, 4);
        lemma_need_events_len(m, a, 4);
        stats::lemma_room(start, h, 21);
        stats::lemma_tallied_concat(
            start,
            h,
            seq![Event::Stereo(mode_assignment(mode as nat))],
        );
        assert(arms@[mode_first(mode as nat)]@ == m[mode_first(mode as nat)]);
        assert(arms@[mode_second(mode as nat)]@ == m[mode_second(mode as nat)]);
    }
    let subs: Vec<CodedArm> = take_pair(arms, choices, mode);
    let assignment: u64 = assign(mode, counts);
    let layout: Layout = Layout { assignment, subs };
    assert(layout@.subs =~= stereo_layout(m, a).subs);
    layout
}

/// Choose the cheapest of the four FLAC stereo modes for one block. The side
/// channel is left minus right, one bit deeper; the mid channel is the mean.
///
/// Every arm gets a cheap estimate; only the arms that estimate-competitive
/// modes use are realized, and the final decision uses exact costs.
pub fn decide_stereo(
    l: &[i32],
    r: &[i32],
    bps: u32,
    list: &[ArmAnalysis],
    max_lpc_order: usize,
    counts: &mut EncodeStats,
) -> (layout: Layout)
    requires
        1 <= l@.len() <= 65536,
        l@.len() == r@.len(),
        1 <= bps <= 31,
        max_lpc_order <= LPC_MAX_ORDER,
        stats::room(old(counts)@, 21),
    ensures
        layout.wf(),
        layout@ == stereo_layout(
            stereo_arms(l@, r@, bps as nat),
            stereo_estimates(models(list@), max_lpc_order as nat, l@.len()),
        ),
        final(counts)@ == stats::tallied(
            old(counts)@,
            stereo_events(
                stereo_arms(l@, r@, bps as nat),
                stereo_estimates(models(list@), max_lpc_order as nat, l@.len()),
            ),
        ),
{
    let ghost m = stereo_arms(l@, r@, bps as nat);
    let ghost a = stereo_estimates(models(list@), max_lpc_order as nat, l@.len());
    let arms: Vec<ArmInput> = prepare_arms(l, r, bps);
    lay_out_stereo(arms, list, max_lpc_order, Ghost(m), Ghost(a), counts)
}

/// Choose the cheapest subframe of an arm on its own.
pub fn analyze_subframe(
    arm: &ArmInput,
    analysis: &ArmAnalysis,
    max_lpc_order: usize,
    counts: &mut EncodeStats,
) -> (r: SubframeChoice)
    requires
        choice::codable(arm@),
        max_lpc_order <= LPC_MAX_ORDER,
        stats::room(old(counts)@, 5),
    ensures
        r.codes(arm@),
        r.kind@ == choice::chosen(
            arm@,
            choice::usable_both(
                analysis@,
                choice::top_order(max_lpc_order as nat, arm.samples@.len()),
            ),
        ),
        final(counts)@ == stats::tallied(
            old(counts)@,
            arm_events(
                arm@,
                choice::usable_both(
                    analysis@,
                    choice::top_order(max_lpc_order as nat, arm.samples@.len()),
                ),
            ),
        ),
{
    let ghost a = choice::usable_both(
        analysis@,
        choice::top_order(max_lpc_order as nat, arm.samples@.len()),
    );
    let ghost start = counts@;
    let est: ArmEstimate = choice::estimate_arm(arm, analysis, max_lpc_order, counts);
    proof {
        stats::lemma_room(start, choice::estimate_events(arm@, a), 5);
        stats::lemma_tallied_concat(
            start,
            choice::estimate_events(arm@, a),
            choice::realize_events(arm@, a),
        );
    }
    choice::realize_arm(arm, &est, analysis, max_lpc_order, counts)
}

proof fn lemma_independent_events_len(
    blocks: Seq<Seq<i32>>,
    bps: nat,
    list: Seq<AnalysisModel>,
    max_lpc_order: nat,
    n: nat,
)
    ensures
        independent_events(blocks, bps, list, max_lpc_order, n).len() <= 5 * n,
    decreases n,
{
    if n > 0 {
        lemma_independent_events_len(blocks, bps, list, max_lpc_order, (n - 1) as nat);
        lemma_realize_events_len(
            arm::arm_of(blocks[n - 1], bps),
            estimates_at(list, n - 1, max_lpc_order, blocks[n - 1].len()),
        );
    }
}

/// Deciding the layout of a block counts at most 40 events.
pub proof fn lemma_layout_events_len(
    blocks: Seq<Seq<i32>>,
    bps: nat,
    list: Seq<AnalysisModel>,
    max_lpc_order: nat,
)
    requires
        blocks.len() <= 8,
    ensures
        layout_events(blocks, bps, list, max_lpc_order).len() <= 40,
{
    if blocks.len() == 2 {
        let m = stereo_arms(blocks[0], blocks[1], bps);
        let a = stereo_estimates(list, max_lpc_order, blocks[0].len());
        lemma_estimate_events_len(m, a, 4);
        lemma_need_events_len(m, a, 4);
    } else {
        lemma_independent_events_len(blocks, bps, list, max_lpc_order, blocks.len());
    }
}

/// The slices hold the channels of a block: all equally long, not empty, and no
/// longer than a frame allows.
pub open spec fn shows(blocks: Seq<&[i32]>, b: Seq<Seq<i32>>) -> bool {
    &&& 1 <= b.len() == blocks.len() <= 8
    &&& forall|c: int|
        0 <= c < b.len() ==> (#[trigger] blocks[c])@ == b[c] && b[c].len() == b[0].len()
    &&& 1 <= b[0].len() <= 65536
}

/// Code every channel on its own.
#[verifier::spinoff_prover]
fn decide_independent(
    blocks: &Vec<&[i32]>,
    bps: u32,
    list: &[ArmAnalysis],
    max_lpc_order: usize,
    Ghost(b): Ghost<Seq<Seq<i32>>>,
    counts: &mut EncodeStats,
) -> (layout: Layout)
    requires
        shows(blocks@, b),
        1 <= bps <= 32,
        max_lpc_order <= LPC_MAX_ORDER,
        stats::room(old(counts)@, 40),
    ensures
        layout.wf(),
        layout@ == independent_layout(b, bps as nat, models(list@), max_lpc_order as nat),
        final(counts)@ == stats::tallied(
            old(counts)@,
            independent_events(
                b,
                bps as nat,
                models(list@),
                max_lpc_order as nat,
                b.len(),
            ),
        ),
{
    let none: ArmAnalysis = ArmAnalysis { first: None, second: None };
    let ghost start = counts@;
    let ghost l = models(list@);
    let ghost o = max_lpc_order as nat;
    let mut subs: Vec<CodedArm> = Vec::new();
    let mut c: usize = 0;
    proof {
        stats::lemma_tallied_empty(start);
    }
    while c < blocks.len()
        invariant
            c <= blocks@.len(),
            shows(blocks@, b),
            1 <= bps <= 32,
            max_lpc_order <= LPC_MAX_ORDER,
            l == models(list@),
            o == max_lpc_order,
            none@ == (AnalysisModel { first: None, second: None }),
            stats::room(start, 40),
            subs@.len() == c,
            forall|i: int|
                0 <= i < c ==> (#[trigger] subs@[i]).wf() && subs@[i]@ == coded_alone(
                    b,
                    bps as nat,
                    l,
                    o,
                    i,
                ),
            counts@ == stats::tallied(
                start,
                independent_events(b, bps as nat, l, o, c as nat),
            ),
        decreases blocks@.len() - c,
    {
        assert(blocks@[c as int]@ == b[c as int]);
        let arm: ArmInput = ArmInput::prepare(blocks[c], bps);
        let analysis: &ArmAnalysis = pick_analysis(list, c, &none);
        proof {
            let h = independent_events(b, bps as nat, l, o, c as nat);
            lemma_independent_events_len(b, bps as nat, l, o, c as nat);
            stats::lemma_room(start, h, 40);
            stats::lemma_tallied_concat(
                start,
                h,
                arm_events(arm@, estimates_at(l, c as int, o, b[c as int].len())),
            );
        }
        let choice: SubframeChoice = analyze_subframe(&arm, analysis, max_lpc_order, counts);
        subs.push(CodedArm { arm, choice });
        c = c + 1;
    }
    let layout: Layout = Layout { assignment: blocks.len() as u64 - 1, subs };
    assert(layout@.subs =~= independent_layout(b, bps as nat, l, o).subs);
    layout
}

/// Decide the channel layout of a block.
#[verifier::spinoff_prover]
pub(crate) fn decide_layout(
    blocks: &Vec<&[i32]>,
    bps: u32,
    list: &[ArmAnalysis],
    max_lpc_order: usize,
    Ghost(b): Ghost<Seq<Seq<i32>>>,
    counts: &mut EncodeStats,
) -> (layout: Layout)
    requires
        shows(blocks@, b),
        1 <= bps <= 31,
        max_lpc_order <= LPC_MAX_ORDER,
        stats::room(old(counts)@, 40),
    ensures
        layout.wf(),
        layout@ == layout_of(b, bps as nat, models(list@), max_lpc_order as nat),
        final(counts)@ == stats::tallied(
            old(counts)@,
            layout_events(b, bps as nat, models(list@), max_lpc_order as nat),
        ),
{
    if blocks.len() == 2 {
        assert(blocks@[0]@ == b[0] && blocks@[1]@ == b[1]);
        decide_stereo(blocks[0], blocks[1], bps, list, max_lpc_order, counts)
    } else {
        decide_independent(blocks, bps, list, max_lpc_order, Ghost(b), counts)
    }
}

/// The mode decision is exact: no mode that competes is cheaper than the one
/// that is chosen, and none before it is as cheap.
pub proof fn lemma_stereo_mode_least(arms: Seq<ArmModel>, a: Seq<AnalysisModel>, m: nat)
    requires
        m < 4,
        competes(arms, a, m),
    ensures
        mode_cost(arms, a, stereo_mode(arms, a)) <= mode_cost(arms, a, m),
        m < stereo_mode(arms, a) ==> mode_cost(arms, a, stereo_mode(arms, a)) < mode_cost(
            arms,
            a,
            m,
        ),
{
    lemma_some_mode_competes(arms, a);
    lemma_best_mode_least(arms, a, 4, m);
}

proof fn lemma_best_mode_least(arms: Seq<ArmModel>, a: Seq<AnalysisModel>, n: nat, m: nat)
    requires
        m < n,
        competes(arms, a, m),
    ensures
        best_mode(arms, a, n) matches Some(b) && b < n && mode_cost(arms, a, b) <= mode_cost(
            arms,
            a,
            m,
        ) && (m < b ==> mode_cost(arms, a, b) < mode_cost(arms, a, m)),
    decreases n,
{
    if m < n - 1 {
        lemma_best_mode_least(arms, a, (n - 1) as nat, m);
    } else {
        lemma_best_mode_bound(arms, a, m);
    }
}

proof fn lemma_best_mode_bound(arms: Seq<ArmModel>, a: Seq<AnalysisModel>, n: nat)
    ensures
        best_mode(arms, a, n) matches Some(b) ==> b < n,
    decreases n,
{
    if n > 0 {
        lemma_best_mode_bound(arms, a, (n - 1) as nat);
    }
}

/// A stereo block is assigned one of the four stereo codes, any other block the
/// code of its independent channels.
pub proof fn lemma_layout_assignment(
    blocks: Seq<Seq<i32>>,
    bps: nat,
    list: Seq<AnalysisModel>,
    max_lpc_order: nat,
)
    requires
        blocks.len() >= 1,
    ensures
        ({
            let a = layout_of(blocks, bps, list, max_lpc_order).assignment;
            if blocks.len() == 2 {
                a == 1 || a == 8 || a == 9 || a == 10
            } else {
                a == blocks.len() - 1
            }
        }),
{
    if blocks.len() == 2 {
        lemma_stereo_mode(
            stereo_arms(blocks[0], blocks[1], bps),
            stereo_estimates(list, max_lpc_order, blocks[0].len()),
        );
    }
}

/// What the mid and the side of two channels are, for samples of up to 31 bits:
/// the side is the difference, the mid the mean rounded down.
pub proof fn lemma_mid_and_side(l: Seq<i32>, r: Seq<i32>, i: int)
    requires
        l.len() == r.len(),
        0 <= i < l.len(),
        -0x4000_0000 <= l[i] < 0x4000_0000,
        -0x4000_0000 <= r[i] < 0x4000_0000,
    ensures
        mid_of(l, r).len() == l.len(),
        side_of(l, r).len() == l.len(),
        side_of(l, r)[i] == l[i] - r[i],
        2 * mid_of(l, r)[i] <= l[i] + r[i] <= 2 * mid_of(l, r)[i] + 1,
{
}

} // verus!
