//! What the counters promise: no frame, no subframe and no residual goes
//! uncounted, and the histograms add up.
use crate::arm::ArmModel;
use crate::choice;
use crate::choice::{AnalysisModel, KindModel};
use crate::economy;
use crate::encode;
use crate::encode::EncoderModel;
use crate::frame;
use crate::layout;
use crate::layout::CodedModel;
use crate::partition;
use crate::roundtrip;
use crate::stats;
use crate::stats::{Assignment, Event};
use crate::subframe;
use vstd::prelude::*;

verus! {

/// How often any of the subframe kinds was counted.
pub open spec fn kinds(h: Seq<Event>) -> nat {
    stats::count(h, Event::Constant) + stats::count(h, Event::Verbatim) + stats::count(
        h,
        Event::Fixed,
    ) + stats::count(h, Event::Lpc)
}

/// How often a predictive subframe was counted.
pub open spec fn predictive(h: Seq<Event>) -> nat {
    stats::count(h, Event::Fixed) + stats::count(h, Event::Lpc)
}

/// How often any of the stereo assignments was counted.
pub open spec fn stereo_modes(h: Seq<Event>) -> nat {
    stats::count(h, Event::Stereo(Assignment::Independent)) + stats::count(
        h,
        Event::Stereo(Assignment::LeftSide),
    ) + stats::count(h, Event::Stereo(Assignment::RightSide)) + stats::count(
        h,
        Event::Stereo(Assignment::MidSide),
    )
}

/// The sum of the first `n` entries of the partition order histogram.
pub open spec fn partition_orders(h: Seq<Event>, n: nat) -> nat
    decreases n,
{
    if n == 0 {
        0
    } else {
        partition_orders(h, (n - 1) as nat) + stats::count(
            h,
            Event::PartitionOrder((n - 1) as u32),
        )
    }
}

/// The sum of the first `n` entries of the fixed order histogram.
pub open spec fn fixed_orders(h: Seq<Event>, n: nat) -> nat
    decreases n,
{
    if n == 0 {
        0
    } else {
        fixed_orders(h, (n - 1) as nat) + stats::count(h, Event::FixedOrder((n - 1) as u32))
    }
}

/// What every history of whole frames satisfies: `frames` frames of
/// `subframes` subframes, of which `pairs` frames were stereo.
pub open spec fn adds_up(h: Seq<Event>, frames: int, subframes: int, pairs: int) -> bool {
    &&& stats::count(h, Event::Frame) == frames
    &&& kinds(h) == subframes
    &&& stereo_modes(h) == pairs
    &&& partition_orders(h, 9) == predictive(h)
    &&& fixed_orders(h, 5) == stats::count(h, Event::Fixed)
}

proof fn lemma_orders_concat(a: Seq<Event>, b: Seq<Event>, n: nat)
    requires
        n <= 9,
    ensures
        partition_orders(a + b, n) == partition_orders(a, n) + partition_orders(b, n),
        fixed_orders(a + b, n) == fixed_orders(a, n) + fixed_orders(b, n),
    decreases n,
{
    if n > 0 {
        lemma_orders_concat(a, b, (n - 1) as nat);
        stats::lemma_count_concat(a, b, Event::PartitionOrder((n - 1) as u32));
        stats::lemma_count_concat(a, b, Event::FixedOrder((n - 1) as u32));
    }
}

/// Histories add up together.
proof fn lemma_adds_up_concat(
    a: Seq<Event>,
    b: Seq<Event>,
    fa: int,
    sa: int,
    pa: int,
    fb: int,
    sb: int,
    pb: int,
)
    requires
        adds_up(a, fa, sa, pa),
        adds_up(b, fb, sb, pb),
    ensures
        adds_up(a + b, fa + fb, sa + sb, pa + pb),
{
    stats::lemma_count_concat(a, b, Event::Frame);
    stats::lemma_count_concat(a, b, Event::Constant);
    stats::lemma_count_concat(a, b, Event::Verbatim);
    stats::lemma_count_concat(a, b, Event::Fixed);
    stats::lemma_count_concat(a, b, Event::Lpc);
    stats::lemma_count_concat(a, b, Event::Stereo(Assignment::Independent));
    stats::lemma_count_concat(a, b, Event::Stereo(Assignment::LeftSide));
    stats::lemma_count_concat(a, b, Event::Stereo(Assignment::RightSide));
    stats::lemma_count_concat(a, b, Event::Stereo(Assignment::MidSide));
    lemma_orders_concat(a, b, 9);
    lemma_orders_concat(a, b, 5);
}

/// An event that the audit does not weigh.
spec fn aside(e: Event) -> bool {
    e == Event::LevinsonExhausted || e == Event::QuantizeFailed || e == Event::SecondWindowWon || e
        == Event::WastedBits
}

proof fn lemma_empty_adds_up()
    ensures
        adds_up(Seq::empty(), 0, 0, 0),
{
    reveal_with_fuel(partition_orders, 10);
    reveal_with_fuel(fixed_orders, 6);
}

/// A single event.
proof fn lemma_one(e: Event, x: Event)
    ensures
        stats::count(seq![e], x) == (if x == e {
            1nat
        } else {
            0nat
        }),
{
    let one = seq![e];
    assert(one.drop_last() =~= Seq::<Event>::empty());
    assert(stats::count(one.drop_last(), x) == 0);
}

proof fn lemma_one_all(e: Event)
    ensures
        forall|x: Event| #[trigger]
            stats::count(seq![e], x) == (if x == e {
                1nat
            } else {
                0nat
            }),
{
    assert forall|x: Event| #[trigger] stats::count(seq![e], x) == (if x == e {
        1nat
    } else {
        0nat
    }) by {
        lemma_one(e, x);
    }
}

/// Events that are not weighed change nothing.
proof fn lemma_asides(h: Seq<Event>)
    requires
        forall|i: int| 0 <= i < h.len() ==> aside(#[trigger] h[i]),
    ensures
        adds_up(h, 0, 0, 0),
    decreases h.len(),
{
    if h.len() == 0 {
        assert(h =~= Seq::empty());
        lemma_empty_adds_up();
    } else {
        let t = h.drop_last();
        let e = h.last();
        assert(aside(h[h.len() - 1]));
        lemma_asides(t);
        lemma_one_all(e);
        reveal_with_fuel(partition_orders, 10);
        reveal_with_fuel(fixed_orders, 6);
        assert(adds_up(seq![e], 0, 0, 0));
        lemma_adds_up_concat(t, seq![e], 0, 0, 0, 0, 0, 0);
        assert(t + seq![e] =~= h);
    }
}

proof fn lemma_stereo_one(m: nat)
    requires
        m < 4,
    ensures
        adds_up(seq![Event::Stereo(layout::mode_assignment(m))], 0, 0, 1),
{
    lemma_one_all(Event::Stereo(layout::mode_assignment(m)));
    reveal_with_fuel(partition_orders, 10);
    reveal_with_fuel(fixed_orders, 6);
}

proof fn lemma_frame_one()
    ensures
        adds_up(seq![Event::Frame], 1, 0, 0),
{
    lemma_one_all(Event::Frame);
    reveal_with_fuel(partition_orders, 10);
    reveal_with_fuel(fixed_orders, 6);
}

proof fn lemma_realize_aside(a: ArmModel, e: AnalysisModel)
    ensures
        forall|i: int|
            0 <= i < choice::realize_events(a, e).len() ==> aside(
                #[trigger] choice::realize_events(a, e)[i],
            ),
        forall|i: int|
            0 <= i < choice::estimate_events(a, e).len() ==> aside(
                #[trigger] choice::estimate_events(a, e)[i],
            ),
{
}

proof fn lemma_estimates_add_up(arms: Seq<ArmModel>, a: Seq<AnalysisModel>, n: nat)
    ensures
        adds_up(layout::all_estimate_events(arms, a, n), 0, 0, 0),
    decreases n,
{
    if n == 0 {
        lemma_empty_adds_up();
    } else {
        lemma_estimates_add_up(arms, a, (n - 1) as nat);
        lemma_realize_aside(arms[n - 1], a[n - 1]);
        lemma_asides(choice::estimate_events(arms[n - 1], a[n - 1]));
        lemma_adds_up_concat(
            layout::all_estimate_events(arms, a, (n - 1) as nat),
            choice::estimate_events(arms[n - 1], a[n - 1]),
            0,
            0,
            0,
            0,
            0,
            0,
        );
    }
}

proof fn lemma_needs_add_up(arms: Seq<ArmModel>, a: Seq<AnalysisModel>, n: nat)
    ensures
        adds_up(layout::all_need_events(arms, a, n), 0, 0, 0),
    decreases n,
{
    lemma_empty_adds_up();
    if n > 0 {
        lemma_needs_add_up(arms, a, (n - 1) as nat);
        lemma_realize_aside(arms[n - 1], a[n - 1]);
        lemma_asides(choice::realize_events(arms[n - 1], a[n - 1]));
        lemma_adds_up_concat(
            layout::all_need_events(arms, a, (n - 1) as nat),
            layout::need_events(arms, a, n - 1),
            0,
            0,
            0,
            0,
            0,
            0,
        );
    }
}

proof fn lemma_independent_add_up(
    blocks: Seq<Seq<i32>>,
    bps: nat,
    list: Seq<AnalysisModel>,
    max_lpc_order: nat,
    n: nat,
)
    ensures
        adds_up(layout::independent_events(blocks, bps, list, max_lpc_order, n), 0, 0, 0),
    decreases n,
{
    if n == 0 {
        lemma_empty_adds_up();
    } else {
        let c = n - 1;
        let arm = crate::arm::arm_of(blocks[c], bps);
        let e = layout::estimates_at(list, c, max_lpc_order, blocks[c].len());
        lemma_independent_add_up(blocks, bps, list, max_lpc_order, c as nat);
        lemma_realize_aside(arm, e);
        lemma_asides(choice::estimate_events(arm, e));
        lemma_asides(choice::realize_events(arm, e));
        lemma_adds_up_concat(
            choice::estimate_events(arm, e),
            choice::realize_events(arm, e),
            0,
            0,
            0,
            0,
            0,
            0,
        );
        lemma_adds_up_concat(
            layout::independent_events(blocks, bps, list, max_lpc_order, c as nat),
            layout::arm_events(arm, e),
            0,
            0,
            0,
            0,
            0,
            0,
        );
    }
}

/// Deciding a layout counts a stereo assignment for a stereo block, and
/// nothing else that is weighed.
proof fn lemma_layout_adds_up(
    blocks: Seq<Seq<i32>>,
    bps: nat,
    list: Seq<AnalysisModel>,
    max_lpc_order: nat,
)
    ensures
        adds_up(
            layout::layout_events(blocks, bps, list, max_lpc_order),
            0,
            0,
            if blocks.len() == 2 {
                1
            } else {
                0
            },
        ),
{
    if blocks.len() == 2 {
        let arms = layout::stereo_arms(blocks[0], blocks[1], bps);
        let a = layout::stereo_estimates(list, max_lpc_order, blocks[0].len());
        let m = layout::stereo_mode(arms, a);
        layout::lemma_stereo_mode(arms, a);
        let x = layout::all_estimate_events(arms, a, 4);
        let y = layout::all_need_events(arms, a, 4);
        lemma_estimates_add_up(arms, a, 4);
        lemma_needs_add_up(arms, a, 4);
        lemma_adds_up_concat(x, y, 0, 0, 0, 0, 0, 0);
        lemma_stereo_one(m);
        lemma_adds_up_concat(
            x + y,
            seq![Event::Stereo(layout::mode_assignment(m))],
            0,
            0,
            0,
            0,
            0,
            1,
        );
    } else {
        lemma_independent_add_up(blocks, bps, list, max_lpc_order, blocks.len());
    }
}

/// A subframe without a residual counts its kind alone.
proof fn lemma_plain_adds_up(e: Event)
    requires
        e == Event::Constant || e == Event::Verbatim,
    ensures
        adds_up(seq![e], 0, 1, 0),
{
    lemma_one_all(e);
    reveal_with_fuel(partition_orders, 10);
    reveal_with_fuel(fixed_orders, 6);
}

/// Writing a subframe counts one kind, and its orders with it.
proof fn lemma_write_adds_up(a: ArmModel, kind: KindModel)
    requires
        roundtrip::codes(a, kind),
    ensures
        adds_up(subframe::write_events(a, kind), 0, 1, 0),
{
    let h = subframe::kind_events(a, kind);
    match kind {
        KindModel::Constant { value } => {
            lemma_plain_adds_up(Event::Constant);
        },
        KindModel::Verbatim => {
            lemma_plain_adds_up(Event::Verbatim);
        },
        KindModel::Fixed { order } => {
            partition::lemma_plan_fits(kind.residual(a), a.samples.len(), order);
            lemma_fixed_adds_up(order as u32, kind.plan(a).order as u32);
        },
        KindModel::Lpc { coeffs, shift } => {
            partition::lemma_plan_fits(kind.residual(a), a.samples.len(), coeffs.len());
            lemma_lpc_adds_up(kind.plan(a).order as u32);
        },
    }
    assert(adds_up(h, 0, 1, 0));
    lemma_asides(subframe::wasted_events(a.wasted));
    lemma_adds_up_concat(h, subframe::wasted_events(a.wasted), 0, 1, 0, 0, 0, 0);
}

proof fn lemma_fixed_adds_up(order: u32, po: u32)
    requires
        order < 5,
        po < 9,
    ensures
        adds_up(
            seq![Event::Fixed, Event::FixedOrder(order), Event::PartitionOrder(po)],
            0,
            1,
            0,
        ),
{
    let x = seq![Event::Fixed];
    let y = seq![Event::FixedOrder(order)];
    let z = seq![Event::PartitionOrder(po)];
    let h = seq![Event::Fixed, Event::FixedOrder(order), Event::PartitionOrder(po)];
    lemma_one_all(Event::Fixed);
    lemma_one_all(Event::FixedOrder(order));
    lemma_one_all(Event::PartitionOrder(po));
    assert(h =~= x + y + z);
    assert forall|e: Event| #[trigger] stats::count(h, e) == stats::count(x, e) + stats::count(
        y,
        e,
    ) + stats::count(z, e) by {
        stats::lemma_count_concat(x + y, z, e);
        stats::lemma_count_concat(x, y, e);
    }
    reveal_with_fuel(partition_orders, 10);
    reveal_with_fuel(fixed_orders, 6);
}

proof fn lemma_lpc_adds_up(po: u32)
    requires
        po < 9,
    ensures
        adds_up(seq![Event::Lpc, Event::PartitionOrder(po)], 0, 1, 0),
{
    let x = seq![Event::Lpc];
    let z = seq![Event::PartitionOrder(po)];
    let h = seq![Event::Lpc, Event::PartitionOrder(po)];
    lemma_one_all(Event::Lpc);
    lemma_one_all(Event::PartitionOrder(po));
    assert(h =~= x + z);
    assert forall|e: Event| #[trigger] stats::count(h, e) == stats::count(x, e) + stats::count(
        z,
        e,
    ) by {
        stats::lemma_count_concat(x, z, e);
    }
    reveal_with_fuel(partition_orders, 10);
    reveal_with_fuel(fixed_orders, 6);
}

proof fn lemma_subs_add_up(subs: Seq<CodedModel>, n: nat)
    requires
        n <= subs.len(),
        forall|c: int|
            0 <= c < subs.len() ==> roundtrip::codes((#[trigger] subs[c]).arm, subs[c].kind),
    ensures
        adds_up(frame::subs_events(subs, n), 0, n as int, 0),
    decreases n,
{
    if n == 0 {
        lemma_empty_adds_up();
    } else {
        let m = (n - 1) as nat;
        lemma_subs_add_up(subs, m);
        assert(roundtrip::codes(subs[n - 1].arm, subs[n - 1].kind));
        lemma_write_adds_up(subs[n - 1].arm, subs[n - 1].kind);
        lemma_adds_up_concat(
            frame::subs_events(subs, m),
            subframe::write_events(subs[n - 1].arm, subs[n - 1].kind),
            0,
            m as int,
            0,
            0,
            1,
            0,
        );
    }
}

/// Every subframe of a layout is of a kind that can code its arm.
pub proof fn lemma_layout_codes(
    blocks: Seq<Seq<i32>>,
    bps: nat,
    list: Seq<AnalysisModel>,
    max_lpc_order: nat,
)
    requires
        blocks.len() >= 1,
        forall|c: int|
            0 <= c < blocks.len() ==> (#[trigger] blocks[c]).len() == blocks[0].len(),
        blocks[0].len() >= 1,
        max_lpc_order <= choice::LPC_MAX_ORDER,
    ensures
        ({
            let l = layout::layout_of(blocks, bps, list, max_lpc_order);
            &&& l.subs.len() == blocks.len()
            &&& forall|c: int|
                0 <= c < l.subs.len() ==> roundtrip::codes(
                    (#[trigger] l.subs[c]).arm,
                    l.subs[c].kind,
                )
        }),
{
    let l = layout::layout_of(blocks, bps, list, max_lpc_order);
    if blocks.len() == 2 {
        let arms = layout::stereo_arms(blocks[0], blocks[1], bps);
        let a = layout::stereo_estimates(list, max_lpc_order, blocks[0].len());
        let m = layout::stereo_mode(arms, a);
        let i = layout::mode_first(m);
        let j = layout::mode_second(m);
        layout::lemma_stereo_mode(arms, a);
        assert(blocks[1].len() == blocks[0].len());
        roundtrip::lemma_chosen_codes(arms[i], layout::analysis_at(list, i), max_lpc_order);
        roundtrip::lemma_chosen_codes(arms[j], layout::analysis_at(list, j), max_lpc_order);
        assert(l.subs[0] == layout::coded(arms, a, i));
        assert(l.subs[1] == layout::coded(arms, a, j));
    } else {
        assert forall|c: int| 0 <= c < l.subs.len() implies roundtrip::codes(
            (#[trigger] l.subs[c]).arm,
            l.subs[c].kind,
        ) by {
            assert(blocks[c].len() == blocks[0].len());
            roundtrip::lemma_chosen_codes(
                crate::arm::arm_of(blocks[c], bps),
                layout::analysis_at(list, c),
                max_lpc_order,
            );
        }
    }
}

/// The counters are complete: after `k` blocks there are `k` frames, one
/// subframe kind for every channel of each, one stereo assignment for every
/// frame of a stereo stream, one partition order for every predictive
/// subframe, and one fixed order for every FIXED one.
pub proof fn lemma_counts_add_up(e: EncoderModel, all: Seq<Seq<AnalysisModel>>, k: nat)
    requires
        e.wf(),
        k <= encode::block_count(e.len()),
    ensures
        adds_up(
            encode::history(e, all, k),
            k as int,
            k as int * e.chans.len() as int,
            if e.chans.len() == 2 {
                k as int
            } else {
                0
            },
        ),
    decreases k,
{
    if k == 0 {
        lemma_empty_adds_up();
        assert(0 * e.chans.len() == 0) by (nonlinear_arith);
    } else {
        let j = k - 1;
        let b = encode::block_at(e.chans, j);
        let list = encode::list_at(all, j);
        let l = layout::layout_of(b, e.bps, list, e.max_lpc_order);
        let pair: int = if e.chans.len() == 2 {
            1
        } else {
            0
        };
        lemma_counts_add_up(e, all, j as nat);
        encode::lemma_block_len(e, j);
        encode::lemma_block_channel(e, j, 0);
        assert forall|c: int| 0 <= c < b.len() implies (#[trigger] b[c]).len() == b[0].len() by {
            encode::lemma_block_channel(e, j, c);
        }
        lemma_layout_codes(b, e.bps, list, e.max_lpc_order);
        lemma_layout_adds_up(b, e.bps, list, e.max_lpc_order);
        lemma_subs_add_up(l.subs, l.subs.len());
        lemma_frame_one();
        let x = layout::layout_events(b, e.bps, list, e.max_lpc_order);
        let y = frame::subs_events(l.subs, l.subs.len());
        let n = e.chans.len() as int;
        lemma_adds_up_concat(x, y, 0, 0, pair, 0, n, 0);
        lemma_adds_up_concat(x + y, seq![Event::Frame], 0, n, pair, 1, 0, 0);
        lemma_adds_up_concat(
            encode::history(e, all, j as nat),
            frame::frame_events(b, e.bps, list, e.max_lpc_order),
            j,
            j * n,
            pair * j,
            1,
            n,
            pair,
        );
        assert(j * n + n == k * n) by (nonlinear_arith)
            requires
                k == j + 1,
        ;
    }
}

// ---------------------------------------------------------------------------
// What each counter says
// ---------------------------------------------------------------------------
/// A counter holds its event's count under its own name.
pub proof fn lemma_counters(c: stats::EncodeStats, o: int)
    requires
        0 <= o,
    ensures
        c@(Event::Frame) == c.frames,
        c@(Event::Constant) == c.sub_constant,
        c@(Event::Verbatim) == c.sub_verbatim,
        c@(Event::Fixed) == c.sub_fixed,
        c@(Event::Lpc) == c.sub_lpc,
        c@(Event::Stereo(Assignment::Independent)) == c.stereo_independent,
        c@(Event::Stereo(Assignment::LeftSide)) == c.stereo_left_side,
        c@(Event::Stereo(Assignment::RightSide)) == c.stereo_right_side,
        c@(Event::Stereo(Assignment::MidSide)) == c.stereo_mid_side,
        c@(Event::QuantizeFailed) == c.lpc_quantize_failed,
        c@(Event::LevinsonExhausted) == c.lpc_levinson_exhausted,
        c@(Event::SecondWindowWon) == c.lpc_window_second_won,
        c@(Event::WastedBits) == c.sub_wasted_bits,
        o < 9 ==> c@(Event::PartitionOrder(o as u32)) == c.partition_orders[o],
        o < 5 ==> c@(Event::FixedOrder(o as u32)) == c.fixed_orders[o],
{
}

/// Whether a written subframe is one of those that an event counts.
pub open spec fn is_counted(sub: CodedModel, x: Event) -> bool {
    match x {
        Event::Constant => sub.kind is Constant,
        Event::Verbatim => sub.kind is Verbatim,
        Event::Fixed => sub.kind is Fixed,
        Event::Lpc => sub.kind is Lpc,
        Event::FixedOrder(o) => sub.kind matches KindModel::Fixed { order } && order == o,
        Event::PartitionOrder(o) => (sub.kind is Fixed || sub.kind is Lpc) && sub.kind.plan(
            sub.arm,
        ).order == o,
        Event::WastedBits => sub.arm.wasted > 0,
        _ => false,
    }
}

/// How many of the first `n` subframes an event counts.
pub open spec fn subframes_counted(subs: Seq<CodedModel>, x: Event, n: nat) -> nat
    decreases n,
{
    if n == 0 {
        0
    } else {
        subframes_counted(subs, x, (n - 1) as nat) + (if is_counted(subs[n - 1], x) {
            1nat
        } else {
            0nat
        })
    }
}

/// An event of the analysis.
spec fn analytic(e: Event) -> bool {
    e == Event::LevinsonExhausted || e == Event::QuantizeFailed || e == Event::SecondWindowWon
}

spec fn all_analytic(h: Seq<Event>) -> bool {
    forall|i: int| 0 <= i < h.len() ==> analytic(#[trigger] h[i])
}

proof fn lemma_analytic_none(h: Seq<Event>, x: Event)
    requires
        all_analytic(h),
        !analytic(x),
    ensures
        stats::count(h, x) == 0,
    decreases h.len(),
{
    if h.len() > 0 {
        assert(analytic(h[h.len() - 1]));
        assert forall|i: int| 0 <= i < h.drop_last().len() implies analytic(
            #[trigger] h.drop_last()[i],
        ) by {
            assert(h.drop_last()[i] == h[i]);
        }
        lemma_analytic_none(h.drop_last(), x);
    }
}

proof fn lemma_analytic_concat(a: Seq<Event>, b: Seq<Event>)
    requires
        all_analytic(a),
        all_analytic(b),
    ensures
        all_analytic(a + b),
{
    assert forall|i: int| 0 <= i < (a + b).len() implies analytic(#[trigger] (a + b)[i]) by {
        if i < a.len() {
            assert((a + b)[i] == a[i]);
        } else {
            assert((a + b)[i] == b[i - a.len()]);
        }
    }
}

/// The analysis of an arm counts events of the analysis alone.
proof fn lemma_arm_analytic(a: ArmModel, e: AnalysisModel)
    ensures
        all_analytic(choice::estimate_events(a, e)),
        all_analytic(choice::realize_events(a, e)),
{
}

proof fn lemma_estimates_analytic(arms: Seq<ArmModel>, a: Seq<AnalysisModel>, n: nat)
    ensures
        all_analytic(layout::all_estimate_events(arms, a, n)),
        all_analytic(layout::all_need_events(arms, a, n)),
    decreases n,
{
    if n > 0 {
        let m = (n - 1) as nat;
        lemma_estimates_analytic(arms, a, m);
        lemma_arm_analytic(arms[n - 1], a[n - 1]);
        lemma_analytic_concat(
            layout::all_estimate_events(arms, a, m),
            choice::estimate_events(arms[n - 1], a[n - 1]),
        );
        lemma_analytic_concat(
            layout::all_need_events(arms, a, m),
            layout::need_events(arms, a, n - 1),
        );
    }
}

proof fn lemma_independent_analytic(
    blocks: Seq<Seq<i32>>,
    bps: nat,
    list: Seq<AnalysisModel>,
    max_lpc_order: nat,
    n: nat,
)
    ensures
        all_analytic(layout::independent_events(blocks, bps, list, max_lpc_order, n)),
    decreases n,
{
    if n > 0 {
        let c = n - 1;
        let arm = crate::arm::arm_of(blocks[c], bps);
        let e = layout::estimates_at(list, c, max_lpc_order, blocks[c].len());
        lemma_independent_analytic(blocks, bps, list, max_lpc_order, c as nat);
        lemma_arm_analytic(arm, e);
        lemma_analytic_concat(choice::estimate_events(arm, e), choice::realize_events(arm, e));
        lemma_analytic_concat(
            layout::independent_events(blocks, bps, list, max_lpc_order, c as nat),
            layout::arm_events(arm, e),
        );
    }
}

/// Writing a subframe counts what it is.
proof fn lemma_write_counted(sub: CodedModel, x: Event)
    requires
        roundtrip::codes(sub.arm, sub.kind),
    ensures
        stats::count(subframe::write_events(sub.arm, sub.kind), x) == (if is_counted(sub, x) {
            1nat
        } else {
            0nat
        }),
{
    let a = sub.arm;
    let kind = sub.kind;
    let h = subframe::kind_events(a, kind);
    let w = subframe::wasted_events(a.wasted);
    stats::lemma_count_concat(h, w, x);
    lemma_one(Event::WastedBits, x);
    assert(stats::count(Seq::<Event>::empty(), x) == 0);
    match kind {
        KindModel::Constant { value } => {
            lemma_one(Event::Constant, x);
        },
        KindModel::Verbatim => {
            lemma_one(Event::Verbatim, x);
        },
        KindModel::Fixed { order } => {
            partition::lemma_plan_fits(kind.residual(a), a.samples.len(), order);
            let e = Event::FixedOrder(order as u32);
            let f = Event::PartitionOrder(kind.plan(a).order as u32);
            lemma_one(Event::Fixed, x);
            lemma_one(e, x);
            lemma_one(f, x);
            stats::lemma_count_concat(seq![Event::Fixed], seq![e], x);
            stats::lemma_count_concat(seq![Event::Fixed] + seq![e], seq![f], x);
            assert(h =~= seq![Event::Fixed] + seq![e] + seq![f]);
        },
        KindModel::Lpc { coeffs, shift } => {
            partition::lemma_plan_fits(kind.residual(a), a.samples.len(), coeffs.len());
            let f = Event::PartitionOrder(kind.plan(a).order as u32);
            lemma_one(Event::Lpc, x);
            lemma_one(f, x);
            stats::lemma_count_concat(seq![Event::Lpc], seq![f], x);
            assert(h =~= seq![Event::Lpc] + seq![f]);
        },
    }
}

proof fn lemma_subs_counted(subs: Seq<CodedModel>, x: Event, n: nat)
    requires
        n <= subs.len(),
        forall|c: int|
            0 <= c < subs.len() ==> roundtrip::codes((#[trigger] subs[c]).arm, subs[c].kind),
    ensures
        stats::count(frame::subs_events(subs, n), x) == subframes_counted(subs, x, n),
    decreases n,
{
    if n > 0 {
        let m = (n - 1) as nat;
        lemma_subs_counted(subs, x, m);
        assert(roundtrip::codes(subs[n - 1].arm, subs[n - 1].kind));
        lemma_write_counted(subs[n - 1], x);
        stats::lemma_count_concat(
            frame::subs_events(subs, m),
            subframe::write_events(subs[n - 1].arm, subs[n - 1].kind),
            x,
        );
    }
}

/// Coding a block counts one frame; as many subframes of each kind, of each
/// fixed order, of each partition order and with wasted bits as it writes; and
/// for a stereo block the assignment that its header names: 1 for independent
/// channels, 8 for left and side, 9 for side and right, 10 for mid and side.
pub proof fn lemma_frame_counted(
    blocks: Seq<Seq<i32>>,
    bps: nat,
    list: Seq<AnalysisModel>,
    max_lpc_order: nat,
    x: Event,
)
    requires
        blocks.len() >= 1,
        forall|c: int|
            0 <= c < blocks.len() ==> (#[trigger] blocks[c]).len() == blocks[0].len(),
        blocks[0].len() >= 1,
        max_lpc_order <= choice::LPC_MAX_ORDER,
        x != Event::LevinsonExhausted,
        x != Event::QuantizeFailed,
        x != Event::SecondWindowWon,
    ensures
        ({
            let l = layout::layout_of(blocks, bps, list, max_lpc_order);
            let n = stats::count(frame::frame_events(blocks, bps, list, max_lpc_order), x);
            match x {
                Event::Frame => n == 1,
                Event::Stereo(a) => n == (if blocks.len() == 2 && l.assignment == (match a {
                    Assignment::Independent => 1nat,
                    Assignment::LeftSide => 8,
                    Assignment::RightSide => 9,
                    Assignment::MidSide => 10,
                }) {
                    1nat
                } else {
                    0
                }),
                _ => n == subframes_counted(l.subs, x, l.subs.len()),
            }
        }),
{
    let l = layout::layout_of(blocks, bps, list, max_lpc_order);
    let d = layout::layout_events(blocks, bps, list, max_lpc_order);
    let w = frame::subs_events(l.subs, l.subs.len());
    lemma_layout_codes(blocks, bps, list, max_lpc_order);
    lemma_subs_counted(l.subs, x, l.subs.len());
    lemma_one(Event::Frame, x);
    stats::lemma_count_concat(d, w, x);
    stats::lemma_count_concat(d + w, seq![Event::Frame], x);
    if x is Stereo || x == Event::Frame {
        lemma_not_of_subframes(l.subs, x, l.subs.len());
    }
    if blocks.len() == 2 {
        let arms = layout::stereo_arms(blocks[0], blocks[1], bps);
        let a = layout::stereo_estimates(list, max_lpc_order, blocks[0].len());
        let m = layout::stereo_mode(arms, a);
        layout::lemma_stereo_mode(arms, a);
        lemma_estimates_analytic(arms, a, 4);
        let e = layout::all_estimate_events(arms, a, 4);
        let r = layout::all_need_events(arms, a, 4);
        lemma_analytic_none(e, x);
        lemma_analytic_none(r, x);
        lemma_one(Event::Stereo(layout::mode_assignment(m)), x);
        stats::lemma_count_concat(e, r, x);
        stats::lemma_count_concat(e + r, seq![Event::Stereo(layout::mode_assignment(m))], x);
    } else {
        lemma_independent_analytic(blocks, bps, list, max_lpc_order, blocks.len());
        lemma_analytic_none(d, x);
    }
}

proof fn lemma_not_of_subframes(subs: Seq<CodedModel>, x: Event, n: nat)
    requires
        x is Stereo || x == Event::Frame,
    ensures
        subframes_counted(subs, x, n) == 0,
    decreases n,
{
    if n > 0 {
        lemma_not_of_subframes(subs, x, (n - 1) as nat);
    }
}

/// The analysis counters of one arm: an exhausted recursion for each window
/// that has one; a failed quantization for each window that is tried and leaves
/// no coefficient; and the second window where its predictor is the cheaper
/// one. A constant arm counts nothing.
pub proof fn lemma_arm_counted(a: ArmModel, e: AnalysisModel)
    requires
        a.samples.len() >= 1,
    ensures
        ({
            let h = layout::arm_events(a, e);
            let varied = exists|i: int|
                0 <= i < a.samples.len() && #[trigger] a.samples[i] != a.samples[0];
            let one = |b: bool|
                if b {
                    1nat
                } else {
                    0nat
                };
            let some = |w: Option<choice::EstimateModel>|
                w is Some && w->0.quantized is Some && exists|j: int|
                    0 <= j < w->0.quantized->0.coeffs.len()
                        && #[trigger] w->0.quantized->0.coeffs[j] != 0;
            &&& stats::count(h, Event::LevinsonExhausted) == (if varied {
                one(e.first is Some && e.first->0.exhausted) + one(
                    e.second is Some && e.second->0.exhausted,
                )
            } else {
                0
            })
            &&& e.second is None ==> stats::count(h, Event::QuantizeFailed) == one(
                varied && e.first is Some && !some(e.first),
            )
            &&& e.first is None ==> stats::count(h, Event::QuantizeFailed) == one(
                varied && e.second is Some && !some(e.second),
            )
            &&& e.second is None ==> stats::count(h, Event::SecondWindowWon) == 0
            &&& e.first is None ==> stats::count(h, Event::SecondWindowWon) == one(
                varied && some(e.second),
            )
        }),
{
    let x = Event::LevinsonExhausted;
    let y = Event::QuantizeFailed;
    let z = Event::SecondWindowWon;
    lemma_one_all(x);
    lemma_one_all(y);
    lemma_one_all(z);
    assert forall|v: Event| #[trigger] stats::count(Seq::<Event>::empty(), v) == 0 by {}
    let f = choice::estimate_events(a, e);
    let g = choice::realize_events(a, e);
    let u = choice::use_events(e.second);
    let w = choice::window_events(a, e);
    let s = choice::try_events(e.first, choice::tries_first(e));
    let t = choice::try_events(e.second, choice::tries_second(e));
    let last = if choice::best_window(a, e) matches Some((k, second)) && second {
        seq![Event::SecondWindowWon]
    } else {
        Seq::empty()
    };
    assert forall|v: Event| #[trigger] stats::count(layout::arm_events(a, e), v) == stats::count(
        f,
        v,
    ) + stats::count(g, v) by {
        stats::lemma_count_concat(f, g, v);
    }
    assert forall|v: Event| #[trigger] stats::count(u + w, v) == stats::count(u, v) + stats::count(
        s,
        v,
    ) + stats::count(t, v) + stats::count(last, v) by {
        stats::lemma_count_concat(u, w, v);
        stats::lemma_count_concat(s, t, v);
        stats::lemma_count_concat(s + t, last, v);
    }
    let varied = exists|i: int|
        0 <= i < a.samples.len() && #[trigger] a.samples[i] != a.samples[0];
    if varied {
        let i = choose|i: int| 0 <= i < a.samples.len() && #[trigger] a.samples[i] != a.samples[0];
        assert(a.samples[i] != a.samples[0]);
        assert(crate::arm::constant_of(a.samples) is None);
        assert(g == u + w);
    } else {
        assert(crate::arm::constant_of(a.samples) is Some);
    }
}

// ---------------------------------------------------------------------------
// The counters of the analysis
// ---------------------------------------------------------------------------
/// How often an event was counted for the first `n` channels, each on its own.
pub open spec fn counted_alone(
    blocks: Seq<Seq<i32>>,
    bps: nat,
    list: Seq<AnalysisModel>,
    max_lpc_order: nat,
    x: Event,
    n: nat,
) -> nat
    decreases n,
{
    if n == 0 {
        0
    } else {
        let c = n - 1;
        let e = choice::usable_both(
            if c < list.len() {
                list[c]
            } else {
                AnalysisModel { first: None, second: None }
            },
            choice::top_order(max_lpc_order, blocks[c].len()),
        );
        counted_alone(blocks, bps, list, max_lpc_order, x, c as nat) + stats::count(
            layout::arm_events(crate::arm::arm_of(blocks[c], bps), e),
            x,
        )
    }
}

/// Channels that are coded on their own count their analyses one by one.
pub proof fn lemma_alone_counted(
    blocks: Seq<Seq<i32>>,
    bps: nat,
    list: Seq<AnalysisModel>,
    max_lpc_order: nat,
    x: Event,
)
    requires
        blocks.len() != 2,
    ensures
        stats::count(layout::layout_events(blocks, bps, list, max_lpc_order), x) == counted_alone(
            blocks,
            bps,
            list,
            max_lpc_order,
            x,
            blocks.len(),
        ),
{
    lemma_alone_prefix(blocks, bps, list, max_lpc_order, x, blocks.len());
}

proof fn lemma_alone_prefix(
    blocks: Seq<Seq<i32>>,
    bps: nat,
    list: Seq<AnalysisModel>,
    max_lpc_order: nat,
    x: Event,
    n: nat,
)
    ensures
        stats::count(layout::independent_events(blocks, bps, list, max_lpc_order, n), x)
            == counted_alone(blocks, bps, list, max_lpc_order, x, n),
    decreases n,
{
    if n > 0 {
        let c = (n - 1) as nat;
        lemma_alone_prefix(blocks, bps, list, max_lpc_order, x, c);
        stats::lemma_count_concat(
            layout::independent_events(blocks, bps, list, max_lpc_order, c),
            layout::arm_events(
                crate::arm::arm_of(blocks[c as int], bps),
                layout::estimates_at(list, c as int, max_lpc_order, blocks[c as int].len()),
            ),
            x,
        );
    }
}

/// Arm `i` is in a pair that is estimated at no more than one percent above
/// every other pair.
pub open spec fn is_in_the_running(arms: Seq<ArmModel>, e: Seq<AnalysisModel>, i: int) -> bool {
    exists|u: int, v: int|
        economy::stands_for_stereo(u, v) && (u == i || v == i) && forall|s: int, t: int|
            economy::stands_for_stereo(s, t) ==> #[trigger] economy::pair_estimate(arms, e, u, v)
                <= #[trigger] economy::pair_estimate(arms, e, s, t) + economy::pair_estimate(arms, e, s, t) / 100
}

/// A pair in the running is a mode that competes.
proof fn lemma_competes(arms: Seq<ArmModel>, e: Seq<AnalysisModel>, m: nat)
    requires
        m < 4,
    ensures
        ({
            let u = layout::mode_first(m);
            let v = layout::mode_second(m);
            &&& economy::stands_for_stereo(u, v)
            &&& layout::competes(arms, e, m) <==> forall|s: int, t: int|
                economy::stands_for_stereo(s, t) ==> economy::pair_estimate(arms, e, u, v) <= #[trigger] economy::pair_estimate(
                    arms,
                    e,
                    s,
                    t,
                ) + economy::pair_estimate(arms, e, s, t) / 100
        }),
{
    let u = layout::mode_first(m);
    let v = layout::mode_second(m);
    assert(economy::pair_estimate(arms, e, u, v) == layout::mode_estimate(arms, e, m));
    assert(economy::pair_estimate(arms, e, 0, 1) == layout::mode_estimate(arms, e, 0));
    assert(economy::pair_estimate(arms, e, 0, 3) == layout::mode_estimate(arms, e, 1));
    assert(economy::pair_estimate(arms, e, 3, 1) == layout::mode_estimate(arms, e, 2));
    assert(economy::pair_estimate(arms, e, 2, 3) == layout::mode_estimate(arms, e, 3));
}

proof fn lemma_running(arms: Seq<ArmModel>, e: Seq<AnalysisModel>, i: int)
    requires
        0 <= i < 4,
    ensures
        layout::needed(arms, e, i) == is_in_the_running(arms, e, i),
{
    lemma_competes(arms, e, 0);
    lemma_competes(arms, e, 1);
    lemma_competes(arms, e, 2);
    lemma_competes(arms, e, 3);
    if is_in_the_running(arms, e, i) {
        let (u, v) = choose|u: int, v: int|
            economy::stands_for_stereo(u, v) && (u == i || v == i) && forall|s: int, t: int|
                economy::stands_for_stereo(s, t) ==> #[trigger] economy::pair_estimate(arms, e, u, v)
                    <= #[trigger] economy::pair_estimate(arms, e, s, t) + economy::pair_estimate(arms, e, s, t)
                    / 100;
        assert(layout::mode_first(0) == 0 && layout::mode_second(0) == 1);
        assert(layout::mode_first(1) == 0 && layout::mode_second(1) == 3);
        assert(layout::mode_first(2) == 3 && layout::mode_second(2) == 1);
        assert(layout::mode_first(3) == 2 && layout::mode_second(3) == 3);
    }
}

/// A stereo block counts the first window of each of its four arms, and the
/// rest of the analysis of those arms alone that are in the running.
pub proof fn lemma_stereo_counted(
    l: Seq<i32>,
    r: Seq<i32>,
    bps: nat,
    list: Seq<AnalysisModel>,
    max_lpc_order: nat,
    x: Event,
)
    requires
        l.len() == r.len(),
        x == Event::LevinsonExhausted || x == Event::QuantizeFailed || x == Event::SecondWindowWon,
    ensures
        ({
            let arms = seq![
                crate::arm::arm_of(l, bps),
                crate::arm::arm_of(r, bps),
                crate::arm::arm_of(layout::mid_of(l, r), bps),
                crate::arm::arm_of(layout::side_of(l, r), bps + 1),
            ];
            let e = layout::stereo_estimates(list, max_lpc_order, l.len());
            let own = |i: int|
                stats::count(choice::estimate_events(arms[i], e[i]), x) + (if is_in_the_running(
                    arms,
                    e,
                    i,
                ) {
                    stats::count(choice::realize_events(arms[i], e[i]), x)
                } else {
                    0
                });
            stats::count(layout::layout_events(seq![l, r], bps, list, max_lpc_order), x) == own(0)
                + own(1) + own(2) + own(3)
        }),
{
    let arms = layout::stereo_arms(l, r, bps);
    let e = layout::stereo_estimates(list, max_lpc_order, l.len());
    lemma_running(arms, e, 0);
    lemma_running(arms, e, 1);
    lemma_running(arms, e, 2);
    lemma_running(arms, e, 3);
    lemma_four_estimates(arms, e, x);
    lemma_four_needs(arms, e, x);
    let f = layout::all_estimate_events(arms, e, 4);
    let g = layout::all_need_events(arms, e, 4);
    let last = Event::Stereo(layout::mode_assignment(layout::stereo_mode(arms, e)));
    stats::lemma_count_concat(f, g, x);
    stats::lemma_count_concat(f + g, seq![last], x);
    assert(seq![last].drop_last() =~= Seq::<Event>::empty());
    assert(stats::count(seq![last].drop_last(), x) == 0);
    assert(stats::count(seq![last], x) == 0);
}

proof fn lemma_four_estimates(arms: Seq<ArmModel>, e: Seq<AnalysisModel>, x: Event)
    ensures
        stats::count(layout::all_estimate_events(arms, e, 4), x) == stats::count(
            choice::estimate_events(arms[0], e[0]),
            x,
        ) + stats::count(choice::estimate_events(arms[1], e[1]), x) + stats::count(
            choice::estimate_events(arms[2], e[2]),
            x,
        ) + stats::count(choice::estimate_events(arms[3], e[3]), x),
{
    reveal_with_fuel(layout::all_estimate_events, 5);
    assert(stats::count(Seq::<Event>::empty(), x) == 0);
    assert forall|n: nat| n < 4 implies stats::count(
        #[trigger] layout::all_estimate_events(arms, e, n + 1),
        x,
    ) == stats::count(layout::all_estimate_events(arms, e, n), x) + stats::count(
        choice::estimate_events(arms[n as int], e[n as int]),
        x,
    ) by {
        stats::lemma_count_concat(
            layout::all_estimate_events(arms, e, n),
            choice::estimate_events(arms[n as int], e[n as int]),
            x,
        );
    }
    assert(layout::all_estimate_events(arms, e, 0 + 1) == layout::all_estimate_events(arms, e, 1));
    assert(layout::all_estimate_events(arms, e, 1 + 1) == layout::all_estimate_events(arms, e, 2));
    assert(layout::all_estimate_events(arms, e, 2 + 1) == layout::all_estimate_events(arms, e, 3));
    assert(layout::all_estimate_events(arms, e, 3 + 1) == layout::all_estimate_events(arms, e, 4));
}

proof fn lemma_four_needs(arms: Seq<ArmModel>, e: Seq<AnalysisModel>, x: Event)
    ensures
        stats::count(layout::all_need_events(arms, e, 4), x) == stats::count(
            layout::need_events(arms, e, 0),
            x,
        ) + stats::count(layout::need_events(arms, e, 1), x) + stats::count(
            layout::need_events(arms, e, 2),
            x,
        ) + stats::count(layout::need_events(arms, e, 3), x),
{
    reveal_with_fuel(layout::all_need_events, 5);
    assert(stats::count(Seq::<Event>::empty(), x) == 0);
    assert forall|n: nat| n < 4 implies stats::count(
        #[trigger] layout::all_need_events(arms, e, n + 1),
        x,
    ) == stats::count(layout::all_need_events(arms, e, n), x) + stats::count(
        layout::need_events(arms, e, n as int),
        x,
    ) by {
        stats::lemma_count_concat(
            layout::all_need_events(arms, e, n),
            layout::need_events(arms, e, n as int),
            x,
        );
    }
    assert(layout::all_need_events(arms, e, 0 + 1) == layout::all_need_events(arms, e, 1));
    assert(layout::all_need_events(arms, e, 1 + 1) == layout::all_need_events(arms, e, 2));
    assert(layout::all_need_events(arms, e, 2 + 1) == layout::all_need_events(arms, e, 3));
    assert(layout::all_need_events(arms, e, 3 + 1) == layout::all_need_events(arms, e, 4));
}

} // verus!
