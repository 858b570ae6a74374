//! The bits of a subframe, and the code that writes them.
use crate::arm::{ArmInput, ArmModel};
use crate::bitio::BitWriter;
use crate::bits;
use crate::choice;
use crate::choice::{KindModel, LpcCandidate, SubframeChoice, SubframeKind, LPC_PRECISION};
use crate::partition;
use crate::partition::ResidualPlan;
use crate::stats;
use crate::stats::{EncodeStats, Event};
use vstd::arithmetic::power2::*;
use vstd::prelude::*;

verus! {

/// Numbers of `w` bits each.
pub open spec fn ints_bits(s: Seq<i32>, w: nat) -> Seq<bool>
    decreases s.len(),
{
    if s.len() == 0 {
        Seq::empty()
    } else {
        ints_bits(s.drop_last(), w) + bits::field(s.last() as int, w)
    }
}

/// The wasted-bits field: a flag, and behind it the count in unary.
pub open spec fn wasted_bits(wasted: nat) -> Seq<bool> {
    if wasted == 0 {
        bits::field(0, 1)
    } else {
        bits::field(1, 1) + bits::zeros((wasted - 1) as nat) + bits::field(1, 1)
    }
}

/// The subframe header: padding bit, type, wasted bits.
pub open spec fn header_bits(ty: nat, wasted: nat) -> Seq<bool> {
    bits::field(0, 1) + bits::field(ty as int, 6) + wasted_bits(wasted)
}

/// A coded residual of a `bs`-sample block with `p` warm-up samples.
pub open spec fn residual_bits(res: Seq<i32>, bs: nat, p: nat) -> Seq<bool> {
    let plan = partition::plan_of(res, bs, p);
    bits::field(plan.method as int, 2) + bits::field(plan.order as int, 4) + partition::body_bits(
        res,
        bs,
        p,
        plan,
        pow2(plan.order),
    )
}

/// The type code of a kind.
pub open spec fn type_of(kind: KindModel) -> nat {
    match kind {
        KindModel::Constant { value } => 0,
        KindModel::Verbatim => 1,
        KindModel::Fixed { order } => 8 + order,
        KindModel::Lpc { coeffs, shift } => (31 + coeffs.len()) as nat,
    }
}

/// What a kind stores behind the header.
pub open spec fn payload_bits(a: ArmModel, kind: KindModel) -> Seq<bool> {
    match kind {
        KindModel::Constant { value } => bits::field(value as int, a.depth),
        KindModel::Verbatim => ints_bits(a.samples, a.depth),
        KindModel::Fixed { order } => ints_bits(a.samples.take(order as int), a.depth)
            + residual_bits(kind.residual(a), a.samples.len(), order),
        KindModel::Lpc { coeffs, shift } => ints_bits(
            a.samples.take(coeffs.len() as int),
            a.depth,
        ) + lpc_bits(coeffs, shift) + residual_bits(
            kind.residual(a),
            a.samples.len(),
            coeffs.len(),
        ),
    }
}

/// A linear predictor: precision, shift, coefficients.
pub open spec fn lpc_bits(coeffs: Seq<i32>, shift: nat) -> Seq<bool> {
    bits::field(LPC_PRECISION - 1, 4) + bits::field(shift as int, 5) + ints_bits(
        coeffs,
        LPC_PRECISION as nat,
    )
}

/// The subframe of an arm.
pub open spec fn subframe_bits(a: ArmModel, kind: KindModel) -> Seq<bool> {
    header_bits(type_of(kind), a.wasted) + payload_bits(a, kind)
}

/// What writing a subframe of a kind counts.
pub open spec fn kind_events(a: ArmModel, kind: KindModel) -> Seq<Event> {
    match kind {
        KindModel::Constant { value } => seq![Event::Constant],
        KindModel::Verbatim => seq![Event::Verbatim],
        KindModel::Fixed { order } => seq![
            Event::Fixed,
            Event::FixedOrder(order as u32),
            Event::PartitionOrder(kind.plan(a).order as u32),
        ],
        KindModel::Lpc { coeffs, shift } => seq![
            Event::Lpc,
            Event::PartitionOrder(kind.plan(a).order as u32),
        ],
    }
}

/// What writing the wasted-bits field counts.
pub open spec fn wasted_events(wasted: nat) -> Seq<Event> {
    if wasted > 0 {
        seq![Event::WastedBits]
    } else {
        Seq::empty()
    }
}

/// What writing a subframe counts.
pub open spec fn write_events(a: ArmModel, kind: KindModel) -> Seq<Event> {
    kind_events(a, kind) + wasted_events(a.wasted)
}

/// Write the first `n` samples with `w` bits each.
fn write_ints(bw: &mut BitWriter, samples: &[i32], n: usize, w: u32)
    requires
        old(bw).wf(),
        n <= samples@.len(),
        w <= 32,
    ensures
        final(bw).wf(),
        final(bw)@ == old(bw)@ + ints_bits(samples@.take(n as int), w as nat),
{
    let ghost start = bw@;
    let mut i: usize = 0;
    assert(bw@ =~= start + ints_bits(samples@.take(0), w as nat));
    while i < n
        invariant
            i <= n <= samples@.len(),
            w <= 32,
            bw.wf(),
            bw@ == start + ints_bits(samples@.take(i as int), w as nat),
        decreases n - i,
    {
        bw.write_signed(samples[i] as i64, w);
        proof {
            let now = samples@.take(i + 1);
            assert(now.drop_last() =~= samples@.take(i as int));
            assert(bw@ =~= start + ints_bits(now, w as nat));
        }
        i = i + 1;
    }
}

/// Write the shared subframe-header prefix: padding bit, 6-bit type, and the
/// wasted-bits flag with its unary count.
fn write_subframe_header(bw: &mut BitWriter, type_code: u64, wasted: u32, counts: &mut EncodeStats)
    requires
        old(bw).wf(),
        stats::room(old(counts)@, 1),
    ensures
        final(bw).wf(),
        final(bw)@ == old(bw)@ + header_bits(type_code as nat, wasted as nat),
        final(counts)@ == stats::tallied(old(counts)@, wasted_events(wasted as nat)),
{
    let ghost start = bw@;
    proof {
        stats::lemma_tallied_empty(counts@);
    }
    bw.write_bits(0, 1);
    bw.write_bits(type_code, 6);
    if wasted == 0 {
        bw.write_bits(0, 1);
    } else {
        counts.count(Event::WastedBits);
        bw.write_bits(1, 1);
        bw.write_zeros(wasted - 1);
        bw.write_bits(1, 1);
    }
    assert(bw@ =~= start + header_bits(type_code as nat, wasted as nat));
}

/// Write a residual by its plan.
fn write_residual(bw: &mut BitWriter, res: &[i32], bs: usize, p: usize, plan: &ResidualPlan)
    requires
        old(bw).wf(),
        res@.len() + p == bs,
        plan@ == partition::plan_of(res@, bs as nat, p as nat),
    ensures
        final(bw).wf(),
        final(bw)@ == old(bw)@ + residual_bits(res@, bs as nat, p as nat),
{
    let ghost start = bw@;
    proof {
        partition::lemma_plan_fits(res@, bs as nat, p as nat);
    }
    bw.write_bits(plan.method as u64, 2);
    bw.write_bits(plan.partition_order as u64, 4);
    partition::write_partitioned_residual(bw, res, bs, p, plan);
    assert(bw@ =~= start + residual_bits(res@, bs as nat, p as nat));
}

/// Count a FIXED subframe with its orders.
fn count_fixed(order: u32, po: u32, counts: &mut EncodeStats)
    requires
        order < 5,
        po < 9,
        stats::room(old(counts)@, 3),
    ensures
        final(counts)@ == stats::tallied(
            old(counts)@,
            seq![Event::Fixed, Event::FixedOrder(order), Event::PartitionOrder(po)],
        ),
{
    let ghost before = counts@;
    let ghost x = seq![Event::Fixed];
    let ghost y = seq![Event::FixedOrder(order)];
    let ghost z = seq![Event::PartitionOrder(po)];
    proof {
        stats::lemma_room(before, x, 3);
        stats::lemma_tallied_concat(before, x, y);
        stats::lemma_room(before, x + y, 3);
        stats::lemma_tallied_concat(before, x + y, z);
        assert(x + y + z =~= seq![
            Event::Fixed,
            Event::FixedOrder(order),
            Event::PartitionOrder(po),
        ]);
    }
    counts.count(Event::Fixed);
    counts.count(Event::FixedOrder(order));
    counts.count(Event::PartitionOrder(po));
}

/// Count an LPC subframe with its partition order.
fn count_lpc(po: u32, counts: &mut EncodeStats)
    requires
        po < 9,
        stats::room(old(counts)@, 2),
    ensures
        final(counts)@ == stats::tallied(
            old(counts)@,
            seq![Event::Lpc, Event::PartitionOrder(po)],
        ),
{
    let ghost before = counts@;
    let ghost x = seq![Event::Lpc];
    let ghost z = seq![Event::PartitionOrder(po)];
    proof {
        stats::lemma_room(before, x, 2);
        stats::lemma_tallied_concat(before, x, z);
        assert(x + z =~= seq![Event::Lpc, Event::PartitionOrder(po)]);
    }
    counts.count(Event::Lpc);
    counts.count(Event::PartitionOrder(po));
}

/// A realized kind's partition order is one that is counted.
proof fn lemma_order_counted(choice: &SubframeChoice, a: ArmModel)
    requires
        choice.codes(a),
    ensures
        match choice.kind {
            SubframeKind::Fixed { order, res, plan } => order < 5 && plan.partition_order < 9
                && plan.partition_order == choice.kind@.plan(a).order,
            SubframeKind::Lpc(c) => c.plan.partition_order < 9 && c.plan.partition_order
                == choice.kind@.plan(a).order,
            _ => true,
        },
{
    match choice.kind {
        SubframeKind::Fixed { order, res, plan } => {
            partition::lemma_plan_fits(res@, a.samples.len(), order as nat);
        },
        SubframeKind::Lpc(c) => {
            partition::lemma_plan_fits(c.res@, a.samples.len(), c.qlp@.len());
        },
        _ => {},
    }
}

/// Count the kind of a subframe.
fn count_kind(arm: &ArmInput, choice: &SubframeChoice, counts: &mut EncodeStats)
    requires
        choice.codes(arm@),
        stats::room(old(counts)@, 3),
    ensures
        final(counts)@ == stats::tallied(old(counts)@, kind_events(arm@, choice.kind@)),
{
    proof {
        lemma_order_counted(choice, arm@);
    }
    match &choice.kind {
        SubframeKind::Constant(value) => {
            counts.count(Event::Constant);
        },
        SubframeKind::Verbatim => {
            counts.count(Event::Verbatim);
        },
        SubframeKind::Fixed { order, res, plan } => {
            count_fixed(*order as u32, plan.partition_order, counts);
        },
        SubframeKind::Lpc(c) => {
            count_lpc(c.plan.partition_order, counts);
        },
    }
}

/// The type code of a chosen subframe.
fn type_code(choice: &SubframeChoice, Ghost(a): Ghost<ArmModel>) -> (r: u64)
    requires
        choice.codes(a),
    ensures
        r == type_of(choice.kind@),
{
    match &choice.kind {
        SubframeKind::Constant(value) => 0,
        SubframeKind::Verbatim => 1,
        SubframeKind::Fixed { order, res, plan } => 8 + *order as u64,
        SubframeKind::Lpc(c) => 31 + c.qlp.len() as u64,
    }
}

/// Write a linear prediction subframe behind its header.
fn write_lpc(bw: &mut BitWriter, arm: &ArmInput, c: &LpcCandidate)
    requires
        old(bw).wf(),
        choice::codable(arm@),
        c.codes(arm@),
    ensures
        final(bw).wf(),
        final(bw)@ == old(bw)@ + payload_bits(arm@, c.kind()),
{
    let ghost start = bw@;
    let order: usize = c.qlp.len();
    write_ints(bw, arm.samples.as_slice(), order, arm.ebps);
    let ghost head = bw@;
    bw.write_bits((LPC_PRECISION - 1) as u64, 4);
    bw.write_bits(c.shift as u64, 5);
    write_ints(bw, c.qlp.as_slice(), order, LPC_PRECISION);
    assert(c.qlp@.take(order as int) =~= c.qlp@);
    assert(bw@ =~= head + lpc_bits(c.qlp@, c.shift as nat));
    write_residual(bw, c.res.as_slice(), arm.samples.len(), order, &c.plan);
    assert(bw@ =~= start + payload_bits(arm@, c.kind()));
}

/// Write what a subframe stores behind its header.
fn write_payload(bw: &mut BitWriter, arm: &ArmInput, choice: &SubframeChoice)
    requires
        old(bw).wf(),
        choice::codable(arm@),
        choice.codes(arm@),
    ensures
        final(bw).wf(),
        final(bw)@ == old(bw)@ + payload_bits(arm@, choice.kind@),
{
    let ghost start = bw@;
    let n: usize = arm.samples.len();
    match &choice.kind {
        SubframeKind::Constant(value) => {
            bw.write_signed(*value as i64, arm.ebps);
        },
        SubframeKind::Verbatim => {
            write_ints(bw, arm.samples.as_slice(), n, arm.ebps);
            assert(arm.samples@.take(n as int) =~= arm.samples@);
        },
        SubframeKind::Fixed { order, res, plan } => {
            write_ints(bw, arm.samples.as_slice(), *order, arm.ebps);
            write_residual(bw, res.as_slice(), n, *order, plan);
            assert(bw@ =~= start + payload_bits(arm@, choice.kind@));
        },
        SubframeKind::Lpc(c) => {
            write_lpc(bw, arm, c);
        },
    }
}

/// Write an arm as it was chosen to be coded.
pub fn write_subframe_from(
    bw: &mut BitWriter,
    arm: &ArmInput,
    choice: &SubframeChoice,
    counts: &mut EncodeStats,
)
    requires
        old(bw).wf(),
        choice::codable(arm@),
        choice.codes(arm@),
        stats::room(old(counts)@, 4),
    ensures
        final(bw).wf(),
        final(bw)@ == old(bw)@ + subframe_bits(arm@, choice.kind@),
        final(counts)@ == stats::tallied(old(counts)@, write_events(arm@, choice.kind@)),
{
    let ghost start = bw@;
    let ghost before = counts@;
    let ghost events = kind_events(arm@, choice.kind@);
    count_kind(arm, choice, counts);
    proof {
        stats::lemma_room(before, events, 4);
        stats::lemma_tallied_concat(before, events, wasted_events(arm.wasted as nat));
    }
    let ty: u64 = type_code(choice, Ghost(arm@));
    write_subframe_header(bw, ty, arm.wasted, counts);
    write_payload(bw, arm, choice);
    assert(bw@ =~= start + subframe_bits(arm@, choice.kind@));
}

} // verus!
