//! Lossless is the invariant: decoding an encoded stream gives back every
//! sample, whatever the analysis was.
use crate::arith;
use crate::arm;
use crate::bits;
use crate::choice;
use crate::choice::AnalysisModel;
use crate::crc;
use crate::decode::DecodeError;
use crate::encode;
use crate::encode::EncoderModel;
use crate::frame;
use crate::grammar;
use crate::grammar::{FrameModel, HeaderModel, InfoModel};
use crate::interop;
use crate::layout;
use crate::layout::{CodedModel, LayoutModel};
use crate::number;
use crate::pcm;
use crate::roundtrip;
use crate::subframe;
use vstd::arithmetic::power2::*;
use vstd::prelude::*;

verus! {

// ---------------------------------------------------------------------------
// Stereo
// ---------------------------------------------------------------------------
/// Left, right, mid and side.
pub open spec fn pair_channels(l: Seq<i32>, r: Seq<i32>) -> Seq<Seq<i32>> {
    seq![l, r, layout::mid_of(l, r), layout::side_of(l, r)]
}

/// The side channel of two channels takes one bit more, the mid channel none.
pub proof fn lemma_pair_fits(l: Seq<i32>, r: Seq<i32>, bps: nat)
    requires
        l.len() == r.len(),
        1 <= bps <= 24,
        roundtrip::fits(l, bps),
        roundtrip::fits(r, bps),
    ensures
        roundtrip::fits(layout::mid_of(l, r), bps),
        roundtrip::fits(layout::side_of(l, r), bps + 1),
{
    lemma2_to64();
    arith::lemma_pow2_monotone((bps - 1) as nat, 23);
    lemma_pow2_unfold(bps);
    let h = pow2((bps - 1) as nat) as int;
    assert forall|i: int| 0 <= i < l.len() implies -h <= #[trigger] layout::mid_of(l, r)[i] < h by {
        assert(-h <= l[i] < h && -h <= r[i] < h);
        arith::lemma_wrap32_in_range(l[i] + r[i]);
    }
    assert forall|i: int| 0 <= i < l.len() implies -pow2(bps) <= #[trigger] layout::side_of(
        l,
        r,
    )[i] < pow2(bps) by {
        assert(-h <= l[i] < h && -h <= r[i] < h);
        arith::lemma_wrap32_in_range(l[i] - r[i]);
    }
}

/// Every stereo mode is undone exactly: from the two channels that a mode
/// codes the decoder gets left and right back.
pub proof fn lemma_modes_invert(l: Seq<i32>, r: Seq<i32>, bps: nat, m: nat)
    requires
        l.len() == r.len(),
        1 <= bps <= 24,
        roundtrip::fits(l, bps),
        roundtrip::fits(r, bps),
        m < 4,
    ensures
        grammar::undo_stereo(
            layout::mode_code(m),
            seq![
                pair_channels(l, r)[layout::mode_first(m)],
                pair_channels(l, r)[layout::mode_second(m)],
            ],
        ) == seq![l, r],
{
    lemma2_to64();
    arith::lemma_pow2_monotone((bps - 1) as nat, 23);
    let h = pow2((bps - 1) as nat) as int;
    let subs = seq![
        pair_channels(l, r)[layout::mode_first(m)],
        pair_channels(l, r)[layout::mode_second(m)],
    ];
    let out = grammar::undo_stereo(layout::mode_code(m), subs);
    assert forall|i: int| 0 <= i < l.len() implies out[0][i] == l[i] && out[1][i] == r[i] by {
        assert(-h <= l[i] < h && -h <= r[i] < h);
        arith::lemma_wrap32_in_range(l[i] - r[i]);
        arith::lemma_wrap32_in_range(l[i] + r[i]);
        arith::lemma_wrap32_in_range(l[i] as int);
        arith::lemma_wrap32_in_range(r[i] as int);
    }
    assert(out[0] =~= l);
    assert(out[1] =~= r);
    assert(out =~= seq![l, r]);
}

// ---------------------------------------------------------------------------
// Layouts
// ---------------------------------------------------------------------------
/// A subframe that reads back as the channel `s` of `depth` bits.
pub open spec fn restores(sub: CodedModel, s: Seq<i32>, depth: nat) -> bool {
    &&& sub.arm.samples.len() == s.len()
    &&& 1 <= sub.arm.depth <= 32
    &&& sub.arm.wasted <= 31
    &&& sub.arm.depth + sub.arm.wasted == depth
    &&& roundtrip::fits(sub.arm.samples, sub.arm.depth)
    &&& roundtrip::codes(sub.arm, sub.kind)
    &&& grammar::shifted_up(sub.arm.samples, sub.arm.wasted) == s
}

/// The channels that the subframes of a layout read back as.
pub open spec fn coded_channels(l: LayoutModel) -> Seq<Seq<i32>> {
    Seq::new(
        l.subs.len(),
        |c: int| grammar::shifted_up(l.subs[c].arm.samples, l.subs[c].arm.wasted),
    )
}

/// A layout that reads back as the block `blocks`.
pub open spec fn lays_out(l: LayoutModel, blocks: Seq<Seq<i32>>, bps: nat) -> bool {
    &&& l.subs.len() == blocks.len()
    &&& l.assignment <= 10
    &&& grammar::channels_of(l.assignment) == blocks.len()
    &&& forall|c: int|
        0 <= c < blocks.len() ==> restores(
            #[trigger] l.subs[c],
            coded_channels(l)[c],
            grammar::channel_depth(l.assignment, bps, c),
        ) && l.subs[c].arm.samples.len() == blocks[0].len()
    &&& grammar::undo_stereo(l.assignment, coded_channels(l)) == blocks
}

proof fn lemma_arm_restores(s: Seq<i32>, bps: nat, analysis: AnalysisModel, max_lpc_order: nat)
    requires
        1 <= bps <= 32,
        s.len() >= 1,
        roundtrip::fits(s, bps),
        max_lpc_order <= choice::LPC_MAX_ORDER,
    ensures
        restores(
            CodedModel {
                arm: arm::arm_of(s, bps),
                kind: choice::chosen(
                    arm::arm_of(s, bps),
                    choice::usable_both(analysis, choice::top_order(max_lpc_order, s.len())),
                ),
            },
            s,
            bps,
        ),
{
    roundtrip::lemma_arm_restores(s, bps);
    roundtrip::lemma_arm_fits(s, bps);
    roundtrip::lemma_chosen_codes(arm::arm_of(s, bps), analysis, max_lpc_order);
}

/// Two subframes that read back as the channels of a stereo mode lay out the
/// block that the mode is undone to.
proof fn lemma_pair_lays_out(
    l: LayoutModel,
    p: Seq<i32>,
    q: Seq<i32>,
    blocks: Seq<Seq<i32>>,
    bps: nat,
)
    requires
        blocks.len() == 2,
        l.subs.len() == 2,
        l.assignment <= 10,
        grammar::channels_of(l.assignment) == 2,
        p.len() == q.len() == blocks[0].len(),
        restores(l.subs[0], p, grammar::channel_depth(l.assignment, bps, 0)),
        restores(l.subs[1], q, grammar::channel_depth(l.assignment, bps, 1)),
        grammar::undo_stereo(l.assignment, seq![p, q]) == blocks,
    ensures
        lays_out(l, blocks, bps),
{
    assert(coded_channels(l) =~= seq![p, q]);
}

/// The arms of a stereo block are those of its four channels; the side has one
/// bit more.
proof fn lemma_stereo_arm(l: Seq<i32>, r: Seq<i32>, bps: nat, i: int)
    requires
        0 <= i < 4,
    ensures
        layout::stereo_arms(l, r, bps)[i] == arm::arm_of(
            pair_channels(l, r)[i],
            if i == 3 {
                bps + 1
            } else {
                bps
            },
        ),
{
}

/// The layout of a stereo block reads back as the block.
proof fn lemma_stereo_lays_out(
    l: Seq<i32>,
    r: Seq<i32>,
    bps: nat,
    list: Seq<AnalysisModel>,
    max_lpc_order: nat,
)
    requires
        l.len() == r.len(),
        l.len() >= 1,
        1 <= bps <= 24,
        roundtrip::fits(l, bps),
        roundtrip::fits(r, bps),
        max_lpc_order <= choice::LPC_MAX_ORDER,
    ensures
        lays_out(
            layout::stereo_layout(
                layout::stereo_arms(l, r, bps),
                layout::stereo_estimates(list, max_lpc_order, l.len()),
            ),
            seq![l, r],
            bps,
        ),
{
    let arms = layout::stereo_arms(l, r, bps);
    let a = layout::stereo_estimates(list, max_lpc_order, l.len());
    let out = layout::stereo_layout(arms, a);
    let m = layout::stereo_mode(arms, a);
    let chans = pair_channels(l, r);
    let i = layout::mode_first(m);
    let j = layout::mode_second(m);
    layout::lemma_stereo_mode(arms, a);
    lemma_pair_fits(l, r, bps);
    lemma_modes_invert(l, r, bps, m);
    let di = if i == 3 {
        bps + 1
    } else {
        bps
    };
    let dj = if j == 3 {
        bps + 1
    } else {
        bps
    };
    lemma_stereo_arm(l, r, bps, i);
    lemma_stereo_arm(l, r, bps, j);
    lemma_arm_restores(chans[i], di, layout::analysis_at(list, i), max_lpc_order);
    lemma_arm_restores(chans[j], dj, layout::analysis_at(list, j), max_lpc_order);
    assert(out.subs[0] == layout::coded(arms, a, i));
    assert(out.subs[1] == layout::coded(arms, a, j));
    assert(di == grammar::channel_depth(out.assignment, bps, 0));
    assert(dj == grammar::channel_depth(out.assignment, bps, 1));
    lemma_pair_lays_out(out, chans[i], chans[j], seq![l, r], bps);
}

/// The layout of a block reads back as the block.
pub proof fn lemma_layout_restores(
    blocks: Seq<Seq<i32>>,
    bps: nat,
    list: Seq<AnalysisModel>,
    max_lpc_order: nat,
)
    requires
        1 <= blocks.len() <= 8,
        forall|c: int|
            0 <= c < blocks.len() ==> (#[trigger] blocks[c]).len() == blocks[0].len()
                && roundtrip::fits(blocks[c], bps),
        blocks[0].len() >= 1,
        1 <= bps <= 24,
        max_lpc_order <= choice::LPC_MAX_ORDER,
    ensures
        lays_out(layout::layout_of(blocks, bps, list, max_lpc_order), blocks, bps),
{
    if blocks.len() == 2 {
        assert(blocks[1].len() == blocks[0].len());
        lemma_stereo_lays_out(blocks[0], blocks[1], bps, list, max_lpc_order);
        assert(seq![blocks[0], blocks[1]] =~= blocks);
    } else {
        let out = layout::layout_of(blocks, bps, list, max_lpc_order);
        assert forall|c: int| 0 <= c < blocks.len() implies restores(
            #[trigger] out.subs[c],
            blocks[c],
            bps,
        ) by {
            lemma_arm_restores(blocks[c], bps, layout::analysis_at(list, c), max_lpc_order);
        }
        assert forall|c: int| 0 <= c < blocks.len() implies coded_channels(out)[c]
            == blocks[c] by {
            assert(restores(out.subs[c], blocks[c], bps));
        }
        assert(coded_channels(out) =~= blocks);
    }
}

// ---------------------------------------------------------------------------
// Frames
// ---------------------------------------------------------------------------
/// A whole number of bytes' bits at the start of a byte sequence are its first
/// bytes.
proof fn lemma_prefix_bytes(rest: Seq<u8>, w: Seq<bool>)
    requires
        bits::stands_at(bits::byte_bits(rest), 0, w),
        w.len() % 8 == 0,
    ensures
        w.len() / 8 <= rest.len(),
        rest.take((w.len() / 8) as int) == bits::pack(w),
{
    broadcast use bits::group_bits_len;

    let k = (w.len() / 8) as int;
    bits::lemma_byte_bits_subrange(rest, 0, k);
    assert(rest.subrange(0, k) =~= rest.take(k));
    bits::lemma_pack_byte_bits(rest.take(k));
}

/// The first four bytes of a frame header read back.
proof fn lemma_lead_round_trip(b: Seq<bool>, assignment: nat, bps: nat)
    requires
        assignment < 16,
        bits::stands_at(b, 0, frame::lead_bits(assignment, bps)),
    ensures
        grammar::room(b, 0, 32),
        grammar::uint(b, 0, 14) == 0x3FFE,
        grammar::uint(b, 14, 1) == 0,
        grammar::uint(b, 15, 1) == 0,
        grammar::uint(b, 16, 4) == 7,
        grammar::uint(b, 20, 4) == 0,
        grammar::uint(b, 24, 4) == assignment,
        grammar::uint(b, 28, 3) == frame::size_code(bps),
        grammar::uint(b, 31, 1) == 0,
{
    broadcast use bits::group_bits_len;

    lemma2_to64();
    let sync = bits::field(0x3FFE, 14);
    let zero = bits::field(0, 1);
    let seven = bits::field(7, 4);
    let rate = bits::field(0, 4);
    let asg = bits::field(assignment as int, 4);
    let size = bits::field(frame::size_code(bps) as int, 3);
    let x5 = sync + zero + zero + seven + rate;
    let x6 = x5 + asg;
    bits::lemma_stands_split(b, 0, x6 + size, zero);
    bits::lemma_stands_split(b, 0, x6, size);
    bits::lemma_stands_split(b, 0, x5, asg);
    bits::lemma_stands_split(b, 0, sync + zero + zero + seven, rate);
    bits::lemma_stands_split(b, 0, sync + zero + zero, seven);
    bits::lemma_stands_split(b, 0, sync + zero, zero);
    bits::lemma_stands_split(b, 0, sync, zero);
    roundtrip::lemma_uint_round_trip(b, 0, 0x3FFE, 14);
    roundtrip::lemma_uint_round_trip(b, 14, 0, 1);
    roundtrip::lemma_uint_round_trip(b, 15, 0, 1);
    roundtrip::lemma_uint_round_trip(b, 16, 7, 4);
    roundtrip::lemma_uint_round_trip(b, 20, 0, 4);
    roundtrip::lemma_uint_round_trip(b, 24, assignment as int, 4);
    roundtrip::lemma_uint_round_trip(b, 28, frame::size_code(bps) as int, 3);
    roundtrip::lemma_uint_round_trip(b, 31, 0, 1);
}

/// A frame header reads back.
pub proof fn lemma_header_round_trip(
    rest: Seq<u8>,
    number: u64,
    bs: nat,
    assignment: nat,
    bps: nat,
    info: InfoModel,
)
    requires
        number < 0x8000_0000,
        1 <= bs <= 65536,
        assignment <= 10,
        bps == 8 || bps == 16 || bps == 24,
        grammar::channels_of(assignment) == info.channels,
        bits::stands_at(
            bits::byte_bits(rest),
            0,
            frame::header_bits(number, bs, assignment, bps),
        ),
    ensures
        grammar::read_header(rest, info) == Ok::<HeaderModel, DecodeError>(
            HeaderModel {
                block_size: bs,
                depth: bps,
                assignment,
                end: frame::header_bits(number, bs, assignment, bps).len() as int,
            },
        ),
{
    broadcast use bits::group_bits_len;

    lemma2_to64();
    reveal(grammar::read_header);
    let b = bits::byte_bits(rest);
    let h = frame::plain_header_bits(number, bs, assignment, bps);
    let check = crc::crc8_of(bits::pack(h));
    let lead = frame::lead_bits(assignment, bps);
    let num = number::number_bits(number);
    let size = bits::field(bs - 1, 16);
    bits::lemma_stands_split(b, 0, h, bits::field(check as int, 8));
    bits::lemma_stands_split(b, 0, lead + num, size);
    bits::lemma_stands_split(b, 0, lead, num);
    frame::lemma_lead_len(assignment, bps);
    frame::lemma_header_len(number, bs, assignment, bps);
    lemma_lead_round_trip(b, assignment, bps);
    number::lemma_number_round_trip(b, 32, number);
    let p: int = 32 + num.len() as int;
    roundtrip::lemma_uint_round_trip(b, p, bs - 1, 16);
    let p2 = p + 16;
    assert(p2 == h.len());
    roundtrip::lemma_uint_round_trip(b, p2, check as int, 8);
    lemma_prefix_bytes(rest, h);
}

/// The subframes of a layout read back.
proof fn lemma_subs_round_trip(
    b: Seq<bool>,
    h: HeaderModel,
    l: LayoutModel,
    blocks: Seq<Seq<i32>>,
    n: nat,
)
    requires
        h.end >= 0,
        lays_out(l, blocks, h.depth),
        blocks[0].len() >= 1,
        h.block_size == blocks[0].len(),
        h.assignment == l.assignment,
        n <= blocks.len(),
        bits::stands_at(b, h.end, frame::subs_bits(l.subs, n)),
    ensures
        grammar::read_subframes(b, h, n) == Ok::<(Seq<Seq<i32>>, int), DecodeError>(
            (coded_channels(l).take(n as int), h.end + frame::subs_bits(l.subs, n).len()),
        ),
    decreases n,
{
    if n == 0 {
        assert(coded_channels(l).take(0) =~= Seq::empty());
    } else {
        let m = (n - 1) as nat;
        let sub = l.subs[n - 1];
        let head = frame::subs_bits(l.subs, m);
        let last = subframe::subframe_bits(sub.arm, sub.kind);
        bits::lemma_stands_split(b, h.end, head, last);
        lemma_subs_round_trip(b, h, l, blocks, m);
        assert(restores(
            l.subs[n - 1],
            coded_channels(l)[n - 1],
            grammar::channel_depth(l.assignment, h.depth, n - 1),
        ));
        roundtrip::lemma_subframe_round_trip(b, h.end + head.len(), sub.arm, sub.kind);
        assert(coded_channels(l).take(m as int).push(coded_channels(l)[n - 1])
            =~= coded_channels(l).take(n as int));
    }
}

/// The header and the subframes of a frame read back.
proof fn lemma_frame_body_round_trip(
    rest: Seq<u8>,
    number: u64,
    bps: nat,
    l: LayoutModel,
    blocks: Seq<Seq<i32>>,
    info: InfoModel,
)
    requires
        number < 0x8000_0000,
        bps == 8 || bps == 16 || bps == 24,
        1 <= blocks[0].len() <= 65536,
        lays_out(l, blocks, bps),
        info.channels == blocks.len(),
        bits::stands_at(
            bits::byte_bits(rest),
            0,
            frame::header_bits(number, blocks[0].len(), l.assignment, bps) + frame::subs_bits(
                l.subs,
                l.subs.len(),
            ),
        ),
    ensures
        ({
            let head = frame::header_bits(number, blocks[0].len(), l.assignment, bps);
            let h = HeaderModel {
                block_size: blocks[0].len(),
                depth: bps,
                assignment: l.assignment,
                end: head.len() as int,
            };
            &&& grammar::read_header(rest, info) == Ok::<HeaderModel, DecodeError>(h)
            &&& grammar::read_subframes(bits::byte_bits(rest), h, info.channels) == Ok::<
                (Seq<Seq<i32>>, int),
                DecodeError,
            >(
                (
                    coded_channels(l),
                    (head + frame::subs_bits(l.subs, l.subs.len())).len() as int,
                ),
            )
        }),
{
    let b = bits::byte_bits(rest);
    let head = frame::header_bits(number, blocks[0].len(), l.assignment, bps);
    let subs = frame::subs_bits(l.subs, l.subs.len());
    bits::lemma_stands_split(b, 0, head, subs);
    lemma_header_round_trip(rest, number, blocks[0].len(), l.assignment, bps, info);
    let h = HeaderModel {
        block_size: blocks[0].len(),
        depth: bps,
        assignment: l.assignment,
        end: head.len() as int,
    };
    lemma_subs_round_trip(b, h, l, blocks, blocks.len());
    assert(coded_channels(l).take(blocks.len() as int) =~= coded_channels(l));
}

/// The checksum of a frame reads back.
proof fn lemma_frame_check(rest: Seq<u8>, body: Seq<bool>)
    requires
        body.len() % 8 == 0,
        bits::stands_at(
            bits::byte_bits(rest),
            0,
            body + bits::field(crc::crc16_of(bits::pack(body)) as int, 16),
        ),
    ensures
        bits::stands_at(bits::byte_bits(rest), 0, body),
        grammar::room(bits::byte_bits(rest), body.len() as int, 16),
        crc::crc16_of(rest.take(body.len() as int / 8)) == grammar::uint(
            bits::byte_bits(rest),
            body.len() as int,
            16,
        ),
{
    lemma2_to64();
    let b = bits::byte_bits(rest);
    let check = crc::crc16_of(bits::pack(body));
    bits::lemma_stands_split(b, 0, body, bits::field(check as int, 16));
    roundtrip::lemma_uint_round_trip(b, body.len() as int, check as int, 16);
    lemma_prefix_bytes(rest, body);
}

/// A frame reads back where it stands, whatever follows it.
pub proof fn lemma_frame_round_trip(
    rest: Seq<u8>,
    number: u64,
    bps: nat,
    l: LayoutModel,
    blocks: Seq<Seq<i32>>,
    info: InfoModel,
)
    requires
        number < 0x8000_0000,
        bps == 8 || bps == 16 || bps == 24,
        1 <= blocks[0].len() <= 65536,
        lays_out(l, blocks, bps),
        info.channels == blocks.len(),
        bits::stands_at(
            bits::byte_bits(rest),
            0,
            frame::frame_bits(number, blocks[0].len(), bps, l),
        ),
    ensures
        grammar::read_frame(rest, info) == Ok::<FrameModel, DecodeError>(
            FrameModel {
                block_size: blocks[0].len(),
                channels: blocks,
                len: frame::frame_bits(number, blocks[0].len(), bps, l).len() as int / 8,
            },
        ),
{
    reveal(grammar::read_frame);
    let b = bits::byte_bits(rest);
    let bs = blocks[0].len();
    let head = frame::header_bits(number, bs, l.assignment, bps);
    let subs = frame::subs_bits(l.subs, l.subs.len());
    let both = head + subs;
    let body = frame::body_bits(number, bs, bps, l);
    frame::lemma_frame_bits_len(number, bs, bps, l);
    lemma_frame_check(rest, body);
    bits::lemma_stands_split(b, 0, both, bits::zeros(bits::padding(both.len())));
    lemma_frame_body_round_trip(rest, number, bps, l, blocks, info);
    assert(both.len() + bits::padding(both.len()) == body.len());
}

/// The subframes of a layout take no more bits than verbatim ones would.
proof fn lemma_subs_len(l: LayoutModel, blocks: Seq<Seq<i32>>, bps: nat, n: nat)
    requires
        lays_out(l, blocks, bps),
        n <= blocks.len(),
        blocks[0].len() <= 4096,
        forall|c: int|
            0 <= c < blocks.len() ==> (#[trigger] l.subs[c]).kind.cost(l.subs[c].arm)
                <= choice::KindModel::Verbatim.cost(l.subs[c].arm),
    ensures
        frame::subs_bits(l.subs, n).len() <= n * 131_111,
    decreases n,
{
    if n > 0 {
        lemma_subs_len(l, blocks, bps, (n - 1) as nat);
        let sub = l.subs[n - 1];
        assert(restores(
            l.subs[n - 1],
            coded_channels(l)[n - 1],
            grammar::channel_depth(l.assignment, bps, n - 1),
        ));
        roundtrip::lemma_cost_exact(sub.arm, sub.kind);
        reveal(choice::KindModel::cost);
        let x = sub.arm.samples.len();
        let y = sub.arm.depth;
        assert(x * y <= 4096 * 32) by (nonlinear_arith)
            requires
                x <= 4096,
                y <= 32,
        ;
    }
}

/// Every subframe of a layout takes no more bits than a verbatim one would.
pub proof fn lemma_layout_at_most_verbatim(
    blocks: Seq<Seq<i32>>,
    bps: nat,
    list: Seq<AnalysisModel>,
    max_lpc_order: nat,
    c: int,
)
    requires
        forall|c: int|
            0 <= c < blocks.len() ==> (#[trigger] blocks[c]).len() == blocks[0].len(),
        blocks[0].len() >= 1,
        0 <= c < blocks.len(),
    ensures
        ({
            let sub = layout::layout_of(blocks, bps, list, max_lpc_order).subs[c];
            sub.kind.cost(sub.arm) <= choice::KindModel::Verbatim.cost(sub.arm)
        }),
{
    assert(blocks[c].len() == blocks[0].len());
    if blocks.len() == 2 {
        let arms = layout::stereo_arms(blocks[0], blocks[1], bps);
        let a = layout::stereo_estimates(list, max_lpc_order, blocks[0].len());
        let m = layout::stereo_mode(arms, a);
        layout::lemma_stereo_mode(arms, a);
        assert(blocks[1].len() == blocks[0].len());
        choice::lemma_chosen_at_most_verbatim(
            arms[layout::mode_first(m)],
            a[layout::mode_first(m)],
        );
        choice::lemma_chosen_at_most_verbatim(
            arms[layout::mode_second(m)],
            a[layout::mode_second(m)],
        );
    } else {
        choice::lemma_chosen_at_most_verbatim(
            arm::arm_of(blocks[c], bps),
            layout::estimates_at(list, c, max_lpc_order, blocks[c].len()),
        );
    }
}

// ---------------------------------------------------------------------------
// Streams
// ---------------------------------------------------------------------------
/// Every buffered sample fits into the encoder's bit depth.
pub open spec fn in_range(e: EncoderModel) -> bool {
    forall|c: int| 0 <= c < e.chans.len() ==> roundtrip::fits(#[trigger] e.chans[c], e.bps)
}

/// A block of an encoder whose samples are in range.
proof fn lemma_block(e: EncoderModel, k: int)
    requires
        e.wf(),
        in_range(e),
        0 <= k < encode::block_count(e.len()),
    ensures
        ({
            let b = encode::block_at(e.chans, k);
            &&& b.len() == e.chans.len()
            &&& b[0].len() == encode::block_end(e.len(), k) - 4096 * k
            &&& 1 <= b[0].len() <= 4096
            &&& forall|c: int|
                0 <= c < b.len() ==> (#[trigger] b[c]).len() == b[0].len() && roundtrip::fits(
                    b[c],
                    e.bps,
                )
        }),
{
    let b = encode::block_at(e.chans, k);
    encode::lemma_block_len(e, k);
    encode::lemma_block_channel(e, k, 0);
    assert forall|c: int| 0 <= c < b.len() implies (#[trigger] b[c]).len() == b[0].len()
        && roundtrip::fits(b[c], e.bps) by {
        encode::lemma_block_channel(e, k, c);
        assert(roundtrip::fits(e.chans[c], e.bps));
        assert forall|i: int| 0 <= i < b[c].len() implies -pow2((e.bps - 1) as nat)
            <= #[trigger] b[c][i] < pow2((e.bps - 1) as nat) by {
            assert(b[c][i] == e.chans[c][4096 * k + i]);
        }
    }
}

/// The layout of block `k`.
pub open spec fn layout_at(e: EncoderModel, all: Seq<Seq<AnalysisModel>>, k: nat) -> LayoutModel {
    layout::layout_of(
        encode::block_at(e.chans, k as int),
        e.bps,
        encode::list_at(all, k as int),
        e.max_lpc_order,
    )
}

/// The bits of frame `k`.
pub open spec fn bits_at(e: EncoderModel, all: Seq<Seq<AnalysisModel>>, k: nat) -> Seq<bool> {
    frame::frame_bits(
        k as u64,
        encode::block_at(e.chans, k as int)[0].len(),
        e.bps,
        layout_at(e, all, k),
    )
}

/// A frame's bytes hold its bits, and its length fits into STREAMINFO's
/// 24-bit fields.
pub proof fn lemma_frame_at(e: EncoderModel, all: Seq<Seq<AnalysisModel>>, k: nat)
    requires
        e.wf(),
        in_range(e),
        k < encode::block_count(e.len()),
        k < 0x8000_0000,
    ensures
        lays_out(layout_at(e, all, k), encode::block_at(e.chans, k as int), e.bps),
        bits::byte_bits(encode::frame_at(e, all, k)) == bits_at(e, all, k),
        8 * encode::frame_at(e, all, k).len() == bits_at(e, all, k).len(),
        encode::frame_at(e, all, k).len() < 0x100_0000,
{
    broadcast use bits::group_bits_len;

    let b = encode::block_at(e.chans, k as int);
    reveal(encode::frame_at);
    let l = layout_at(e, all, k);
    let list = encode::list_at(all, k as int);
    lemma_block(e, k as int);
    lemma_layout_restores(b, e.bps, list, e.max_lpc_order);
    frame::lemma_frame_bits_len(k as u64, b[0].len(), e.bps, l);
    bits::lemma_byte_bits_pack(bits_at(e, all, k));
    assert forall|c: int| 0 <= c < b.len() implies (#[trigger] l.subs[c]).kind.cost(l.subs[c].arm)
        <= choice::KindModel::Verbatim.cost(l.subs[c].arm) by {
        lemma_layout_at_most_verbatim(b, e.bps, list, e.max_lpc_order, c);
    }
    lemma_subs_len(l, b, e.bps, b.len());
    number::lemma_number_len(k as u64);
    frame::lemma_lead_len(l.assignment, e.bps);
}

/// The first frames of a stream are where they are, however many follow.
proof fn lemma_frames_prefix(e: EncoderModel, all: Seq<Seq<AnalysisModel>>, j: nat, k: nat)
    requires
        j <= k,
    ensures
        encode::frames(e, all, j).len() <= encode::frames(e, all, k).len(),
        encode::frames(e, all, k).take(encode::frames(e, all, j).len() as int) == encode::frames(
            e,
            all,
            j,
        ),
    decreases k - j,
{
    let x = encode::frames(e, all, j);
    let y = encode::frames(e, all, k);
    if j == k {
        assert(y.take(x.len() as int) =~= x);
    } else {
        let m = (k - 1) as nat;
        lemma_frames_prefix(e, all, j, m);
        let z = encode::frames(e, all, m);
        assert(y.take(x.len() as int) =~= z.take(x.len() as int));
    }
}

/// The STREAMINFO that a decoder finds.
pub open spec fn info_at(e: EncoderModel, all: Seq<Seq<AnalysisModel>>) -> InfoModel {
    let k = encode::block_count(e.len());
    InfoModel {
        min_block_size: 4096,
        max_block_size: 4096,
        min_frame_size: encode::shortest(e, all, k),
        max_frame_size: encode::longest(e, all, k),
        sample_rate: e.sample_rate,
        channels: e.chans.len(),
        bits_per_sample: e.bps,
        total_samples: e.len() % 0x10_0000_0000,
        md5: encode::signature(e),
    }
}

proof fn lemma_extremes_bound(e: EncoderModel, all: Seq<Seq<AnalysisModel>>, k: nat)
    requires
        e.wf(),
        in_range(e),
        k <= encode::block_count(e.len()),
        k <= 0x8000_0000,
    ensures
        encode::shortest(e, all, k) < 0x100_0000,
        encode::longest(e, all, k) < 0x100_0000,
    decreases k,
{
    if k > 0 {
        lemma_extremes_bound(e, all, (k - 1) as nat);
        lemma_frame_at(e, all, (k - 1) as nat);
    }
}

proof fn lemma_signature_len(e: EncoderModel)
    ensures
        encode::signature(e).len() == 16,
{
    broadcast use crate::md5::lemma_le_bytes_len;

}

/// The STREAMINFO block reads back.
proof fn lemma_info_round_trip(e: EncoderModel, all: Seq<Seq<AnalysisModel>>, block: Seq<u8>)
    requires
        e.wf(),
        in_range(e),
        encode::block_count(e.len()) <= 0x8000_0000,
        bits::byte_bits(block) == encode::info_bits(
            e,
            encode::shortest(e, all, encode::block_count(e.len())),
            encode::longest(e, all, encode::block_count(e.len())),
        ),
    ensures
        block.len() == 34,
        grammar::info_of(block) == info_at(e, all),
{
    broadcast use bits::group_bits_len;

    lemma2_to64();
    lemma2_to64_rest();
    let k = encode::block_count(e.len());
    let lo = encode::shortest(e, all, k);
    let hi = encode::longest(e, all, k);
    lemma_extremes_bound(e, all, k);
    lemma_signature_len(e);
    let b = bits::byte_bits(block);
    let w = encode::info_bits(e, lo, hi);
    assert(b.subrange(0, w.len() as int) =~= w);
    let f1 = bits::field(4096, 16);
    let f3 = bits::field(lo as int, 24);
    let f4 = bits::field(hi as int, 24);
    let f5 = bits::field(e.sample_rate as int, 20);
    let f6 = bits::field(e.chans.len() - 1, 3);
    let f7 = bits::field(e.bps - 1, 5);
    let f8 = bits::field(e.len() as int, 36);
    let f9 = bits::byte_bits(encode::signature(e));
    let x4 = f1 + f1 + f3 + f4;
    bits::lemma_stands_split(b, 0, x4 + f5 + f6 + f7 + f8, f9);
    bits::lemma_stands_split(b, 0, x4 + f5 + f6 + f7, f8);
    bits::lemma_stands_split(b, 0, x4 + f5 + f6, f7);
    bits::lemma_stands_split(b, 0, x4 + f5, f6);
    bits::lemma_stands_split(b, 0, x4, f5);
    bits::lemma_stands_split(b, 0, f1 + f1 + f3, f4);
    bits::lemma_stands_split(b, 0, f1 + f1, f3);
    bits::lemma_stands_split(b, 0, f1, f1);
    roundtrip::lemma_uint_round_trip(b, 0, 4096, 16);
    roundtrip::lemma_uint_round_trip(b, 16, 4096, 16);
    roundtrip::lemma_uint_round_trip(b, 32, lo as int, 24);
    roundtrip::lemma_uint_round_trip(b, 56, hi as int, 24);
    roundtrip::lemma_uint_round_trip(b, 80, e.sample_rate as int, 20);
    roundtrip::lemma_uint_round_trip(b, 100, e.chans.len() - 1, 3);
    roundtrip::lemma_uint_round_trip(b, 103, e.bps - 1, 5);
    bits::lemma_value_field(e.len() as int, 36);
    assert(grammar::uint(b, 108, 36) == e.len() % 0x10_0000_0000);
    bits::lemma_byte_bits_subrange(block, 18, 34);
    bits::lemma_pack_byte_bits(block.subrange(18, 34));
    bits::lemma_pack_byte_bits(encode::signature(e));
    assert(block.subrange(18, 34) == encode::signature(e));
    assert(grammar::info_of(block) =~= info_at(e, all));
}

/// The samples of every channel before block `k`.
pub open spec fn before_block(e: EncoderModel, k: nat) -> Seq<Seq<i32>> {
    Seq::new(
        e.chans.len(),
        |c: int| e.chans[c].take(arith::min(4096 * k as int, e.len() as int)),
    )
}

/// Where `x + f` stands in a byte sequence, the bits of `f` stand behind `x`.
proof fn lemma_piece_stands(data: Seq<u8>, x: Seq<u8>, f: Seq<u8>)
    requires
        x.len() + f.len() <= data.len(),
        data.take((x.len() + f.len()) as int) == x + f,
    ensures
        bits::stands_at(
            bits::byte_bits(data.skip(x.len() as int)),
            0,
            bits::byte_bits(f),
        ),
{
    broadcast use bits::group_bits_len;

    let rest = data.skip(x.len() as int);
    let y = data.take((x.len() + f.len()) as int);
    assert forall|i: int| 0 <= i < f.len() implies rest[i] == f[i] by {
        assert(y[x.len() + i] == (x + f)[x.len() + i]);
    }
    bits::lemma_byte_bits_subrange(rest, 0, f.len() as int);
    assert(rest.subrange(0, f.len() as int) =~= f);
}

/// Frame `k` of a stream starts with the bytes behind the frames before it.
proof fn lemma_frame_stands(
    data: Seq<u8>,
    e: EncoderModel,
    all: Seq<Seq<AnalysisModel>>,
    k: nat,
)
    requires
        k < encode::block_count(e.len()),
        data.len() >= 42,
        data.skip(42) == encode::frames(e, all, encode::block_count(e.len())),
    ensures
        42 + encode::frames(e, all, k).len() + encode::frame_at(e, all, k).len() <= data.len(),
        bits::stands_at(
            bits::byte_bits(data.skip(42 + encode::frames(e, all, k).len() as int)),
            0,
            bits::byte_bits(encode::frame_at(e, all, k)),
        ),
{
    let x = encode::frames(e, all, k);
    let f = encode::frame_at(e, all, k);
    lemma_frames_prefix(e, all, k + 1, encode::block_count(e.len()));
    assert(encode::frames(e, all, k + 1) == x + f);
    lemma_piece_stands(data.skip(42), x, f);
    assert(data.skip(42).skip(x.len() as int) =~= data.skip(42 + x.len() as int));
}

/// Frame `k` of a stream decodes to block `k`.
proof fn lemma_frame_decodes(
    data: Seq<u8>,
    e: EncoderModel,
    all: Seq<Seq<AnalysisModel>>,
    info: InfoModel,
    k: nat,
)
    requires
        e.wf(),
        in_range(e),
        encode::block_count(e.len()) <= 0x8000_0000,
        k < encode::block_count(e.len()),
        info.channels == e.chans.len(),
        data.len() >= 42,
        data.skip(42) == encode::frames(e, all, encode::block_count(e.len())),
    ensures
        grammar::read_frame(
            data.skip(42 + encode::frames(e, all, k).len() as int),
            info,
        ) == Ok::<FrameModel, DecodeError>(
            FrameModel {
                block_size: encode::block_at(e.chans, k as int)[0].len(),
                channels: encode::block_at(e.chans, k as int),
                len: encode::frame_at(e, all, k).len() as int,
            },
        ),
{
    let rest = data.skip(42 + encode::frames(e, all, k).len() as int);
    lemma_frame_stands(data, e, all, k);
    lemma_block(e, k as int);
    lemma_frame_at(e, all, k);
    lemma_frame_round_trip(
        rest,
        k as u64,
        e.bps,
        layout_at(e, all, k),
        encode::block_at(e.chans, k as int),
        info,
    );
}

/// From block `k` on, the frames of a stream decode to the rest of its
/// samples.
proof fn lemma_frames_decode(
    data: Seq<u8>,
    e: EncoderModel,
    all: Seq<Seq<AnalysisModel>>,
    info: InfoModel,
    k: nat,
)
    requires
        e.wf(),
        in_range(e),
        encode::block_count(e.len()) <= 0x8000_0000,
        k <= encode::block_count(e.len()),
        info.channels == e.chans.len(),
        data.len() >= 42,
        data.skip(42) == encode::frames(e, all, encode::block_count(e.len())),
    ensures
        grammar::read_frames(
            data,
            42 + encode::frames(e, all, k).len() as int,
            info,
            before_block(e, k),
        ) == Ok::<Seq<Seq<i32>>, DecodeError>(e.chans),
    decreases encode::block_count(e.len()) - k,
{
    let count = encode::block_count(e.len());
    if k == count {
        assert forall|c: int| 0 <= c < e.chans.len() implies before_block(e, k)[c]
            == e.chans[c] by {
            assert(e.chans[c].len() == e.len());
            assert(e.chans[c].take(e.len() as int) =~= e.chans[c]);
        }
        assert(before_block(e, k) =~= e.chans);
    } else {
        let pos = 42 + encode::frames(e, all, k).len() as int;
        let f = FrameModel {
            block_size: encode::block_at(e.chans, k as int)[0].len(),
            channels: encode::block_at(e.chans, k as int),
            len: encode::frame_at(e, all, k).len() as int,
        };
        lemma_frame_stands(data, e, all, k);
        lemma_frame_decodes(data, e, all, info, k);
        grammar::lemma_frame_len(data.skip(pos), info);
        lemma_next_block(e, k);
        lemma_frames_decode(data, e, all, info, k + 1);
        grammar::lemma_read_frames_step(data, pos, info, before_block(e, k), f);
        assert(encode::frames(e, all, k + 1).len() == encode::frames(e, all, k).len()
            + encode::frame_at(e, all, k).len());
    }
}

/// A block continues the samples before it.
proof fn lemma_next_block(e: EncoderModel, k: nat)
    requires
        e.wf(),
        k < encode::block_count(e.len()),
    ensures
        grammar::extended(before_block(e, k), encode::block_at(e.chans, k as int)) == before_block(
            e,
            k + 1,
        ),
{
    let b = encode::block_at(e.chans, k as int);
    let x = grammar::extended(before_block(e, k), b);
    let y = before_block(e, k + 1);
    encode::lemma_block_len(e, k as int);
    assert forall|c: int| 0 <= c < e.chans.len() implies x[c] == y[c] by {
        encode::lemma_block_channel(e, k as int, c);
        assert(e.chans[c].len() == e.len());
        assert(x[c] =~= y[c]);
    }
    assert(x =~= y);
}

/// The marker and the metadata of an encoded stream read back.
proof fn lemma_open_round_trip(e: EncoderModel, all: Seq<Seq<AnalysisModel>>)
    requires
        e.wf(),
        in_range(e),
        encode::block_count(e.len()) <= 0x8000_0000,
    ensures
        grammar::open_stream(encode::stream(e, all)) == Ok::<(InfoModel, int), DecodeError>(
            (info_at(e, all), 42),
        ),
        encode::stream(e, all).len() >= 42,
        encode::stream(e, all).skip(42) == encode::frames(
            e,
            all,
            encode::block_count(e.len()),
        ),
{
    broadcast use bits::group_bits_len;

    let k = encode::block_count(e.len());
    let w = encode::info_bits(e, encode::shortest(e, all, k), encode::longest(e, all, k));
    let block = bits::pack(w);
    let data = encode::stream(e, all);
    lemma_signature_len(e);
    assert(w.len() == 272);
    bits::lemma_byte_bits_pack(w);
    lemma_info_round_trip(e, all, block);
    assert(data.subrange(0, 4) =~= grammar::marker());
    assert(data[4] == 0x80 && data[5] == 0 && data[6] == 0 && data[7] == 34);
    assert(data.subrange(8, 42) =~= block);
    assert(data.skip(42) =~= encode::frames(e, all, k));
}

/// Lossless is the invariant: a stream decodes to exactly the samples that
/// went into it, with their parameters and their signature — for every
/// configuration, every analysis and every sequence of samples that fit the
/// bit depth, up to 2^43 of them per channel.
pub proof fn lemma_lossless(e: EncoderModel, all: Seq<Seq<AnalysisModel>>)
    requires
        e.wf(),
        in_range(e),
        e.len() <= 0x800_0000_0000,
    ensures
        grammar::decode_stream(encode::stream(e, all)) == Ok::<
            (InfoModel, Seq<Seq<i32>>),
            DecodeError,
        >((info_at(e, all), e.chans)),
{
    let data = encode::stream(e, all);
    let info = info_at(e, all);
    lemma_open_round_trip(e, all);
    lemma_frames_decode(data, e, all, info, 0);
    assert(encode::frames(e, all, 0) =~= Seq::<u8>::empty());
    assert forall|c: int| 0 <= c < e.chans.len() implies before_block(e, 0)[c]
        == grammar::no_samples(e.chans.len())[c] by {
        assert(e.chans[c].take(0) =~= Seq::<i32>::empty());
    }
    assert(before_block(e, 0) =~= grammar::no_samples(e.chans.len()));
}

/// STREAMINFO tells the truth: the rate, the channels, the depth, the length
/// and the signature are those of the audio, and the frame sizes are those of
/// the shortest and of the longest frame.
pub proof fn lemma_stream_info(e: EncoderModel, all: Seq<Seq<AnalysisModel>>)
    requires
        e.wf(),
        in_range(e),
        e.len() <= 0x800_0000_0000,
    ensures
        grammar::decode_stream(encode::stream(e, all)) is Ok,
        ({
            let (info, channels) = grammar::decode_stream(encode::stream(e, all))->Ok_0;
            let count = (e.len() + 4095) / 4096;
            &&& channels == e.chans
            &&& info.sample_rate == e.sample_rate
            &&& info.channels == e.chans.len()
            &&& info.bits_per_sample == e.bps
            &&& e.len() < 0x10_0000_0000 ==> info.total_samples == e.len()
            &&& info.min_block_size == 4096
            &&& info.max_block_size == 4096
            &&& info.md5 == crate::md5::md5_of(pcm::pcm_bytes(e.chans, e.bps / 8, e.len()))
            &&& e.len() == 0 ==> info.min_frame_size == 0 && info.max_frame_size == 0
            &&& forall|j: int|
                0 <= j < count ==> info.min_frame_size <= (#[trigger] encode::frame_at(
                    e,
                    all,
                    j as nat,
                )).len() <= info.max_frame_size
            &&& e.len() > 0 ==> exists|j: int|
                0 <= j < count && (#[trigger] encode::frame_at(e, all, j as nat)).len()
                    == info.min_frame_size
            &&& e.len() > 0 ==> exists|j: int|
                0 <= j < count && (#[trigger] encode::frame_at(e, all, j as nat)).len()
                    == info.max_frame_size
        }),
{
    lemma_lossless(e, all);
    if e.len() > 0 {
        encode::lemma_extremes(e, all, encode::block_count(e.len()));
    }
}

/// Frame `k` stands in the stream behind the frames before it, and the frames
/// fill the stream behind its metadata.
pub proof fn lemma_frame_in_stream(e: EncoderModel, all: Seq<Seq<AnalysisModel>>, k: nat)
    requires
        e.wf(),
        in_range(e),
        e.len() <= 0x800_0000_0000,
        k < (e.len() + 4095) / 4096,
    ensures
        ({
            let data = encode::stream(e, all);
            let at = 42 + encode::frames(e, all, k).len() as int;
            let next = 42 + encode::frames(e, all, k + 1).len() as int;
            &&& data.subrange(at, next) == encode::frame_at(e, all, k)
            &&& at < next <= data.len()
            &&& 4096 * (k + 1) >= e.len() ==> next == data.len()
        }),
{
    let data = encode::stream(e, all);
    let count = encode::block_count(e.len());
    let whole = encode::frames(e, all, count);
    let x = encode::frames(e, all, k);
    let y = encode::frames(e, all, k + 1);
    lemma_open_round_trip(e, all);
    lemma_frames_prefix(e, all, k + 1, count);
    lemma_frame_head(e, all, k);
    assert(data.skip(42) == whole);
    lemma_last_piece(data, whole, x, encode::frame_at(e, all, k));
}

/// A piece of what follows the metadata is a piece of the stream.
proof fn lemma_last_piece(data: Seq<u8>, whole: Seq<u8>, x: Seq<u8>, f: Seq<u8>)
    requires
        data.len() >= 42,
        data.skip(42) == whole,
        (x + f).len() <= whole.len(),
        whole.take((x + f).len() as int) == x + f,
    ensures
        data.subrange(42 + x.len() as int, 42 + (x + f).len() as int) == f,
        42 + (x + f).len() <= data.len(),
        whole.len() == data.len() - 42,
{
    let y = x + f;
    assert(data.subrange(42 + x.len() as int, 42 + y.len() as int) =~= whole.take(
        y.len() as int,
    ).skip(x.len() as int));
    assert(y.skip(x.len() as int) =~= f);
}

/// A frame starts with its header.
proof fn lemma_frame_starts(f: Seq<u8>, number: u64, bs: nat, bps: nat, l: LayoutModel)
    requires
        bits::byte_bits(f) == frame::frame_bits(number, bs, bps, l),
    ensures
        bits::stands_at(
            bits::byte_bits(f),
            0,
            frame::header_bits(number, bs, l.assignment, bps),
        ),
{
    let b = bits::byte_bits(f);
    let head = frame::header_bits(number, bs, l.assignment, bps);
    let body = frame::body_bits(number, bs, bps, l);
    let subs = frame::subs_bits(l.subs, l.subs.len());
    assert(bits::stands_at(b, 0, b)) by {
        assert(b.subrange(0, b.len() as int) =~= b);
    }
    bits::lemma_stands_split(
        b,
        0,
        body,
        bits::field(crc::crc16_of(bits::pack(body)) as int, 16),
    );
    bits::lemma_stands_split(b, 0, head + subs, bits::zeros(bits::padding((head + subs).len())));
    bits::lemma_stands_split(b, 0, head, subs);
}

/// The bytes of a frame header.
proof fn lemma_head_bytes(f: Seq<u8>, number: u64, bs: nat, assignment: nat, bps: nat)
    requires
        number < 0x8000_0000,
        1 <= bs <= 65536,
        assignment < 16,
        bits::stands_at(
            bits::byte_bits(f),
            0,
            frame::header_bits(number, bs, assignment, bps),
        ),
    ensures
        f.len() >= 8,
        f[0] == 0xFF,
        f[1] == 0xF8,
        f[2] == 0x70,
        f[3] == 16 * assignment + 2 * frame::size_code(bps),
        exists|n: int| #[trigger]
            interop::number_stands(f, 4, n) && interop::number_value(f, 4, n as nat) == number
                && 7 + n < f.len() && 256 * f[5 + n] + f[6 + n] + 1 == bs,
{
    let b = bits::byte_bits(f);
    let plain = frame::plain_header_bits(number, bs, assignment, bps);
    let lead = frame::lead_bits(assignment, bps);
    let num = number::number_bits(number);
    let size = bits::field(bs - 1, 16);
    lemma2_to64();
    bits::lemma_byte_bits_len(f);
    bits::lemma_field_len(bs - 1, 16);
    bits::lemma_field_len(crc::crc8_of(bits::pack(plain)) as int, 8);
    frame::lemma_lead_len(assignment, bps);
    number::lemma_number_len(number);
    bits::lemma_stands_split(b, 0, plain, bits::field(crc::crc8_of(bits::pack(plain)) as int, 8));
    bits::lemma_stands_split(b, 0, lead + num, size);
    bits::lemma_stands_split(b, 0, lead, num);
    lemma_lead_round_trip(b, assignment, bps);
    number::lemma_number_round_trip(b, 32, number);
    interop::lemma_lead_bytes(f);
    interop::lemma_number_sound(f, 4);
    let n = num.len() as int / 8 - 1;
    roundtrip::lemma_uint_round_trip(b, 32 + num.len() as int, bs - 1, 16);
    interop::lemma_two_bytes(f, 5 + n);
    assert(interop::number_stands(f, 4, n));
}

/// The header that frame `k` starts with: its block size and its assignment.
proof fn lemma_head_stands(e: EncoderModel, all: Seq<Seq<AnalysisModel>>, k: nat) -> (r: (nat, nat))
    requires
        e.wf(),
        in_range(e),
        e.len() <= 0x800_0000_0000,
        k < (e.len() + 4095) / 4096,
    ensures
        r.0 == (if 4096 * (k + 1) <= e.len() {
            4096
        } else {
            e.len() - 4096 * k
        }),
        1 <= r.0 <= 4096,
        if e.chans.len() == 2 {
            r.1 == 1 || r.1 == 8 || r.1 == 9 || r.1 == 10
        } else {
            r.1 == e.chans.len() - 1
        },
        bits::stands_at(
            bits::byte_bits(encode::frame_at(e, all, k)),
            0,
            frame::header_bits(k as u64, r.0, r.1, e.bps),
        ),
{
    let blocks = encode::block_at(e.chans, k as int);
    let l = layout_at(e, all, k);
    let bs = blocks[0].len();
    lemma_frame_at(e, all, k);
    encode::lemma_block_len(e, k as int);
    encode::lemma_block_channel(e, k as int, 0);
    lemma_frame_starts(encode::frame_at(e, all, k), k as u64, bs, e.bps, l);
    layout::lemma_layout_assignment(blocks, e.bps, encode::list_at(all, k as int), e.max_lpc_order);
    (bs, l.assignment)
}

/// Every frame says what it is in its first bytes: the sync code of a stream of
/// fixed block size, its own number, its own block size and the depth of the
/// stream.
pub proof fn lemma_frame_head(e: EncoderModel, all: Seq<Seq<AnalysisModel>>, k: nat)
    requires
        e.wf(),
        in_range(e),
        e.len() <= 0x800_0000_0000,
        k < (e.len() + 4095) / 4096,
    ensures
        ({
            let f = encode::frame_at(e, all, k);
            let size = if 4096 * (k + 1) <= e.len() {
                4096
            } else {
                e.len() - 4096 * k
            };
            &&& f.len() >= 8
            &&& f[0] == 0xFF
            &&& f[1] == 0xF8
            &&& f[2] == 0x70
            &&& f[3] as int % 2 == 0
            &&& e.bps == 8 ==> f[3] as int / 2 % 8 == 1
            &&& e.bps == 16 ==> f[3] as int / 2 % 8 == 4
            &&& e.bps == 24 ==> f[3] as int / 2 % 8 == 6
            &&& e.chans.len() != 2 ==> f[3] as int / 16 == e.chans.len() - 1
            &&& e.chans.len() == 2 ==> f[3] as int / 16 == 1 || 8 <= f[3] as int / 16 <= 10
            &&& exists|n: int| #[trigger]
                interop::number_stands(f, 4, n) && interop::number_value(f, 4, n as nat) == k
                    && 7 + n < f.len() && 256 * f[5 + n] + f[6 + n] + 1 == size
        }),
{
    let f = encode::frame_at(e, all, k);
    let (bs, assignment) = lemma_head_stands(e, all, k);
    lemma_head_bytes(f, k as u64, bs, assignment, e.bps);
}

// ---------------------------------------------------------------------------
// Inputs
// ---------------------------------------------------------------------------
/// Samples that fit keep an encoder in range.
pub proof fn lemma_push_in_range(e: EncoderModel, more: Seq<Seq<i32>>)
    requires
        in_range(e),
        more.len() == e.chans.len(),
        forall|c: int| 0 <= c < more.len() ==> roundtrip::fits(#[trigger] more[c], e.bps),
    ensures
        in_range(e.with(more)),
{
    let w = e.with(more);
    assert forall|c: int| 0 <= c < w.chans.len() implies roundtrip::fits(
        #[trigger] w.chans[c],
        w.bps,
    ) by {
        let x = e.chans[c];
        let y = more[c];
        assert(roundtrip::fits(x, e.bps) && roundtrip::fits(y, e.bps));
        assert(w.chans[c] == x + y);
        assert forall|i: int| 0 <= i < (x + y).len() implies -pow2((e.bps - 1) as nat)
            <= #[trigger] (x + y)[i] < pow2((e.bps - 1) as nat) by {
            if i < x.len() {
                assert((x + y)[i] == x[i]);
            } else {
                assert((x + y)[i] == y[i - x.len()]);
            }
        }
    }
}

/// Interleaved samples that fit keep an encoder in range.
pub proof fn lemma_interleaved_in_range(e: EncoderModel, v: Seq<i32>)
    requires
        in_range(e),
        e.chans.len() >= 1,
        roundtrip::fits(v, e.bps),
    ensures
        in_range(e.with(pcm::split(v, e.chans.len()))),
{
    let ch = e.chans.len();
    let more = pcm::split(v, ch);
    assert forall|c: int| 0 <= c < more.len() implies roundtrip::fits(
        #[trigger] more[c],
        e.bps,
    ) by {
        let x = pcm::channel_of(v, ch, c);
        assert forall|i: int| 0 <= i < x.len() implies -pow2((e.bps - 1) as nat)
            <= #[trigger] x[i] < pow2((e.bps - 1) as nat) by {
            let n = v.len();
            assert(0 <= i * ch + c < n) by (nonlinear_arith)
                requires
                    0 <= i < n / ch,
                    0 <= c < ch,
            ;
            assert(x[i] == v[i * ch + c]);
        }
    }
    lemma_push_in_range(e, more);
}

/// 16-bit PCM is in range at 16 bits and above.
pub proof fn lemma_s16_in_range(e: EncoderModel, bytes: Seq<u8>)
    requires
        in_range(e),
        e.chans.len() >= 1,
        e.bps >= 16,
    ensures
        in_range(e.with(pcm::split(pcm::s16_samples(bytes), e.chans.len()))),
{
    let v = pcm::s16_samples(bytes);
    lemma2_to64();
    arith::lemma_pow2_monotone(15, (e.bps - 1) as nat);
    assert forall|i: int| 0 <= i < v.len() implies -pow2((e.bps - 1) as nat) <= #[trigger] v[i]
        < pow2((e.bps - 1) as nat) by {
        assert(v[i] == pcm::s16_of(bytes[2 * i], bytes[2 * i + 1]));
    }
    lemma_interleaved_in_range(e, v);
}

/// Single precision PCM is in range at every bit depth, whatever its bytes
/// are: it is quantized and clamped.
pub proof fn lemma_f32_in_range(e: EncoderModel, bytes: Seq<u8>)
    requires
        in_range(e),
        e.chans.len() >= 1,
        1 <= e.bps <= 32,
    ensures
        in_range(e.with(pcm::split(pcm::f32_samples(bytes, e.bps), e.chans.len()))),
{
    let v = pcm::f32_samples(bytes, e.bps);
    lemma2_to64();
    arith::lemma_pow2_monotone((e.bps - 1) as nat, 31);
    assert forall|i: int| 0 <= i < v.len() implies -pow2((e.bps - 1) as nat) <= #[trigger] v[i]
        < pow2((e.bps - 1) as nat) by {
        pcm::lemma_quantized_in_range(pcm::word_at(bytes, 4 * i), e.bps);
    }
    lemma_interleaved_in_range(e, v);
}

} // verus!
