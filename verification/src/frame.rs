//! The bytes of a frame: header, subframes, and the two checksums.
use crate::bitio::BitWriter;
use crate::bits;
use crate::choice::{AnalysisModel, ArmAnalysis};
use crate::crc;
use crate::layout;
use crate::layout::{CodedModel, Layout, LayoutModel};
use crate::number;
use crate::stats;
use crate::stats::{EncodeStats, Event};
use crate::subframe;
use vstd::prelude::*;

verus! {

/// The frame header's code for a sample size.
pub open spec fn size_code(bps: nat) -> nat {
    if bps == 8 {
        1
    } else if bps == 12 {
        2
    } else if bps == 16 {
        4
    } else if bps == 20 {
        5
    } else if bps == 24 {
        6
    } else {
        0
    }
}

/// The first four bytes of a frame header: fixed block size, the block size
/// behind the frame number, the sample rate in STREAMINFO.
pub open spec fn lead_bits(assignment: nat, bps: nat) -> Seq<bool> {
    bits::field(0x3FFE, 14) + bits::field(0, 1) + bits::field(0, 1) + bits::field(7, 4)
        + bits::field(0, 4) + bits::field(assignment as int, 4) + bits::field(
        size_code(bps) as int,
        3,
    ) + bits::field(0, 1)
}

/// A frame header without its checksum.
pub open spec fn plain_header_bits(frame: u64, bs: nat, assignment: nat, bps: nat) -> Seq<bool> {
    lead_bits(assignment, bps) + number::number_bits(frame) + bits::field(bs - 1, 16)
}

/// A frame header with its checksum.
pub open spec fn header_bits(frame: u64, bs: nat, assignment: nat, bps: nat) -> Seq<bool> {
    let h = plain_header_bits(frame, bs, assignment, bps);
    h + bits::field(crc::crc8_of(bits::pack(h)) as int, 8)
}

/// The first `n` subframes.
pub open spec fn subs_bits(subs: Seq<CodedModel>, n: nat) -> Seq<bool>
    decreases n,
{
    if n == 0 {
        Seq::empty()
    } else {
        subs_bits(subs, (n - 1) as nat) + subframe::subframe_bits(
            subs[n - 1].arm,
            subs[n - 1].kind,
        )
    }
}

/// Bits filled up with zeros to a whole number of bytes.
pub open spec fn padded(b: Seq<bool>) -> Seq<bool> {
    b + bits::zeros(bits::padding(b.len()))
}

/// A frame without its checksum.
pub open spec fn body_bits(frame: u64, bs: nat, bps: nat, layout: LayoutModel) -> Seq<bool> {
    padded(
        header_bits(frame, bs, layout.assignment, bps) + subs_bits(
            layout.subs,
            layout.subs.len(),
        ),
    )
}

/// A frame.
pub open spec fn frame_bits(frame: u64, bs: nat, bps: nat, layout: LayoutModel) -> Seq<bool> {
    let b = body_bits(frame, bs, bps, layout);
    b + bits::field(crc::crc16_of(bits::pack(b)) as int, 16)
}

/// What writing the first `n` subframes counts.
pub open spec fn subs_events(subs: Seq<CodedModel>, n: nat) -> Seq<Event>
    decreases n,
{
    if n == 0 {
        Seq::empty()
    } else {
        subs_events(subs, (n - 1) as nat) + subframe::write_events(
            subs[n - 1].arm,
            subs[n - 1].kind,
        )
    }
}

/// The bytes of the frame of a block.
pub open spec fn frame_of(
    frame: u64,
    blocks: Seq<Seq<i32>>,
    bps: nat,
    list: Seq<AnalysisModel>,
    max_lpc_order: nat,
) -> Seq<u8> {
    bits::pack(
        frame_bits(
            frame,
            blocks[0].len(),
            bps,
            layout::layout_of(blocks, bps, list, max_lpc_order),
        ),
    )
}

/// What coding a block counts.
pub open spec fn frame_events(
    blocks: Seq<Seq<i32>>,
    bps: nat,
    list: Seq<AnalysisModel>,
    max_lpc_order: nat,
) -> Seq<Event> {
    let l = layout::layout_of(blocks, bps, list, max_lpc_order);
    layout::layout_events(blocks, bps, list, max_lpc_order) + subs_events(l.subs, l.subs.len())
        + seq![Event::Frame]
}

pub proof fn lemma_lead_len(assignment: nat, bps: nat)
    ensures
        lead_bits(assignment, bps).len() == 32,
{
    broadcast use bits::group_bits_len;

}

pub proof fn lemma_header_len(frame: u64, bs: nat, assignment: nat, bps: nat)
    ensures
        plain_header_bits(frame, bs, assignment, bps).len() % 8 == 0,
        header_bits(frame, bs, assignment, bps).len() == plain_header_bits(
            frame,
            bs,
            assignment,
            bps,
        ).len() + 8,
{
    broadcast use bits::group_bits_len;

    number::lemma_number_len(frame);
    lemma_lead_len(assignment, bps);
}

proof fn lemma_padded_len(b: Seq<bool>)
    ensures
        padded(b).len() % 8 == 0,
{
}

pub proof fn lemma_frame_bits_len(frame: u64, bs: nat, bps: nat, l: LayoutModel)
    ensures
        body_bits(frame, bs, bps, l).len() % 8 == 0,
        frame_bits(frame, bs, bps, l).len() == body_bits(frame, bs, bps, l).len() + 16,
        frame_bits(frame, bs, bps, l).len() % 8 == 0,
{
    let b = body_bits(frame, bs, bps, l);
    lemma_padded_len(
        header_bits(frame, bs, l.assignment, bps) + subs_bits(l.subs, l.subs.len()),
    );
    bits::lemma_field_len(crc::crc16_of(bits::pack(b)) as int, 16);
}

/// Writing a subframe counts at most four events.
proof fn lemma_write_len(sub: CodedModel)
    ensures
        subframe::write_events(sub.arm, sub.kind).len() <= 4,
{
    let w = subframe::wasted_events(sub.arm.wasted);
    assert(w.len() <= 1);
    assert(subframe::kind_events(sub.arm, sub.kind).len() <= 3);
}

proof fn lemma_write_events_len(subs: Seq<CodedModel>, n: nat)
    ensures
        subs_events(subs, n).len() <= 4 * n,
    decreases n,
{
    if n > 0 {
        lemma_write_events_len(subs, (n - 1) as nat);
        lemma_write_len(subs[n - 1]);
    }
}

/// Coding a block of up to eight channels counts at most 73 events.
pub proof fn lemma_frame_events_len(
    blocks: Seq<Seq<i32>>,
    bps: nat,
    list: Seq<AnalysisModel>,
    max_lpc_order: nat,
)
    requires
        blocks.len() <= 8,
    ensures
        frame_events(blocks, bps, list, max_lpc_order).len() <= 73,
{
    let l = layout::layout_of(blocks, bps, list, max_lpc_order);
    layout::lemma_layout_events_len(blocks, bps, list, max_lpc_order);
    lemma_write_events_len(l.subs, l.subs.len());
}

/// FLAC frame-header sample-size code for a bit depth.
fn sample_size_code(bps: u32) -> (r: u64)
    ensures
        r == size_code(bps as nat),
{
    if bps == 8 {
        1
    } else if bps == 12 {
        2
    } else if bps == 16 {
        4
    } else if bps == 20 {
        5
    } else if bps == 24 {
        6
    } else {
        0
    }
}

/// The checksum-8 of what was written so far.
fn check8(bw: &BitWriter) -> (r: u8)
    requires
        bw.wf(),
        bw@.len() % 8 == 0,
    ensures
        r == crc::crc8_of(bits::pack(bw@)),
{
    let data: &[u8] = bw.bytes();
    proof {
        bits::lemma_pack_byte_bits(data@);
    }
    crc::crc8(data)
}

/// The checksum-16 of what was written so far.
fn check16(bw: &BitWriter) -> (r: u16)
    requires
        bw.wf(),
        bw@.len() % 8 == 0,
    ensures
        r == crc::crc16_of(bits::pack(bw@)),
{
    let data: &[u8] = bw.bytes();
    proof {
        bits::lemma_pack_byte_bits(data@);
    }
    crc::crc16(data)
}

/// Write a frame header.
fn write_header(bw: &mut BitWriter, frame: u64, bs: usize, assignment: u64, bps: u32)
    requires
        old(bw).wf(),
        old(bw)@ == Seq::<bool>::empty(),
        1 <= bs <= 65536,
    ensures
        final(bw).wf(),
        final(bw)@ == header_bits(frame, bs as nat, assignment as nat, bps as nat),
{
    bw.write_bits(0x3FFE, 14);
    bw.write_bits(0, 1);
    // Fixed block size.
    bw.write_bits(0, 1);
    // The block size stands behind the frame number.
    bw.write_bits(7, 4);
    // The sample rate stands in STREAMINFO.
    bw.write_bits(0, 4);
    bw.write_bits(assignment, 4);
    bw.write_bits(sample_size_code(bps), 3);
    bw.write_bits(0, 1);
    assert(bw@ =~= lead_bits(assignment as nat, bps as nat));
    number::write_utf8(bw, frame);
    bw.write_bits(bs as u64 - 1, 16);
    let ghost h = plain_header_bits(frame, bs as nat, assignment as nat, bps as nat);
    assert(bw@ =~= h);
    proof {
        lemma_header_len(frame, bs as nat, assignment as nat, bps as nat);
    }
    let check: u8 = check8(bw);
    bw.write_bits(check as u64, 8);
    assert(bw@ =~= header_bits(frame, bs as nat, assignment as nat, bps as nat));
}

/// Write the subframes of a layout.
fn write_subframes(bw: &mut BitWriter, l: &Layout, counts: &mut EncodeStats)
    requires
        old(bw).wf(),
        l.wf(),
        l.subs@.len() <= 8,
        stats::room(old(counts)@, 32),
    ensures
        final(bw).wf(),
        final(bw)@ == old(bw)@ + subs_bits(l@.subs, l@.subs.len()),
        final(counts)@ == stats::tallied(
            old(counts)@,
            subs_events(l@.subs, l@.subs.len()),
        ),
{
    let ghost start = bw@;
    let ghost before = counts@;
    let ghost subs = l@.subs;
    let mut c: usize = 0;
    proof {
        stats::lemma_tallied_empty(before);
        assert(bw@ =~= start + subs_bits(subs, 0));
    }
    while c < l.subs.len()
        invariant
            c <= l.subs@.len() <= 8,
            subs == l@.subs,
            l.wf(),
            bw.wf(),
            bw@ == start + subs_bits(subs, c as nat),
            stats::room(before, 32),
            counts@ == stats::tallied(before, subs_events(subs, c as nat)),
        decreases l.subs@.len() - c,
    {
        let ghost now = bw@;
        proof {
            assert(l.subs@[c as int].wf());
            assert(subs[c as int] == l.subs@[c as int]@);
            lemma_write_events_len(subs, c as nat);
            stats::lemma_room(before, subs_events(subs, c as nat), 32);
            stats::lemma_tallied_concat(
                before,
                subs_events(subs, c as nat),
                subframe::write_events(subs[c as int].arm, subs[c as int].kind),
            );
        }
        subframe::write_subframe_from(bw, &l.subs[c].arm, &l.subs[c].choice, counts);
        assert(bw@ =~= start + subs_bits(subs, (c + 1) as nat));
        c = c + 1;
    }
}

/// Put the checksum of a frame behind it.
fn seal_frame(bw: BitWriter) -> (r: Vec<u8>)
    requires
        bw.wf(),
        bw@.len() % 8 == 0,
    ensures
        r@ == bits::pack(bw@ + bits::field(crc::crc16_of(bits::pack(bw@)) as int, 16)),
{
    let ghost b = bw@;
    let check: u16 = check16(&bw);
    let mut sealed: BitWriter = bw;
    sealed.write_bits(check as u64, 16);
    let ghost f = b + bits::field(check as int, 16);
    let r: Vec<u8> = sealed.into_bytes();
    proof {
        bits::lemma_field_len(check as int, 16);
        assert(f + bits::zeros(0) =~= f);
        bits::lemma_pack_byte_bits(r@);
    }
    r
}

/// Write a frame by its layout.
fn write_frame(frame: u64, bs: usize, bps: u32, l: &Layout, counts: &mut EncodeStats) -> (r: Vec<
    u8,
>)
    requires
        l.wf(),
        l.subs@.len() <= 8,
        1 <= bs <= 65536,
        stats::room(old(counts)@, 32),
    ensures
        r@ == bits::pack(frame_bits(frame, bs as nat, bps as nat, l@)),
        final(counts)@ == stats::tallied(
            old(counts)@,
            subs_events(l@.subs, l@.subs.len()),
        ),
{
    let mut bw: BitWriter = BitWriter::new();
    write_header(&mut bw, frame, bs, l.assignment, bps);
    write_subframes(&mut bw, l, counts);
    bw.align_to_byte();
    assert(bw@ =~= body_bits(frame, bs as nat, bps as nat, l@));
    proof {
        lemma_frame_bits_len(frame, bs as nat, bps as nat, l@);
    }
    seal_frame(bw)
}

/// Code one block of every channel as a frame.
pub(crate) fn encode_frame(
    frame: u64,
    blocks: &Vec<&[i32]>,
    bps: u32,
    list: &[ArmAnalysis],
    max_lpc_order: usize,
    Ghost(b): Ghost<Seq<Seq<i32>>>,
    counts: &mut EncodeStats,
) -> (r: Vec<u8>)
    requires
        layout::shows(blocks@, b),
        1 <= bps <= 31,
        max_lpc_order <= 12,
        stats::room(old(counts)@, 73),
    ensures
        r@ == frame_of(frame, b, bps as nat, layout::models(list@), max_lpc_order as nat),
        final(counts)@ == stats::tallied(
            old(counts)@,
            frame_events(b, bps as nat, layout::models(list@), max_lpc_order as nat),
        ),
{
    let ghost start = counts@;
    let ghost a = layout::models(list@);
    let ghost o = max_lpc_order as nat;
    assert(blocks@[0]@ == b[0]);
    let bs: usize = blocks[0].len();
    let l: Layout = layout::decide_layout(blocks, bps, list, max_lpc_order, Ghost(b), counts);
    let ghost h1 = layout::layout_events(b, bps as nat, a, o);
    let ghost h2 = subs_events(l@.subs, l@.subs.len());
    proof {
        layout::lemma_layout_events_len(b, bps as nat, a, o);
        lemma_write_events_len(l@.subs, l@.subs.len());
        stats::lemma_room(start, h1, 73);
        stats::lemma_tallied_concat(start, h1, h2);
        stats::lemma_room(start, h1 + h2, 73);
        stats::lemma_tallied_concat(start, h1 + h2, seq![Event::Frame]);
    }
    let r: Vec<u8> = write_frame(frame, bs, bps, &l, counts);
    counts.count(Event::Frame);
    r
}

} // verus!
