//! The stream format as a decoder sees it: what a byte sequence decodes to,
//! or which error it is refused with.
use crate::arith;
use crate::bits;
use crate::crc;
use crate::decode::DecodeError;
use crate::number;
use crate::predict::Predictor;
use crate::rice;
use crate::wide;
use vstd::arithmetic::power2::*;
use vstd::prelude::*;

verus! {

/// The contents of a STREAMINFO block.
#[verifier::ext_equal]
pub struct InfoModel {
    pub min_block_size: nat,
    pub max_block_size: nat,
    pub min_frame_size: nat,
    pub max_frame_size: nat,
    pub sample_rate: nat,
    pub channels: nat,
    pub bits_per_sample: nat,
    pub total_samples: nat,
    pub md5: Seq<u8>,
}

/// There are `n` bits at `p`.
pub open spec fn room(b: Seq<bool>, p: int, n: nat) -> bool {
    p + n <= b.len()
}

/// The number that the `n` bits at `p` spell.
pub open spec fn uint(b: Seq<bool>, p: int, n: nat) -> nat {
    bits::value(b.subrange(p, p + n))
}

// ---------------------------------------------------------------------------
// Metadata
// ---------------------------------------------------------------------------
/// The 34 bytes of a STREAMINFO block.
pub open spec fn info_of(block: Seq<u8>) -> InfoModel {
    let b = bits::byte_bits(block);
    InfoModel {
        min_block_size: uint(b, 0, 16),
        max_block_size: uint(b, 16, 16),
        min_frame_size: uint(b, 32, 24),
        max_frame_size: uint(b, 56, 24),
        sample_rate: uint(b, 80, 20),
        channels: uint(b, 100, 3) + 1,
        bits_per_sample: uint(b, 103, 5) + 1,
        total_samples: uint(b, 108, 36),
        md5: block.subrange(18, 34),
    }
}

/// The length field of the metadata block header at `pos`.
pub open spec fn block_len(data: Seq<u8>, pos: int) -> int {
    data[pos + 1] * 0x1_0000 + data[pos + 2] * 0x100 + data[pos + 3]
}

/// The metadata blocks from `pos` on: the last STREAMINFO among them (or
/// `info`, which came before), and the position behind the last block.
pub open spec fn read_blocks(data: Seq<u8>, pos: int, info: Option<InfoModel>) -> Result<
    (Option<InfoModel>, int),
    DecodeError,
>
    decreases data.len() - pos,
{
    if pos + 4 > data.len() {
        Err(DecodeError::Truncated)
    } else {
        let kind = data[pos] % 128;
        let len = block_len(data, pos);
        let body = pos + 4;
        let next = body + len;
        if next > data.len() {
            Err(DecodeError::Truncated)
        } else if kind == 0 && len < 34 {
            Err(DecodeError::NotFlac)
        } else {
            let seen = if kind == 0 {
                Some(info_of(data.subrange(body, body + 34)))
            } else {
                info
            };
            if data[pos] >= 128 {
                Ok((seen, next))
            } else {
                read_blocks(data, next, seen)
            }
        }
    }
}

/// The bytes `fLaC`.
pub open spec fn marker() -> Seq<u8> {
    seq![0x66u8, 0x4Cu8, 0x61u8, 0x43u8]
}

/// The marker and the metadata of a stream: its STREAMINFO and the position of
/// the first frame.
pub open spec fn open_stream(data: Seq<u8>) -> Result<(InfoModel, int), DecodeError> {
    if data.len() < 42 || data.subrange(0, 4) != marker() {
        Err(DecodeError::NotFlac)
    } else {
        match read_blocks(data, 4, None) {
            Err(e) => Err(e),
            Ok((None, _)) => Err(DecodeError::NotFlac),
            Ok((Some(info), pos)) => if info.channels == 0 || info.channels > 8 {
                Err(DecodeError::Inconsistent("channels"))
            } else {
                Ok((info, pos))
            },
        }
    }
}

// ---------------------------------------------------------------------------
// Frame header
// ---------------------------------------------------------------------------
/// What the frame header says of its frame.
pub struct HeaderModel {
    /// Samples per channel.
    pub block_size: nat,
    /// Bits per sample.
    pub depth: nat,
    /// The channel assignment code.
    pub assignment: nat,
    /// The bit position behind the header.
    pub end: int,
}

/// The bits that a block-size code adds to the header.
pub open spec fn block_size_extra(code: nat) -> nat {
    if code == 6 {
        8
    } else if code == 7 {
        16
    } else {
        0
    }
}

/// The block size that a code stands for, given the bits it added.
pub open spec fn block_size_of(code: nat, extra: nat) -> nat {
    if code == 1 {
        192
    } else if code <= 5 {
        576 * pow2((code - 2) as nat)
    } else if code <= 7 {
        extra + 1
    } else {
        256 * pow2((code - 8) as nat)
    }
}

/// The bits that a sample-rate code adds to the header.
pub open spec fn sample_rate_extra(code: nat) -> nat {
    if code == 12 {
        8
    } else if code == 13 || code == 14 {
        16
    } else {
        0
    }
}

/// The sample rate that a code stands for, with the bits it added to the header
/// at `p1`; none where the code leaves it to STREAMINFO.
pub open spec fn header_rate(b: Seq<bool>, code: nat, p1: int) -> Option<nat> {
    if code == 1 {
        Some(88200)
    } else if code == 2 {
        Some(176400)
    } else if code == 3 {
        Some(192000)
    } else if code == 4 {
        Some(8000)
    } else if code == 5 {
        Some(16000)
    } else if code == 6 {
        Some(22050)
    } else if code == 7 {
        Some(24000)
    } else if code == 8 {
        Some(32000)
    } else if code == 9 {
        Some(44100)
    } else if code == 10 {
        Some(48000)
    } else if code == 11 {
        Some(96000)
    } else if code == 12 {
        Some(1000 * uint(b, p1, 8))
    } else if code == 13 {
        Some(uint(b, p1, 16))
    } else if code == 14 {
        Some(10 * uint(b, p1, 16))
    } else {
        None
    }
}

/// The sample size that a code stands for; 0 is STREAMINFO's own.
pub open spec fn depth_of(code: nat, stream: nat) -> Option<nat> {
    if code == 0 {
        Some(stream)
    } else if code == 1 {
        Some(8)
    } else if code == 2 {
        Some(12)
    } else if code == 4 {
        Some(16)
    } else if code == 5 {
        Some(20)
    } else if code == 6 {
        Some(24)
    } else if code == 7 {
        Some(32)
    } else {
        None
    }
}

/// The channels of an assignment code.
pub open spec fn channels_of(assignment: nat) -> nat {
    if assignment <= 7 {
        assignment + 1
    } else {
        2
    }
}

/// The header of the frame that `rest` starts with.
#[verifier::opaque]
pub open spec fn read_header(rest: Seq<u8>, info: InfoModel) -> Result<HeaderModel, DecodeError> {
    let b = bits::byte_bits(rest);
    if !room(b, 0, 14) {
        Err(DecodeError::Truncated)
    } else if uint(b, 0, 14) != 0x3FFE {
        Err(DecodeError::BadFrameHeader("sync"))
    } else if !room(b, 14, 1) {
        Err(DecodeError::Truncated)
    } else if uint(b, 14, 1) != 0 {
        Err(DecodeError::BadFrameHeader("reserved"))
    } else if !room(b, 15, 17) {
        Err(DecodeError::Truncated)
    } else if uint(b, 31, 1) != 0 {
        Err(DecodeError::BadFrameHeader("reserved2"))
    } else {
        match number::read_number(b, 32) {
            None => Err(DecodeError::BadFrameHeader("frame number")),
            Some((_, p)) => read_header_codes(rest, info, p),
        }
    }
}

/// The rest of the header, from the position `p` behind the frame number on.
pub open spec fn read_header_codes(rest: Seq<u8>, info: InfoModel, p: int) -> Result<
    HeaderModel,
    DecodeError,
> {
    let b = bits::byte_bits(rest);
    let bs_code = uint(b, 16, 4);
    let sr_code = uint(b, 20, 4);
    let assignment = uint(b, 24, 4);
    let ss_code = uint(b, 28, 3);
    let p1 = p + block_size_extra(bs_code);
    let p2 = p1 + sample_rate_extra(sr_code);
    if bs_code == 0 {
        Err(DecodeError::BadFrameHeader("blocksize code 0"))
    } else if !room(b, p, block_size_extra(bs_code)) {
        Err(DecodeError::Truncated)
    } else if sr_code == 15 {
        Err(DecodeError::BadFrameHeader("sample-rate code 15"))
    } else if !room(b, p1, sample_rate_extra(sr_code)) {
        Err(DecodeError::Truncated)
    } else {
        match depth_of(ss_code, info.bits_per_sample) {
            None => Err(DecodeError::BadFrameHeader("sample-size code")),
            Some(depth) => if !room(b, p2, 8) {
                Err(DecodeError::Truncated)
            } else if crc::crc8_of(rest.take(p2 / 8)) != uint(b, p2, 8) {
                Err(DecodeError::BadFrameHeader("crc8"))
            } else if assignment > 10 {
                Err(DecodeError::BadFrameHeader("channel assignment"))
            } else if channels_of(assignment) != info.channels {
                Err(DecodeError::Inconsistent("frame channels"))
            } else if header_rate(b, sr_code, p1) matches Some(r) && r != info.sample_rate {
                Err(DecodeError::Inconsistent("frame sample rate"))
            } else {
                Ok(
                    HeaderModel {
                        block_size: block_size_of(
                            bs_code,
                            uint(b, p, block_size_extra(bs_code)),
                        ),
                        depth,
                        assignment,
                        end: p2 + 8,
                    },
                )
            },
        }
    }
}

// ---------------------------------------------------------------------------
// Residuals
// ---------------------------------------------------------------------------
/// `n` two's complement numbers of `w` bits read at `p`.
pub open spec fn read_ints(b: Seq<bool>, p: int, w: nat, n: nat) -> Option<(Seq<i32>, int)>
    decreases n,
{
    if n == 0 {
        Some((Seq::empty(), p))
    } else {
        match read_ints(b, p, w, (n - 1) as nat) {
            None => None,
            Some((s, q)) => match bits::read_int(b, q, w) {
                None => None,
                Some((v, r)) => Some((s.push(v as i32), r)),
            },
        }
    }
}

/// `n` Rice codes with parameter `k` read at `p`, unfolded.
pub open spec fn read_codes(b: Seq<bool>, p: int, k: nat, n: nat) -> Option<(Seq<i32>, int)>
    decreases n,
{
    if n == 0 {
        Some((Seq::empty(), p))
    } else {
        match read_codes(b, p, k, (n - 1) as nat) {
            None => None,
            Some((s, q)) => match bits::read_rice(b, q, k) {
                None => None,
                Some((u, r)) => Some((s.push(rice::unfold(u as int) as i32), r)),
            },
        }
    }
}

/// A block of `n` zeros.
pub open spec fn silence(n: nat) -> Seq<i32> {
    Seq::new(n, |i: int| 0i32)
}

/// The escape code of a coding method: all ones.
pub open spec fn escape_of(method: nat) -> nat {
    if method == 0 {
        15
    } else {
        31
    }
}

/// One partition of `n` residuals read at `p`: Rice codes, or raw numbers (or
/// zeros) behind the escape code.
pub open spec fn read_partition(b: Seq<bool>, p: int, method: nat, n: nat) -> Option<
    (Seq<i32>, int),
> {
    match bits::read_uint(b, p, 4 + method) {
        None => None,
        Some((param, q)) => if param == escape_of(method) {
            match bits::read_uint(b, q, 5) {
                None => None,
                Some((raw, r)) => if raw > 0 {
                    read_ints(b, r, raw, n)
                } else {
                    Some((silence(n), r))
                },
            }
        } else {
            read_codes(b, q, param, n)
        },
    }
}

/// The first `n` partitions of a residual body, the first one short by `order`.
pub open spec fn read_partitions(
    b: Seq<bool>,
    p: int,
    method: nat,
    size: nat,
    order: nat,
    n: nat,
) -> Option<(Seq<i32>, int)>
    decreases n,
{
    if n == 0 {
        Some((Seq::empty(), p))
    } else {
        match read_partitions(b, p, method, size, order, (n - 1) as nat) {
            None => None,
            Some((s, q)) => match read_partition(
                b,
                q,
                method,
                (if n == 1 {
                    size - order
                } else {
                    size as int
                }) as nat,
            ) {
                None => None,
                Some((t, r)) => Some((s + t, r)),
            },
        }
    }
}

/// A coded residual of a `bs`-sample block with `order` warm-up samples.
pub open spec fn read_residual(b: Seq<bool>, p: int, bs: nat, order: nat) -> Result<
    (Seq<i32>, int),
    DecodeError,
> {
    if !room(b, p, 2) {
        Err(DecodeError::Truncated)
    } else if uint(b, p, 2) > 1 {
        Err(DecodeError::BadSubframe("residual method"))
    } else if !room(b, p + 2, 4) {
        Err(DecodeError::Truncated)
    } else {
        let po = uint(b, p + 2, 4);
        if bs % pow2(po) != 0 || bs / pow2(po) < order {
            Err(DecodeError::BadSubframe("partition geometry"))
        } else {
            match read_partitions(b, p + 6, uint(b, p, 2), bs / pow2(po), order, pow2(po)) {
                None => Err(DecodeError::Truncated),
                Some(r) => Ok(r),
            }
        }
    }
}

// ---------------------------------------------------------------------------
// Subframes
// ---------------------------------------------------------------------------
/// `n` samples of `w` bits each.
pub open spec fn read_samples(b: Seq<bool>, p: int, w: nat, n: nat) -> Result<
    (Seq<i32>, int),
    DecodeError,
> {
    match read_ints(b, p, w, n) {
        None => Err(DecodeError::Truncated),
        Some(r) => Ok(r),
    }
}

/// A block of one repeated sample.
pub open spec fn read_constant(b: Seq<bool>, p: int, w: nat, bs: nat) -> Result<
    (Seq<i32>, int),
    DecodeError,
> {
    match read_samples(b, p, w, 1) {
        Err(e) => Err(e),
        Ok((s, q)) => Ok((Seq::new(bs, |i: int| s[0]), q)),
    }
}

/// A block behind the fixed polynomial of `order`.
pub open spec fn read_fixed(b: Seq<bool>, p: int, w: nat, bs: nat, order: nat) -> Result<
    (Seq<i32>, int),
    DecodeError,
> {
    if order > bs {
        Err(DecodeError::BadSubframe("fixed order > blocksize"))
    } else {
        match read_samples(b, p, w, order) {
            Err(e) => Err(e),
            Ok((warm, q)) => match read_residual(b, q, bs, order) {
                Err(e) => Err(e),
                Ok((res, r)) => Ok(((Predictor::Fixed { order }).restore(warm + res, bs), r)),
            },
        }
    }
}

/// A block behind quantized linear prediction of `order`.
pub open spec fn read_lpc(b: Seq<bool>, p: int, w: nat, bs: nat, order: nat) -> Result<
    (Seq<i32>, int),
    DecodeError,
> {
    if order > bs {
        Err(DecodeError::BadSubframe("lpc order > blocksize"))
    } else {
        match read_samples(b, p, w, order) {
            Err(e) => Err(e),
            Ok((warm, q)) => read_lpc_coeffs(b, q, bs, order, warm),
        }
    }
}

/// The predictor and the residual of a linear prediction subframe, from the
/// position behind its warm-up samples on.
pub open spec fn read_lpc_coeffs(
    b: Seq<bool>,
    q: int,
    bs: nat,
    order: nat,
    warm: Seq<i32>,
) -> Result<(Seq<i32>, int), DecodeError> {
    match read_predictor(b, q, order) {
        Err(e) => Err(e),
        Ok((coeffs, shift, q2)) => match read_residual(b, q2, bs, order) {
            Err(e) => Err(e),
            Ok((res, r)) => Ok(
                ((Predictor::Lpc { coeffs, shift }).restore(warm + res, bs), r),
            ),
        },
    }
}

/// The coefficients and the shift of a linear predictor of `order`.
pub open spec fn read_predictor(b: Seq<bool>, q: int, order: nat) -> Result<
    (Seq<i32>, nat, int),
    DecodeError,
> {
    if !room(b, q, 4) {
        Err(DecodeError::Truncated)
    } else if uint(b, q, 4) == 15 {
        Err(DecodeError::BadSubframe("qlp precision 16"))
    } else {
        match bits::read_int(b, q + 4, 5) {
            None => Err(DecodeError::Truncated),
            Some((shift, q1)) => if shift < 0 {
                Err(DecodeError::BadSubframe("negative shift"))
            } else {
                match read_ints(b, q1, uint(b, q, 4) + 1, order) {
                    None => Err(DecodeError::Truncated),
                    Some((coeffs, q2)) => Ok((coeffs, shift as nat, q2)),
                }
            },
        }
    }
}

/// The subframe body behind type `ty`, at `w` bits per sample.
pub open spec fn read_body(b: Seq<bool>, p: int, ty: nat, w: nat, bs: nat) -> Result<
    (Seq<i32>, int),
    DecodeError,
> {
    if ty == 0 {
        read_constant(b, p, w, bs)
    } else if ty == 1 {
        read_samples(b, p, w, bs)
    } else if 8 <= ty <= 12 {
        read_fixed(b, p, w, bs, (ty - 8) as nat)
    } else if ty >= 32 {
        read_lpc(b, p, w, bs, (ty - 31) as nat)
    } else {
        Err(DecodeError::BadSubframe("reserved type"))
    }
}

/// The wasted-bits field read at `p`: a flag, and behind it a unary count.
pub open spec fn read_wasted(b: Seq<bool>, p: int) -> Option<(nat, int)> {
    if !room(b, p, 1) {
        None
    } else if uint(b, p, 1) == 0 {
        Some((0, p + 1))
    } else {
        match bits::read_zeros(b, p + 1) {
            None => None,
            Some((z, q)) => Some(((arith::low32(z as int) + 1) as nat, q)),
        }
    }
}

/// Samples with `n` zero bits put back below them.
pub open spec fn shifted_up(s: Seq<i32>, n: nat) -> Seq<i32> {
    Seq::new(s.len(), |i: int| arith::wrap32(s[i] * pow2(n)))
}

/// The head of a subframe of `depth`-bit samples: its type and its wasted bits.
pub open spec fn read_subframe_head(b: Seq<bool>, p: int, depth: nat) -> Result<
    (nat, nat, int),
    DecodeError,
> {
    if !room(b, p, 1) {
        Err(DecodeError::Truncated)
    } else if uint(b, p, 1) != 0 {
        Err(DecodeError::BadSubframe("padding bit"))
    } else if !room(b, p + 1, 6) {
        Err(DecodeError::Truncated)
    } else {
        match read_wasted(b, p + 7) {
            None => Err(DecodeError::Truncated),
            Some((wasted, q)) => if wasted >= depth {
                Err(DecodeError::BadSubframe("wasted bits >= bps"))
            } else {
                Ok((uint(b, p + 1, 6), wasted, q))
            },
        }
    }
}

/// A subframe of `bs` samples of `depth` bits read at `p`.
#[verifier::opaque]
pub open spec fn read_subframe(b: Seq<bool>, p: int, bs: nat, depth: nat) -> Result<
    (Seq<i32>, int),
    DecodeError,
> {
    match read_subframe_head(b, p, depth) {
        Err(e) => Err(e),
        Ok((ty, wasted, q)) => match read_body(b, q, ty, (depth - wasted) as nat, bs) {
            Err(e) => Err(e),
            Ok((s, r)) => Ok((shifted_up(s, wasted), r)),
        },
    }
}

// ---------------------------------------------------------------------------
// Frames
// ---------------------------------------------------------------------------
/// The bits per sample of channel `c` under an assignment: a side channel
/// takes one more.
pub open spec fn channel_depth(assignment: nat, depth: nat, c: int) -> nat {
    if (assignment == 8 || assignment == 10) && c == 1 || assignment == 9 && c == 0 {
        depth + 1
    } else {
        depth
    }
}

/// The first `n` subframes of a frame.
pub open spec fn read_subframes(b: Seq<bool>, h: HeaderModel, n: nat) -> Result<
    (Seq<Seq<i32>>, int),
    DecodeError,
>
    decreases n,
{
    if n == 0 {
        Ok((Seq::empty(), h.end))
    } else {
        match read_subframes(b, h, (n - 1) as nat) {
            Err(e) => Err(e),
            Ok((subs, q)) => match read_subframe(
                b,
                q,
                h.block_size,
                channel_depth(h.assignment, h.depth, n - 1),
            ) {
                Err(e) => Err(e),
                Ok((s, r)) => Ok((subs.push(s), r)),
            },
        }
    }
}

/// The left sample of a mid/side pair.
pub open spec fn mid_side_left(m: i32, s: i32) -> i32 {
    arith::wrap32((2 * m + s as int % 2 + s) / 2)
}

/// The right sample of a mid/side pair.
pub open spec fn mid_side_right(m: i32, s: i32) -> i32 {
    arith::wrap32((2 * m + s as int % 2 - s) / 2)
}

/// The channels behind the subframes of an assignment.
pub open spec fn undo_stereo(assignment: nat, subs: Seq<Seq<i32>>) -> Seq<Seq<i32>> {
    if assignment == 8 {
        seq![
            subs[0],
            Seq::new(subs[0].len(), |i: int| arith::wrap32(subs[0][i] - subs[1][i])),
        ]
    } else if assignment == 9 {
        seq![
            Seq::new(subs[0].len(), |i: int| arith::wrap32(subs[0][i] + subs[1][i])),
            subs[1],
        ]
    } else if assignment == 10 {
        seq![
            Seq::new(subs[0].len(), |i: int| mid_side_left(subs[0][i], subs[1][i])),
            Seq::new(subs[0].len(), |i: int| mid_side_right(subs[0][i], subs[1][i])),
        ]
    } else {
        subs
    }
}

/// A decoded frame.
#[verifier::ext_equal]
pub struct FrameModel {
    /// Samples per channel.
    pub block_size: nat,
    /// The samples of each channel.
    pub channels: Seq<Seq<i32>>,
    /// The bytes of the frame.
    pub len: int,
}

/// The channels behind the subframes of a frame, none where they hold a sample
/// that is not one of 32 bits.
pub open spec fn read_channels(b: Seq<bool>, h: HeaderModel, n: nat) -> Result<
    (Option<Seq<Seq<i32>>>, int),
    DecodeError,
> {
    if wide::is_wide(h) {
        match wide::read_pair(b, h) {
            Err(e) => Err(e),
            Ok((x, side, q)) => Ok((wide::undone(h.assignment, x, side), q)),
        }
    } else {
        match read_subframes(b, h, n) {
            Err(e) => Err(e),
            Ok((subs, q)) => Ok((Some(undo_stereo(h.assignment, subs)), q)),
        }
    }
}

/// The frame that `rest` starts with.
#[verifier::opaque]
pub open spec fn read_frame(rest: Seq<u8>, info: InfoModel) -> Result<FrameModel, DecodeError> {
    let b = bits::byte_bits(rest);
    match read_header(rest, info) {
        Err(e) => Err(e),
        Ok(h) => match read_channels(b, h, info.channels) {
            Err(e) => Err(e),
            Ok((channels, q)) => {
                let p = q + bits::padding(q as nat);
                if !room(b, p, 16) {
                    Err(DecodeError::Truncated)
                } else if crc::crc16_of(rest.take(p / 8)) != uint(b, p, 16) {
                    Err(DecodeError::BadFrameCrc)
                } else {
                    match channels {
                        None => Err(DecodeError::BadSubframe("sample out of range")),
                        Some(channels) => Ok(
                            FrameModel { block_size: h.block_size, channels, len: p / 8 + 2 },
                        ),
                    }
                }
            },
        },
    }
}

// ---------------------------------------------------------------------------
// Streams
// ---------------------------------------------------------------------------
/// Channels with more samples behind each of them.
pub open spec fn extended(acc: Seq<Seq<i32>>, more: Seq<Seq<i32>>) -> Seq<Seq<i32>> {
    Seq::new(
        acc.len(),
        |c: int|
            if c < more.len() {
                acc[c] + more[c]
            } else {
                acc[c]
            },
    )
}

/// The frames from byte `pos` to the end of the stream, behind the samples
/// `acc`.
pub open spec fn read_frames(data: Seq<u8>, pos: int, info: InfoModel, acc: Seq<Seq<i32>>) -> Result<
    Seq<Seq<i32>>,
    DecodeError,
>
    decreases data.len() - pos,
{
    if pos < 0 || pos >= data.len() {
        Ok(acc)
    } else {
        match read_frame(data.skip(pos), info) {
            Err(e) => Err(e),
            Ok(f) => {
                proof {
                    lemma_frame_len(data.skip(pos), info);
                }
                read_frames(data, pos + f.len, info, extended(acc, f.channels))
            },
        }
    }
}

/// `n` channels without samples.
pub open spec fn no_samples(n: nat) -> Seq<Seq<i32>> {
    Seq::new(n, |c: int| Seq::empty())
}

/// What a whole stream decodes to: its STREAMINFO and its channels, or the
/// error that it is refused with.
pub open spec fn decode_stream(data: Seq<u8>) -> Result<(InfoModel, Seq<Seq<i32>>), DecodeError> {
    match open_stream(data) {
        Err(e) => Err(e),
        Ok((info, pos)) => match read_frames(data, pos, info, no_samples(info.channels)) {
            Err(e) => Err(e),
            Ok(channels) => Ok((info, channels)),
        },
    }
}

// ---------------------------------------------------------------------------
// What failed early fails as a whole
// ---------------------------------------------------------------------------
pub proof fn lemma_read_ints_none(b: Seq<bool>, p: int, w: nat, m: nat, n: nat)
    requires
        m <= n,
        read_ints(b, p, w, m) is None,
    ensures
        read_ints(b, p, w, n) is None,
    decreases n - m,
{
    if m < n {
        lemma_read_ints_none(b, p, w, m, (n - 1) as nat);
    }
}

pub proof fn lemma_read_codes_none(b: Seq<bool>, p: int, k: nat, m: nat, n: nat)
    requires
        m <= n,
        read_codes(b, p, k, m) is None,
    ensures
        read_codes(b, p, k, n) is None,
    decreases n - m,
{
    if m < n {
        lemma_read_codes_none(b, p, k, m, (n - 1) as nat);
    }
}

pub proof fn lemma_read_partitions_none(
    b: Seq<bool>,
    p: int,
    method: nat,
    size: nat,
    order: nat,
    m: nat,
    n: nat,
)
    requires
        m <= n,
        read_partitions(b, p, method, size, order, m) is None,
    ensures
        read_partitions(b, p, method, size, order, n) is None,
    decreases n - m,
{
    if m < n {
        lemma_read_partitions_none(b, p, method, size, order, m, (n - 1) as nat);
    }
}

pub proof fn lemma_read_subframes_err(b: Seq<bool>, h: HeaderModel, m: nat, n: nat)
    requires
        m <= n,
        read_subframes(b, h, m) is Err,
    ensures
        read_subframes(b, h, n) == read_subframes(b, h, m),
    decreases n - m,
{
    if m < n {
        lemma_read_subframes_err(b, h, m, (n - 1) as nat);
    }
}

// ---------------------------------------------------------------------------
// Reading moves on
// ---------------------------------------------------------------------------
pub proof fn lemma_read_ints_pos(b: Seq<bool>, p: int, w: nat, n: nat)
    ensures
        read_ints(b, p, w, n) matches Some((s, q)) ==> s.len() == n && q == p + n * w,
    decreases n,
{
    if n > 0 {
        lemma_read_ints_pos(b, p, w, (n - 1) as nat);
        assert((n - 1) * w + w == n * w) by (nonlinear_arith);
    } else {
        assert(0 * w == 0);
    }
}

/// Numbers of at most 15 bits are within a coefficient's limit.
pub proof fn lemma_read_ints_bounded(b: Seq<bool>, p: int, w: nat, n: nat)
    requires
        0 <= p,
        1 <= w <= 15,
    ensures
        read_ints(b, p, w, n) matches Some((s, q)) ==> crate::predict::bounded(s),
    decreases n,
{
    if n > 0 {
        lemma_read_ints_bounded(b, p, w, (n - 1) as nat);
        lemma_read_ints_pos(b, p, w, (n - 1) as nat);
        match read_ints(b, p, w, (n - 1) as nat) {
            None => {},
            Some((s, q)) => {
                assert((n - 1) * w >= 0) by (nonlinear_arith)
                    requires
                        n > 0,
                ;
                if q + w <= b.len() {
                    bits::lemma_signed_value_bound(b.subrange(q, q + w));
                    lemma2_to64();
                    arith::lemma_pow2_monotone((w - 1) as nat, 14);
                }
            },
        }
    }
}

pub proof fn lemma_read_codes_pos(b: Seq<bool>, p: int, k: nat, n: nat)
    requires
        p >= 0,
    ensures
        read_codes(b, p, k, n) matches Some((s, q)) ==> s.len() == n && q >= p,
    decreases n,
{
    if n > 0 {
        lemma_read_codes_pos(b, p, k, (n - 1) as nat);
        match read_codes(b, p, k, (n - 1) as nat) {
            None => {},
            Some((s, q)) => {
                if q <= b.len() {
                    bits::lemma_first_one_bound(b, q);
                }
            },
        }
    }
}

pub proof fn lemma_read_partition_pos(b: Seq<bool>, p: int, method: nat, n: nat)
    requires
        p >= 0,
    ensures
        read_partition(b, p, method, n) matches Some((s, q)) ==> s.len() == n && q >= p,
{
    match bits::read_uint(b, p, 4 + method) {
        None => {},
        Some((param, q)) => if param == escape_of(method) {
            match bits::read_uint(b, q, 5) {
                None => {},
                Some((raw, r)) => {
                    lemma_read_ints_pos(b, r, raw, n);
                    assert(n * raw >= 0) by (nonlinear_arith);
                },
            }
        } else {
            lemma_read_codes_pos(b, q, param, n);
        },
    }
}

pub proof fn lemma_read_partitions_pos(
    b: Seq<bool>,
    p: int,
    method: nat,
    size: nat,
    order: nat,
    n: nat,
)
    requires
        p >= 0,
        order <= size,
    ensures
        read_partitions(b, p, method, size, order, n) matches Some((s, q)) ==> q >= p && s.len()
            == (if n == 0 {
            0
        } else {
            n * size - order
        }),
    decreases n,
{
    if n > 0 {
        let m = (n - 1) as nat;
        lemma_read_partitions_pos(b, p, method, size, order, m);
        match read_partitions(b, p, method, size, order, m) {
            None => {},
            Some((s, q)) => {
                lemma_read_partition_pos(
                    b,
                    q,
                    method,
                    (if n == 1 {
                        size - order
                    } else {
                        size as int
                    }) as nat,
                );
            },
        }
        assert(m * size + size == n * size) by (nonlinear_arith)
            requires
                m + 1 == n,
        ;
    }
}

/// A residual holds every sample of its block but the warm-up.
pub proof fn lemma_read_residual_pos(b: Seq<bool>, p: int, bs: nat, order: nat)
    requires
        p >= 0,
    ensures
        read_residual(b, p, bs, order) matches Ok((s, q)) ==> q >= p && s.len() + order == bs,
{
    if room(b, p + 2, 4) {
        let po = uint(b, p + 2, 4);
        let parts = pow2(po);
        lemma_pow2_pos(po);
        if bs % parts == 0 && bs / parts >= order {
            lemma_read_partitions_pos(b, p + 6, uint(b, p, 2), bs / parts, order, parts);
            vstd::arithmetic::div_mod::lemma_fundamental_div_mod(bs as int, parts as int);
            assert(parts * (bs / parts) == bs);
        }
    }
}

/// A subframe's head is at least one byte.
pub proof fn lemma_read_subframe_head_pos(b: Seq<bool>, p: int, depth: nat)
    requires
        p >= 0,
    ensures
        read_subframe_head(b, p, depth) matches Ok((ty, wasted, q)) ==> q > p && wasted < depth
            && ty < 64,
{
    if room(b, p + 7, 1) {
        bits::lemma_first_one_bound(b, p + 8);
    }
    if room(b, p + 1, 6) {
        lemma2_to64();
        bits::lemma_value_bound(b.subrange(p + 1, p + 7));
    }
}

/// A subframe holds a whole block.
pub proof fn lemma_read_subframe_pos(b: Seq<bool>, p: int, bs: nat, depth: nat)
    requires
        p >= 0,
    ensures
        read_subframe(b, p, bs, depth) matches Ok((s, q)) ==> q > p && s.len() == bs,
{
    reveal(read_subframe);
    lemma_read_subframe_head_pos(b, p, depth);
    if let Ok((ty, wasted, q)) = read_subframe_head(b, p, depth) {
        lemma_read_body_pos(b, q, ty, (depth - wasted) as nat, bs);
    }
}

proof fn lemma_read_body_pos(b: Seq<bool>, p: int, ty: nat, w: nat, bs: nat)
    requires
        p >= 0,
    ensures
        read_body(b, p, ty, w, bs) matches Ok((s, q)) ==> q >= p && s.len() == bs,
{
    let order = (if 8 <= ty <= 12 {
        ty - 8
    } else {
        ty - 31
    }) as nat;
    lemma_read_ints_pos(b, p, w, 1);
    lemma_read_ints_pos(b, p, w, bs);
    lemma_read_ints_pos(b, p, w, order);
    assert(bs * w >= 0) by (nonlinear_arith);
    assert(order * w >= 0) by (nonlinear_arith);
    match read_ints(b, p, w, order) {
        None => {},
        Some((warm, q)) => {
            lemma_read_residual_pos(b, q, bs, order);
            if 8 <= ty <= 12 {
                if let Ok((res, r)) = read_residual(b, q, bs, order) {
                    crate::predict::lemma_restore_len(
                        Predictor::Fixed { order },
                        warm + res,
                        bs,
                    );
                }
            } else if ty >= 32 {
                lemma_read_lpc_coeffs_pos(b, q, bs, order, warm);
            }
        },
    }
}

/// A predictor has as many coefficients as its order, all within the limit.
pub proof fn lemma_read_predictor_pos(b: Seq<bool>, q: int, order: nat)
    requires
        q >= 0,
    ensures
        read_predictor(b, q, order) matches Ok((coeffs, shift, r)) ==> r >= q && coeffs.len()
            == order && shift < 16 && crate::predict::bounded(coeffs),
{
    let w = uint(b, q, 4) + 1;
    lemma_read_ints_pos(b, q + 9, w, order);
    assert(order * w >= 0) by (nonlinear_arith);
    if room(b, q, 9) {
        lemma2_to64();
        bits::lemma_value_bound(b.subrange(q, q + 4));
        bits::lemma_signed_value_bound(b.subrange(q + 4, q + 9));
        if w <= 15 {
            lemma_read_ints_bounded(b, q + 9, w, order);
        }
    }
}

proof fn lemma_read_lpc_coeffs_pos(b: Seq<bool>, q: int, bs: nat, order: nat, warm: Seq<i32>)
    requires
        q >= 0,
        warm.len() == order,
    ensures
        read_lpc_coeffs(b, q, bs, order, warm) matches Ok((s, r)) ==> r >= q && s.len() == bs,
{
    lemma_read_predictor_pos(b, q, order);
    if let Ok((coeffs, shift, q2)) = read_predictor(b, q, order) {
        lemma_read_residual_pos(b, q2, bs, order);
        if let Ok((res, r)) = read_residual(b, q2, bs, order) {
            crate::predict::lemma_restore_len(
                Predictor::Lpc { coeffs, shift },
                warm + res,
                bs,
            );
        }
    }
}

/// Every subframe of a frame holds a whole block.
pub proof fn lemma_read_subframes_pos(b: Seq<bool>, h: HeaderModel, n: nat)
    requires
        h.end >= 0,
    ensures
        read_subframes(b, h, n) matches Ok((subs, q)) ==> q >= h.end && subs.len() == n && (
        forall|c: int| 0 <= c < n ==> (#[trigger] subs[c]).len() == h.block_size),
    decreases n,
{
    if n > 0 {
        lemma_read_subframes_pos(b, h, (n - 1) as nat);
        match read_subframes(b, h, (n - 1) as nat) {
            Err(e) => {},
            Ok((subs, q)) => {
                lemma_read_subframe_pos(
                    b,
                    q,
                    h.block_size,
                    channel_depth(h.assignment, h.depth, n - 1),
                );
            },
        }
    }
}

/// Every channel of a frame holds a whole block.
pub proof fn lemma_read_channels_pos(b: Seq<bool>, h: HeaderModel, n: nat)
    requires
        h.end >= 0,
        n == channels_of(h.assignment),
    ensures
        read_channels(b, h, n) matches Ok((channels, q)) ==> q >= h.end && (channels matches Some(
            c,
        ) ==> c.len() == n && (forall|i: int|
            0 <= i < n ==> (#[trigger] c[i]).len() == h.block_size)),
{
    if wide::is_wide(h) {
        wide::lemma_read_pair_pos(b, h);
    } else {
        lemma_read_subframes_pos(b, h, n);
    }
}

/// A frame header takes whole bytes, at least six.
pub proof fn lemma_read_header_pos(rest: Seq<u8>, info: InfoModel)
    ensures
        read_header(rest, info) matches Ok(h) ==> h.end >= 48 && h.end % 8 == 0 && channels_of(
            h.assignment,
        ) == info.channels,
{
    reveal(read_header);
    number::lemma_read_number_pos(bits::byte_bits(rest), 32);
}

/// The decoder always moves on: a frame takes at least eight bytes and no more
/// than are there, and it holds one block for every channel.
pub proof fn lemma_frame_len(rest: Seq<u8>, info: InfoModel)
    ensures
        read_frame(rest, info) matches Ok(f) ==> 8 <= f.len <= rest.len() && f.channels.len()
            == info.channels && (forall|c: int|
            0 <= c < info.channels ==> (#[trigger] f.channels[c]).len() == f.block_size),
{
    reveal(read_frame);
    let b = bits::byte_bits(rest);
    bits::lemma_byte_bits_len(rest);
    lemma_read_header_pos(rest, info);
    match read_header(rest, info) {
        Err(e) => {},
        Ok(h) => {
            lemma_read_channels_pos(b, h, info.channels);
        },
    }
}

/// Two whole bytes read as one number, high byte first.
proof fn lemma_byte_pair(data: Seq<u8>, i: int)
    requires
        0 <= i,
        i + 1 < data.len(),
    ensures
        uint(bits::byte_bits(data), 8 * i, 16) == 256 * data[i] + data[i + 1],
{
    lemma2_to64();
    let b = bits::byte_bits(data);
    let x = b.subrange(8 * i, 8 * i + 8);
    let y = b.subrange(8 * i + 8, 8 * i + 16);
    bits::lemma_byte_bits_len(data);
    bits::lemma_byte_at(data, i);
    bits::lemma_byte_at(data, i + 1);
    bits::lemma_value_field(data[i] as int, 8);
    bits::lemma_value_field(data[i + 1] as int, 8);
    bits::lemma_value_concat(x, y);
    assert(y.len() == 8);
    assert(bits::value(x) == data[i] && bits::value(y) == data[i + 1]);
    assert(bits::value(x + y) == bits::value(x) * 256 + bits::value(y));
    assert(b.subrange(8 * i, 8 * i + 16) =~= x + y);
}

/// Every decoded frame is checked: its last two bytes are the CRC-16 of all
/// bytes before them.
pub proof fn lemma_frame_checked(rest: Seq<u8>, info: InfoModel)
    ensures
        read_frame(rest, info) matches Ok(f) ==> crc::crc16_of(rest.take(f.len - 2)) == 256
            * rest[f.len - 2] + rest[f.len - 1],
{
    reveal(read_frame);
    let b = bits::byte_bits(rest);
    bits::lemma_byte_bits_len(rest);
    lemma_frame_len(rest, info);
    lemma_read_header_pos(rest, info);
    if let Ok(h) = read_header(rest, info) {
        lemma_read_channels_pos(b, h, info.channels);
        if let Ok((channels, q)) = read_channels(b, h, info.channels) {
            let p = q + bits::padding(q as nat);
            if room(b, p, 16) {
                lemma_byte_pair(rest, p / 8);
            }
        }
    }
}

/// A damaged byte never passes for sound: where one byte of a frame is
/// changed, no frame of that length decodes in its place.
pub proof fn lemma_damage_detected(rest: Seq<u8>, damaged: Seq<u8>, info: InfoModel, i: int)
    requires
        read_frame(rest, info) is Ok,
        0 <= i < read_frame(rest, info)->Ok_0.len,
        damaged.len() == rest.len(),
        damaged[i] != rest[i],
        forall|j: int|
            0 <= j < read_frame(rest, info)->Ok_0.len && j != i ==> damaged[j] == rest[j],
    ensures
        read_frame(damaged, info) matches Ok(g) ==> g.len != read_frame(rest, info)->Ok_0.len,
{
    let n = read_frame(rest, info)->Ok_0.len;
    lemma_frame_len(rest, info);
    lemma_frame_checked(rest, info);
    lemma_frame_checked(damaged, info);
    let x = rest.take(n);
    let y = damaged.take(n);
    crc::lemma_crc16_residue(rest.take(n - 2), rest[n - 2], rest[n - 1]);
    assert(x =~= rest.take(n - 2).push(rest[n - 2]).push(rest[n - 1]));
    assert(y =~= damaged.take(n - 2).push(damaged[n - 2]).push(damaged[n - 1]));
    crc::lemma_crc16_detects(x, y, i);
    if let Ok(g) = read_frame(damaged, info) {
        if g.len == n {
            crc::lemma_crc16_residue(damaged.take(n - 2), damaged[n - 2], damaged[n - 1]);
        }
    }
}

/// Decoding a stream is decoding its next frame and then the rest.
pub proof fn lemma_read_frames_step(
    data: Seq<u8>,
    pos: int,
    info: InfoModel,
    acc: Seq<Seq<i32>>,
    f: FrameModel,
)
    requires
        0 <= pos < data.len(),
        read_frame(data.skip(pos), info) == Ok::<FrameModel, DecodeError>(f),
    ensures
        read_frames(data, pos, info, acc) == read_frames(
            data,
            pos + f.len,
            info,
            extended(acc, f.channels),
        ),
{
}

/// What decodes has the channels that STREAMINFO names, all equally long.
pub proof fn lemma_decoded_shape(data: Seq<u8>)
    ensures
        decode_stream(data) matches Ok((info, channels)) ==> channels.len() == info.channels && (
        forall|c: int|
            0 <= c < channels.len() ==> (#[trigger] channels[c]).len() == channels[0].len()),
{
    match open_stream(data) {
        Err(e) => {},
        Ok((info, pos)) => {
            lemma_frames_shape(data, pos, info, no_samples(info.channels), 0);
        },
    }
}

proof fn lemma_frames_shape(
    data: Seq<u8>,
    pos: int,
    info: InfoModel,
    acc: Seq<Seq<i32>>,
    n: nat,
)
    requires
        acc.len() == info.channels,
        forall|c: int| 0 <= c < acc.len() ==> (#[trigger] acc[c]).len() == n,
    ensures
        read_frames(data, pos, info, acc) matches Ok(out) ==> out.len() == info.channels && (
        forall|c: int| 0 <= c < out.len() ==> (#[trigger] out[c]).len() == out[0].len()),
    decreases data.len() - pos,
{
    if 0 <= pos < data.len() {
        match read_frame(data.skip(pos), info) {
            Err(e) => {},
            Ok(f) => {
                lemma_frame_len(data.skip(pos), info);
                let next = extended(acc, f.channels);
                assert forall|c: int| 0 <= c < next.len() implies (#[trigger] next[c]).len() == n
                    + f.block_size by {
                    assert(f.channels[c].len() == f.block_size);
                    assert(acc[c].len() == n);
                }
                lemma_frames_shape(data, pos + f.len, info, next, n + f.block_size);
            },
        }
    }
}

/// The samples of channel `c` of a list of frames, in order.
pub open spec fn played(frames: Seq<FrameModel>, c: int) -> Seq<i32>
    decreases frames.len(),
{
    if frames.len() == 0 {
        Seq::empty()
    } else {
        played(frames.drop_last(), c) + frames.last().channels[c]
    }
}

/// Frames of as many channels are read one behind the other, up to the end of a
/// stream.
pub open spec fn frames_stand(
    data: Seq<u8>,
    info: InfoModel,
    frames: Seq<FrameModel>,
    at: Seq<int>,
    channels: nat,
) -> bool {
    &&& at.len() == frames.len() + 1
    &&& at.last() == data.len()
    &&& forall|j: int|
        0 <= j < frames.len() ==> 0 <= at[j] < data.len() && at[j + 1] == at[j] + frames[j].len && (
        #[trigger] frames[j]).channels.len() == channels && read_frame(data.skip(at[j]), info)
            == Ok::<FrameModel, DecodeError>(frames[j])
}

/// Frames that stand one behind the other up to the end of a stream are played
/// in order, every channel on its own.
pub proof fn lemma_frames_played(
    data: Seq<u8>,
    info: InfoModel,
    frames: Seq<FrameModel>,
    at: Seq<int>,
    acc: Seq<Seq<i32>>,
    n: nat,
)
    requires
        n <= frames.len(),
        frames_stand(data, info, frames, at, acc.len()),
        forall|c: int| 0 <= c < acc.len() ==> #[trigger] acc[c] == played(frames.take(n as int), c),
    ensures
        read_frames(data, at[n as int], info, acc) matches Ok(out) && out.len() == acc.len()
            && forall|c: int| 0 <= c < acc.len() ==> #[trigger] out[c] == played(frames, c),
    decreases frames.len() - n,
{
    if n == frames.len() {
        assert(frames.take(n as int) =~= frames);
    } else {
        let f = frames[n as int];
        let more = extended(acc, f.channels);
        assert(more.len() == acc.len());
        let next = frames.take((n + 1) as int);
        assert(next.drop_last() =~= frames.take(n as int));
        assert(next.last() == f);
        assert forall|c: int| 0 <= c < more.len() implies #[trigger] more[c] == played(next, c) by {
            assert(acc[c] == played(frames.take(n as int), c));
        }
        lemma_read_frames_step(data, at[n as int], info, acc, f);
        lemma_frames_played(data, info, frames, at, more, n + 1);
    }
}

/// A stream whose frames are in order up to a frame that is refused is refused
/// for what that frame is refused for.
pub proof fn lemma_first_error(
    data: Seq<u8>,
    info: InfoModel,
    frames: Seq<FrameModel>,
    at: Seq<int>,
    acc: Seq<Seq<i32>>,
    n: nat,
    e: DecodeError,
)
    requires
        n <= frames.len(),
        at.len() == frames.len() + 1,
        forall|j: int| 0 <= j <= frames.len() ==> 0 <= #[trigger] at[j] < data.len(),
        forall|j: int|
            0 <= j < frames.len() ==> at[j + 1] == at[j] + frames[j].len && read_frame(
                data.skip(at[j]),
                info,
            ) == Ok::<FrameModel, DecodeError>(#[trigger] frames[j]),
        read_frame(data.skip(at.last()), info) == Err::<FrameModel, DecodeError>(e),
    ensures
        read_frames(data, at[n as int], info, acc) == Err::<Seq<Seq<i32>>, DecodeError>(e),
    decreases frames.len() - n,
{
    assert(0 <= at[n as int] < data.len());
    if n < frames.len() {
        let f = frames[n as int];
        assert(at[n as int + 1] == at[n as int] + f.len);
        lemma_read_frames_step(data, at[n as int], info, acc, f);
        lemma_first_error(data, info, frames, at, extended(acc, f.channels), n + 1, e);
    }
}

} // verus!
