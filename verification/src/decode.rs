//! The FLAC decoder — streaming per frame, planar `i32` output: all subframe
//! kinds, all four stereo assignments, wasted bits, Rice and Rice2 partitions
//! with escape codes, CRC-8 header and CRC-16 frame verification.
use crate::arith;
use crate::bitio::BitReader;
use crate::bits;
use crate::crc;
use crate::grammar;
use crate::number;
use crate::predict;
use crate::rice;
use crate::wide;
use vstd::arithmetic::power2::*;
use vstd::prelude::*;

verus! {

/// Parsed STREAMINFO.
#[derive(Debug, Default)]
pub struct StreamInfo {
    pub min_block_size: u32,
    pub max_block_size: u32,
    pub min_frame_size: u32,
    pub max_frame_size: u32,
    pub sample_rate: u32,
    pub channels: u32,
    pub bits_per_sample: u32,
    pub total_samples: u64,
    pub md5: [u8; 16],
}

impl View for StreamInfo {
    type V = grammar::InfoModel;

    open spec fn view(&self) -> grammar::InfoModel {
        grammar::InfoModel {
            min_block_size: self.min_block_size as nat,
            max_block_size: self.max_block_size as nat,
            min_frame_size: self.min_frame_size as nat,
            max_frame_size: self.max_frame_size as nat,
            sample_rate: self.sample_rate as nat,
            channels: self.channels as nat,
            bits_per_sample: self.bits_per_sample as nat,
            total_samples: self.total_samples as nat,
            md5: self.md5@,
        }
    }
}

impl Clone for StreamInfo {
    fn clone(&self) -> (r: Self)
        ensures
            r == *self,
    {
        StreamInfo {
            min_block_size: self.min_block_size,
            max_block_size: self.max_block_size,
            min_frame_size: self.min_frame_size,
            max_frame_size: self.max_frame_size,
            sample_rate: self.sample_rate,
            channels: self.channels,
            bits_per_sample: self.bits_per_sample,
            total_samples: self.total_samples,
            md5: self.md5,
        }
    }
}

/// Why a stream is refused.
#[derive(Debug, Clone, PartialEq, Eq)]
pub enum DecodeError {
    /// Not a FLAC stream (missing `fLaC` marker or STREAMINFO).
    NotFlac,
    /// Stream ended mid-structure.
    Truncated,
    /// A frame header failed to parse or its CRC-8 mismatched.
    BadFrameHeader(&'static str),
    /// Frame CRC-16 mismatched.
    BadFrameCrc,
    /// A subframe used a reserved or invalid coding.
    BadSubframe(&'static str),
    /// Frame parameters disagree with STREAMINFO (channels, rate).
    Inconsistent(&'static str),
}

/// Read `n` bits; the stream must hold them.
pub(crate) fn take_bits(br: &mut BitReader, n: u32) -> (r: Result<u32, DecodeError>)
    requires
        old(br).wf(),
        n <= 32,
    ensures
        final(br).wf(),
        final(br).bits() == old(br).bits(),
        match r {
            Ok(v) => grammar::room(old(br).bits(), old(br).bit_pos(), n as nat) && v
                == grammar::uint(old(br).bits(), old(br).bit_pos(), n as nat)
                && final(br).bit_pos() == old(br).bit_pos() + n && v < pow2(n as nat),
            Err(e) => !grammar::room(old(br).bits(), old(br).bit_pos(), n as nat) && e
                == DecodeError::Truncated,
        },
{
    let ghost b = br.bits();
    let ghost p = br.bit_pos();
    proof {
        br.lemma_pos_bound();
    }
    match br.read_bits(n) {
        Some(v) => {
            proof {
                bits::lemma_value_bound(b.subrange(p, p + n));
            }
            Ok(v)
        },
        None => Err(DecodeError::Truncated),
    }
}

/// Read `n` two's complement numbers of `w` bits each behind `out`.
fn read_ints(br: &mut BitReader, w: u32, n: usize, out: &mut Vec<i32>) -> (r: Result<
    (),
    DecodeError,
>)
    requires
        old(br).wf(),
        1 <= w <= 32,
    ensures
        final(br).wf(),
        final(br).bits() == old(br).bits(),
        final(out)@.len() >= old(out)@.len(),
        final(out)@.take(old(out)@.len() as int) == old(out)@,
        match grammar::read_ints(old(br).bits(), old(br).bit_pos(), w as nat, n as nat) {
            Some((s, q)) => r is Ok && final(out)@ == old(out)@ + s && final(br).bit_pos() == q,
            None => r == Err::<(), DecodeError>(DecodeError::Truncated),
        },
{
    let ghost b = br.bits();
    let ghost p = br.bit_pos();
    let ghost start = out@;
    let mut i: usize = 0;
    assert(out@ =~= start + Seq::<i32>::empty());
    while i < n
        invariant
            i <= n,
            1 <= w <= 32,
            br.wf(),
            br.bits() == b,
            b == old(br).bits(),
            p == old(br).bit_pos(),
            start == old(out)@,
            grammar::read_ints(b, p, w as nat, i as nat) matches Some((s, q)) && q == br.bit_pos()
                && out@ == start + s,
        decreases n - i,
    {
        let ghost before = grammar::read_ints(b, p, w as nat, i as nat)->0;
        match br.read_signed(w) {
            Some(v) => {
                out.push(v);
                assert(out@ =~= start + before.0.push(v));
            },
            None => {
                proof {
                    grammar::lemma_read_ints_none(b, p, w as nat, (i + 1) as nat, n as nat);
                }
                return Err(DecodeError::Truncated);
            },
        }
        i = i + 1;
    }
    Ok(())
}

/// Read `n` Rice codes with parameter `k` behind `out`.
fn read_codes(br: &mut BitReader, k: u32, n: usize, out: &mut Vec<i32>) -> (r: Result<
    (),
    DecodeError,
>)
    requires
        old(br).wf(),
        k <= 30,
    ensures
        final(br).wf(),
        final(br).bits() == old(br).bits(),
        final(out)@.len() >= old(out)@.len(),
        final(out)@.take(old(out)@.len() as int) == old(out)@,
        match grammar::read_codes(old(br).bits(), old(br).bit_pos(), k as nat, n as nat) {
            Some((s, q)) => r is Ok && final(out)@ == old(out)@ + s && final(br).bit_pos() == q,
            None => r == Err::<(), DecodeError>(DecodeError::Truncated),
        },
{
    let ghost b = br.bits();
    let ghost p = br.bit_pos();
    let ghost start = out@;
    let mut i: usize = 0;
    assert(out@ =~= start + Seq::<i32>::empty());
    while i < n
        invariant
            i <= n,
            k <= 30,
            br.wf(),
            br.bits() == b,
            b == old(br).bits(),
            p == old(br).bit_pos(),
            start == old(out)@,
            grammar::read_codes(b, p, k as nat, i as nat) matches Some((s, q)) && q == br.bit_pos()
                && out@ == start + s,
        decreases n - i,
    {
        let ghost before = grammar::read_codes(b, p, k as nat, i as nat)->0;
        match br.read_rice(k) {
            Some(u) => {
                let v: i32 = rice::unzigzag(u);
                out.push(v);
                assert(out@ =~= start + before.0.push(v));
            },
            None => {
                proof {
                    grammar::lemma_read_codes_none(b, p, k as nat, (i + 1) as nat, n as nat);
                }
                return Err(DecodeError::Truncated);
            },
        }
        i = i + 1;
    }
    Ok(())
}

/// Read one partition of `n` residuals behind `out`.
fn decode_partition(br: &mut BitReader, method: u32, n: usize, out: &mut Vec<i32>) -> (r: Result<
    (),
    DecodeError,
>)
    requires
        old(br).wf(),
        method <= 1,
    ensures
        final(br).wf(),
        final(br).bits() == old(br).bits(),
        final(out)@.len() >= old(out)@.len(),
        final(out)@.take(old(out)@.len() as int) == old(out)@,
        match grammar::read_partition(old(br).bits(), old(br).bit_pos(), method as nat, n as nat) {
            Some((s, q)) => r is Ok && final(out)@ == old(out)@ + s && final(br).bit_pos() == q,
            None => r == Err::<(), DecodeError>(DecodeError::Truncated),
        },
{
    proof {
        lemma2_to64();
    }
    let param: u32 = match take_bits(br, 4 + method) {
        Ok(v) => v,
        Err(e) => {
            return Err(e);
        },
    };
    let escape: u32 = if method == 0 {
        15
    } else {
        31
    };
    if param != escape {
        return read_codes(br, param, n, out);
    }
    let raw: u32 = match take_bits(br, 5) {
        Ok(v) => v,
        Err(e) => {
            return Err(e);
        },
    };
    if raw > 0 {
        return read_ints(br, raw, n, out);
    }
    let ghost start = out@;
    let mut i: usize = 0;
    assert(out@ =~= start + grammar::silence(0));
    while i < n
        invariant
            i <= n,
            out@ == start + grammar::silence(i as nat),
        decreases n - i,
    {
        out.push(0);
        i = i + 1;
        assert(out@ =~= start + grammar::silence(i as nat));
    }
    Ok(())
}

/// Partitioned Rice residual: appends the `bs - order` residuals of a block
/// to `out`, which already holds the warm-up samples.
pub(crate) fn decode_residual(
    br: &mut BitReader,
    bs: usize,
    order: usize,
    out: &mut Vec<i32>,
) -> (r: Result<(), DecodeError>)
    requires
        old(br).wf(),
        bs <= 65536,
    ensures
        final(br).wf(),
        final(br).bits() == old(br).bits(),
        final(out)@.len() >= old(out)@.len(),
        final(out)@.take(old(out)@.len() as int) == old(out)@,
        match grammar::read_residual(old(br).bits(), old(br).bit_pos(), bs as nat, order as nat) {
            Ok((s, q)) => r is Ok && final(out)@ == old(out)@ + s && final(br).bit_pos() == q,
            Err(e) => r == Err::<(), DecodeError>(e),
        },
{
    proof {
        lemma2_to64();
    }
    let ghost b = br.bits();
    let ghost start = out@;
    let method: u32 = match take_bits(br, 2) {
        Ok(v) => v,
        Err(e) => {
            return Err(e);
        },
    };
    if method > 1 {
        return Err(DecodeError::BadSubframe("residual method"));
    }
    let po: u32 = match take_bits(br, 4) {
        Ok(v) => v,
        Err(e) => {
            return Err(e);
        },
    };
    let n_part: usize = arith::power(po);
    let psize: usize = arith::halve(bs, po);
    // Partition 0 is short by the warm-up samples, so it must not go negative,
    // and the block must split evenly.
    if bs % n_part != 0 || psize < order {
        return Err(DecodeError::BadSubframe("partition geometry"));
    }
    let ghost p = br.bit_pos();
    let mut part: usize = 0;
    assert(out@ =~= start + Seq::<i32>::empty());
    while part < n_part
        invariant
            part <= n_part,
            method <= 1,
            order <= psize,
            br.wf(),
            br.bits() == b,
            b == old(br).bits(),
            start == old(out)@,
            grammar::read_partitions(
                b,
                p,
                method as nat,
                psize as nat,
                order as nat,
                part as nat,
            ) matches Some((s, q)) && q == br.bit_pos() && out@ == start + s,
            grammar::read_residual(b, old(br).bit_pos(), bs as nat, order as nat) == (
            match grammar::read_partitions(
                b,
                p,
                method as nat,
                psize as nat,
                order as nat,
                n_part as nat,
            ) {
                None => Err(DecodeError::Truncated),
                Some(r) => Ok(r),
            }),
        decreases n_part - part,
    {
        let ghost before = grammar::read_partitions(
            b,
            p,
            method as nat,
            psize as nat,
            order as nat,
            part as nat,
        )->0;
        let cnt: usize = if part == 0 {
            psize - order
        } else {
            psize
        };
        match decode_partition(br, method, cnt, out) {
            Ok(()) => {
                proof {
                    let more = grammar::read_partition(b, before.1, method as nat, cnt as nat)->0;
                    assert(out@ =~= start + (before.0 + more.0));
                }
            },
            Err(e) => {
                proof {
                    grammar::lemma_read_partitions_none(
                        b,
                        p,
                        method as nat,
                        psize as nat,
                        order as nat,
                        (part + 1) as nat,
                        n_part as nat,
                    );
                }
                return Err(e);
            },
        }
        part = part + 1;
    }
    Ok(())
}

/// Read `n` samples of `w` bits each.
fn read_samples(br: &mut BitReader, w: u32, n: usize) -> (r: Result<Vec<i32>, DecodeError>)
    requires
        old(br).wf(),
        1 <= w <= 32,
    ensures
        final(br).wf(),
        final(br).bits() == old(br).bits(),
        match grammar::read_samples(old(br).bits(), old(br).bit_pos(), w as nat, n as nat) {
            Ok((s, q)) => r matches Ok(v) && v@ == s && final(br).bit_pos() == q,
            Err(e) => r == Err::<Vec<i32>, DecodeError>(e),
        },
{
    let mut out: Vec<i32> = Vec::new();
    match read_ints(br, w, n, &mut out) {
        Ok(()) => {
            proof {
                let s = grammar::read_ints(
                    old(br).bits(),
                    old(br).bit_pos(),
                    w as nat,
                    n as nat,
                )->0;
                assert(out@ =~= s.0);
            }
            Ok(out)
        },
        Err(e) => Err(e),
    }
}

/// A block of one repeated sample.
fn decode_constant(br: &mut BitReader, w: u32, bs: usize) -> (r: Result<Vec<i32>, DecodeError>)
    requires
        old(br).wf(),
        1 <= w <= 32,
    ensures
        final(br).wf(),
        final(br).bits() == old(br).bits(),
        match grammar::read_constant(old(br).bits(), old(br).bit_pos(), w as nat, bs as nat) {
            Ok((s, q)) => r matches Ok(v) && v@ == s && final(br).bit_pos() == q,
            Err(e) => r == Err::<Vec<i32>, DecodeError>(e),
        },
{
    let one: Vec<i32> = match read_samples(br, w, 1) {
        Ok(v) => v,
        Err(e) => {
            return Err(e);
        },
    };
    proof {
        grammar::lemma_read_ints_pos(old(br).bits(), old(br).bit_pos(), w as nat, 1);
    }
    let v: i32 = one[0];
    let mut out: Vec<i32> = Vec::new();
    let mut i: usize = 0;
    while i < bs
        invariant
            i <= bs,
            out@ == Seq::new(i as nat, |j: int| v),
        decreases bs - i,
    {
        out.push(v);
        i = i + 1;
        assert(out@ =~= Seq::new(i as nat, |j: int| v));
    }
    assert(out@ =~= Seq::new(bs as nat, |j: int| one@[0]));
    Ok(out)
}

/// A block behind the fixed polynomial of `order`.
fn decode_fixed(br: &mut BitReader, w: u32, bs: usize, order: usize) -> (r: Result<
    Vec<i32>,
    DecodeError,
>)
    requires
        old(br).wf(),
        1 <= w <= 32,
        bs <= 65536,
        order <= 4,
    ensures
        final(br).wf(),
        final(br).bits() == old(br).bits(),
        match grammar::read_fixed(
            old(br).bits(),
            old(br).bit_pos(),
            w as nat,
            bs as nat,
            order as nat,
        ) {
            Ok((s, q)) => r matches Ok(v) && v@ == s && final(br).bit_pos() == q,
            Err(e) => r == Err::<Vec<i32>, DecodeError>(e),
        },
{
    let ghost b = br.bits();
    let ghost p = br.bit_pos();
    if order > bs {
        return Err(DecodeError::BadSubframe("fixed order > blocksize"));
    }
    let mut out: Vec<i32> = match read_samples(br, w, order) {
        Ok(v) => v,
        Err(e) => {
            return Err(e);
        },
    };
    proof {
        grammar::lemma_read_ints_pos(b, p, w as nat, order as nat);
        br.lemma_pos_bound();
        grammar::lemma_read_residual_pos(b, br.bit_pos(), bs as nat, order as nat);
    }
    match decode_residual(br, bs, order, &mut out) {
        Ok(()) => {},
        Err(e) => {
            return Err(e);
        },
    }
    predict::restore_fixed(&mut out, order);
    Ok(out)
}

/// Read the coefficients and the shift of a linear predictor of `order`.
pub(crate) fn decode_predictor(br: &mut BitReader, order: usize) -> (r: Result<
    (Vec<i32>, u32),
    DecodeError,
>)
    requires
        old(br).wf(),
    ensures
        final(br).wf(),
        final(br).bits() == old(br).bits(),
        match grammar::read_predictor(old(br).bits(), old(br).bit_pos(), order as nat) {
            Ok((coeffs, shift, q)) => r matches Ok(v) && v.0@ == coeffs && v.1 == shift
                && final(br).bit_pos() == q && coeffs.len() == order && shift < 16
                && predict::bounded(coeffs),
            Err(e) => r == Err::<(Vec<i32>, u32), DecodeError>(e),
        },
{
    let ghost b = br.bits();
    proof {
        br.lemma_pos_bound();
        lemma2_to64();
        grammar::lemma_read_predictor_pos(b, br.bit_pos(), order as nat);
    }
    let prec: u32 = match take_bits(br, 4) {
        Ok(v) => v + 1,
        Err(e) => {
            return Err(e);
        },
    };
    if prec > 15 {
        return Err(DecodeError::BadSubframe("qlp precision 16"));
    }
    let shift: i32 = match br.read_signed(5) {
        Some(v) => v,
        None => {
            return Err(DecodeError::Truncated);
        },
    };
    if shift < 0 {
        return Err(DecodeError::BadSubframe("negative shift"));
    }
    let mut qlp: Vec<i32> = Vec::new();
    let ghost q1 = br.bit_pos();
    match read_ints(br, prec, order, &mut qlp) {
        Ok(()) => {},
        Err(e) => {
            return Err(e);
        },
    }
    proof {
        let s = grammar::read_ints(b, q1, prec as nat, order as nat)->0;
        assert(qlp@ =~= s.0);
    }
    Ok((qlp, shift as u32))
}

/// The predictor and the residual of a linear prediction subframe, behind its
/// warm-up samples.
fn decode_lpc_coeffs(br: &mut BitReader, bs: usize, order: usize, warm: Vec<i32>) -> (r: Result<
    Vec<i32>,
    DecodeError,
>)
    requires
        old(br).wf(),
        bs <= 65536,
        order <= 32,
        warm@.len() == order,
    ensures
        final(br).wf(),
        final(br).bits() == old(br).bits(),
        match grammar::read_lpc_coeffs(
            old(br).bits(),
            old(br).bit_pos(),
            bs as nat,
            order as nat,
            warm@,
        ) {
            Ok((s, q)) => r matches Ok(v) && v@ == s && final(br).bit_pos() == q,
            Err(e) => r == Err::<Vec<i32>, DecodeError>(e),
        },
{
    let (qlp, shift): (Vec<i32>, u32) = match decode_predictor(br, order) {
        Ok(v) => v,
        Err(e) => {
            return Err(e);
        },
    };
    proof {
        br.lemma_pos_bound();
        grammar::lemma_read_residual_pos(br.bits(), br.bit_pos(), bs as nat, order as nat);
    }
    let mut out: Vec<i32> = warm;
    match decode_residual(br, bs, order, &mut out) {
        Ok(()) => {},
        Err(e) => {
            return Err(e);
        },
    }
    predict::restore_lpc(&mut out, qlp.as_slice(), shift);
    Ok(out)
}

/// A block behind quantized linear prediction of `order`.
fn decode_lpc(br: &mut BitReader, w: u32, bs: usize, order: usize) -> (r: Result<
    Vec<i32>,
    DecodeError,
>)
    requires
        old(br).wf(),
        1 <= w <= 32,
        bs <= 65536,
        order <= 32,
    ensures
        final(br).wf(),
        final(br).bits() == old(br).bits(),
        match grammar::read_lpc(
            old(br).bits(),
            old(br).bit_pos(),
            w as nat,
            bs as nat,
            order as nat,
        ) {
            Ok((s, q)) => r matches Ok(v) && v@ == s && final(br).bit_pos() == q,
            Err(e) => r == Err::<Vec<i32>, DecodeError>(e),
        },
{
    if order > bs {
        return Err(DecodeError::BadSubframe("lpc order > blocksize"));
    }
    let warm: Vec<i32> = match read_samples(br, w, order) {
        Ok(v) => v,
        Err(e) => {
            return Err(e);
        },
    };
    proof {
        grammar::lemma_read_ints_pos(old(br).bits(), old(br).bit_pos(), w as nat, order as nat);
    }
    decode_lpc_coeffs(br, bs, order, warm)
}

/// Put `n` zero bits back below every sample.
fn shift_up(v: &mut Vec<i32>, n: u32)
    requires
        n <= 31,
    ensures
        final(v)@ == grammar::shifted_up(old(v)@, n as nat),
{
    let ghost raw = v@;
    proof {
        lemma2_to64();
        arith::lemma_pow2_monotone(n as nat, 31);
        lemma_pow2_pos(n as nat);
        vstd::bits::lemma_u64_shl_is_mul(1, n as u64);
    }
    let scale: i64 = (1u64 << n) as i64;
    let mut i: usize = 0;
    while i < v.len()
        invariant
            i <= v@.len(),
            v@.len() == raw.len(),
            scale == pow2(n as nat),
            1 <= scale <= 0x8000_0000,
            forall|j: int| 0 <= j < i ==> #[trigger] v@[j] == arith::wrap32(raw[j] * scale),
            forall|j: int| i <= j < raw.len() ==> #[trigger] v@[j] == raw[j],
        decreases v@.len() - i,
    {
        let x: i64 = v[i] as i64;
        assert(-0x4000_0000_0000_0000 <= x * scale <= 0x4000_0000_0000_0000) by (nonlinear_arith)
            requires
                1 <= scale <= 0x8000_0000,
                -0x8000_0000 <= x <= 0x7fff_ffff,
        ;
        proof {
            arith::lemma_truncate_i64((x * scale) as i64);
        }
        let y: i32 = (x * scale) as i32;
        v[i] = y;
        i = i + 1;
    }
    assert(v@ =~= grammar::shifted_up(raw, n as nat));
}

/// Read the wasted-bits field of a subframe of `depth`-bit samples: fewer bits
/// than the samples have.
fn decode_wasted(br: &mut BitReader, depth: u32) -> (r: Result<u32, DecodeError>)
    requires
        old(br).wf(),
        1 <= depth <= 33,
    ensures
        final(br).wf(),
        final(br).bits() == old(br).bits(),
        match grammar::read_wasted(old(br).bits(), old(br).bit_pos()) {
            None => r == Err::<u32, DecodeError>(DecodeError::Truncated),
            Some((n, q)) => if n >= depth {
                r == Err::<u32, DecodeError>(DecodeError::BadSubframe("wasted bits >= bps"))
            } else {
                r matches Ok(v) && v == n && final(br).bit_pos() == q
            },
        },
{
    proof {
        lemma2_to64();
    }
    let flag: u32 = match take_bits(br, 1) {
        Ok(v) => v,
        Err(e) => {
            return Err(e);
        },
    };
    if flag == 0 {
        return Ok(0);
    }
    match br.read_unary() {
        None => Err(DecodeError::Truncated),
        Some(z) => if z >= depth - 1 {
            Err(DecodeError::BadSubframe("wasted bits >= bps"))
        } else {
            Ok(z + 1)
        },
    }
}

/// The body of a subframe of type `ty`, at `w` bits per sample.
fn decode_body(br: &mut BitReader, ty: u32, w: u32, bs: usize) -> (r: Result<
    Vec<i32>,
    DecodeError,
>)
    requires
        old(br).wf(),
        1 <= w <= 32,
        bs <= 65536,
        ty < 64,
    ensures
        final(br).wf(),
        final(br).bits() == old(br).bits(),
        match grammar::read_body(
            old(br).bits(),
            old(br).bit_pos(),
            ty as nat,
            w as nat,
            bs as nat,
        ) {
            Ok((s, q)) => r matches Ok(v) && v@ == s && final(br).bit_pos() == q,
            Err(e) => r == Err::<Vec<i32>, DecodeError>(e),
        },
{
    if ty == 0 {
        decode_constant(br, w, bs)
    } else if ty == 1 {
        read_samples(br, w, bs)
    } else if 8 <= ty && ty <= 12 {
        decode_fixed(br, w, bs, (ty - 8) as usize)
    } else if ty >= 32 {
        decode_lpc(br, w, bs, (ty - 31) as usize)
    } else {
        Err(DecodeError::BadSubframe("reserved type"))
    }
}

/// Read the head of a subframe of `depth`-bit samples: its type and its wasted
/// bits.
pub(crate) fn decode_subframe_head(br: &mut BitReader, depth: u32) -> (r: Result<
    (u32, u32),
    DecodeError,
>)
    requires
        old(br).wf(),
        1 <= depth <= 33,
    ensures
        final(br).wf(),
        final(br).bits() == old(br).bits(),
        match grammar::read_subframe_head(old(br).bits(), old(br).bit_pos(), depth as nat) {
            Ok((ty, wasted, q)) => r matches Ok(v) && v.0 == ty && v.1 == wasted
                && final(br).bit_pos() == q && ty < 64 && wasted < depth,
            Err(e) => r == Err::<(u32, u32), DecodeError>(e),
        },
{
    proof {
        lemma2_to64();
    }
    let pad: u32 = match take_bits(br, 1) {
        Ok(v) => v,
        Err(e) => {
            return Err(e);
        },
    };
    if pad != 0 {
        return Err(DecodeError::BadSubframe("padding bit"));
    }
    let ty: u32 = match take_bits(br, 6) {
        Ok(v) => v,
        Err(e) => {
            return Err(e);
        },
    };
    match decode_wasted(br, depth) {
        Ok(wasted) => Ok((ty, wasted)),
        Err(e) => Err(e),
    }
}

/// Decode one subframe of `bs` samples of `bps` bits each.
pub fn decode_subframe(br: &mut BitReader, bs: usize, bps: u32) -> (r: Result<
    Vec<i32>,
    DecodeError,
>)
    requires
        old(br).wf(),
        bs <= 65536,
        1 <= bps <= 32,
    ensures
        final(br).wf(),
        final(br).bits() == old(br).bits(),
        match grammar::read_subframe(old(br).bits(), old(br).bit_pos(), bs as nat, bps as nat) {
            Ok((s, q)) => r matches Ok(v) && v@ == s && final(br).bit_pos() == q,
            Err(e) => r == Err::<Vec<i32>, DecodeError>(e),
        },
{
    proof {
        reveal(grammar::read_subframe);
    }
    let (ty, wasted): (u32, u32) = match decode_subframe_head(br, bps) {
        Ok(v) => v,
        Err(e) => {
            return Err(e);
        },
    };
    match decode_body(br, ty, bps - wasted, bs) {
        Ok(v) => {
            let mut out: Vec<i32> = v;
            shift_up(&mut out, wasted);
            Ok(out)
        },
        Err(e) => Err(e),
    }
}

/// The frame header's fields that decoding needs.
struct Header {
    block_size: usize,
    depth: u32,
    assignment: u32,
}

impl Header {
    /// The header `h` describes the same frame.
    spec fn agrees(&self, h: grammar::HeaderModel) -> bool {
        &&& self.block_size == h.block_size
        &&& self.depth == h.depth
        &&& self.assignment == h.assignment
        &&& 1 <= self.block_size <= 65536
        &&& 1 <= self.depth <= 32
        &&& self.assignment <= 10
    }
}

/// The codes of a frame header's first four bytes.
struct Codes {
    block_size: u32,
    sample_rate: u32,
    assignment: u32,
    sample_size: u32,
}

/// Read a frame header up to the frame number.
fn header_codes(br: &mut BitReader) -> (r: Result<Codes, DecodeError>)
    requires
        old(br).wf(),
        old(br).bit_pos() == 0,
    ensures
        final(br).wf(),
        final(br).bits() == old(br).bits(),
        match r {
            Ok(c) => ({
                let b = old(br).bits();
                &&& grammar::room(b, 0, 32)
                &&& grammar::uint(b, 0, 14) == 0x3FFE
                &&& grammar::uint(b, 14, 1) == 0
                &&& grammar::uint(b, 31, 1) == 0
                &&& c.block_size == grammar::uint(b, 16, 4)
                &&& c.sample_rate == grammar::uint(b, 20, 4)
                &&& c.assignment == grammar::uint(b, 24, 4)
                &&& c.sample_size == grammar::uint(b, 28, 3)
                &&& c.block_size < 16 && c.sample_rate < 16 && c.assignment < 16 && c.sample_size
                    < 8
                &&& final(br).bit_pos() == 32
            }),
            Err(e) => ({
                let b = old(br).bits();
                if !grammar::room(b, 0, 14) {
                    e == DecodeError::Truncated
                } else if grammar::uint(b, 0, 14) != 0x3FFE {
                    e == DecodeError::BadFrameHeader("sync")
                } else if !grammar::room(b, 14, 1) {
                    e == DecodeError::Truncated
                } else if grammar::uint(b, 14, 1) != 0 {
                    e == DecodeError::BadFrameHeader("reserved")
                } else if !grammar::room(b, 15, 17) {
                    e == DecodeError::Truncated
                } else {
                    grammar::uint(b, 31, 1) != 0 && e == DecodeError::BadFrameHeader("reserved2")
                }
            }),
        },
{
    proof {
        lemma2_to64();
    }
    let sync: u32 = match take_bits(br, 14) {
        Ok(v) => v,
        Err(e) => {
            return Err(e);
        },
    };
    if sync != 0x3FFE {
        return Err(DecodeError::BadFrameHeader("sync"));
    }
    let reserved: u32 = match take_bits(br, 1) {
        Ok(v) => v,
        Err(e) => {
            return Err(e);
        },
    };
    if reserved != 0 {
        return Err(DecodeError::BadFrameHeader("reserved"));
    }
    // The blocking strategy only says how the frame number counts.
    let _blocking: u32 = match take_bits(br, 1) {
        Ok(v) => v,
        Err(e) => {
            return Err(e);
        },
    };
    let block_size: u32 = match take_bits(br, 4) {
        Ok(v) => v,
        Err(e) => {
            return Err(e);
        },
    };
    let sample_rate: u32 = match take_bits(br, 4) {
        Ok(v) => v,
        Err(e) => {
            return Err(e);
        },
    };
    let assignment: u32 = match take_bits(br, 4) {
        Ok(v) => v,
        Err(e) => {
            return Err(e);
        },
    };
    let sample_size: u32 = match take_bits(br, 3) {
        Ok(v) => v,
        Err(e) => {
            return Err(e);
        },
    };
    let reserved2: u32 = match take_bits(br, 1) {
        Ok(v) => v,
        Err(e) => {
            return Err(e);
        },
    };
    if reserved2 != 0 {
        return Err(DecodeError::BadFrameHeader("reserved2"));
    }
    Ok(Codes { block_size, sample_rate, assignment, sample_size })
}

/// The block size behind its code; codes 6 and 7 read it from the stream.
fn header_block_size(br: &mut BitReader, code: u32) -> (r: Result<usize, DecodeError>)
    requires
        old(br).wf(),
        code < 16,
    ensures
        final(br).wf(),
        final(br).bits() == old(br).bits(),
        match r {
            Ok(bs) => code != 0 && grammar::room(
                old(br).bits(),
                old(br).bit_pos(),
                grammar::block_size_extra(code as nat),
            ) && bs == grammar::block_size_of(
                code as nat,
                grammar::uint(
                    old(br).bits(),
                    old(br).bit_pos(),
                    grammar::block_size_extra(code as nat),
                ),
            ) && 1 <= bs <= 65536 && final(br).bit_pos() == old(br).bit_pos()
                + grammar::block_size_extra(code as nat),
            Err(e) => if code == 0 {
                e == DecodeError::BadFrameHeader("blocksize code 0")
            } else {
                e == DecodeError::Truncated && !grammar::room(
                    old(br).bits(),
                    old(br).bit_pos(),
                    grammar::block_size_extra(code as nat),
                )
            },
        },
{
    proof {
        lemma2_to64();
        br.lemma_pos_bound();
    }
    if code == 0 {
        return Err(DecodeError::BadFrameHeader("blocksize code 0"));
    }
    if code == 1 {
        return Ok(192);
    }
    if code <= 5 {
        proof {
            arith::lemma_pow2_monotone((code - 2) as nat, 3);
        }
        return Ok(576 * arith::power(code - 2));
    }
    if code >= 8 {
        proof {
            arith::lemma_pow2_monotone((code - 8) as nat, 7);
        }
        return Ok(256 * arith::power(code - 8));
    }
    let width: u32 = if code == 6 {
        8
    } else {
        16
    };
    match take_bits(br, width) {
        Ok(v) => Ok(v as usize + 1),
        Err(e) => Err(e),
    }
}

/// The sample rate behind its code; codes 12 to 14 read it from the stream, and
/// code 0 leaves it to STREAMINFO.
fn header_sample_rate(br: &mut BitReader, code: u32) -> (r: Result<Option<u32>, DecodeError>)
    requires
        old(br).wf(),
        code < 16,
    ensures
        final(br).wf(),
        final(br).bits() == old(br).bits(),
        match r {
            Ok(rate) => code != 15 && grammar::room(
                old(br).bits(),
                old(br).bit_pos(),
                grammar::sample_rate_extra(code as nat),
            ) && final(br).bit_pos() == old(br).bit_pos() + grammar::sample_rate_extra(code as nat)
                && match grammar::header_rate(old(br).bits(), code as nat, old(br).bit_pos()) {
                Some(v) => rate matches Some(u) && u == v,
                None => rate is None,
            },
            Err(e) => if code == 15 {
                e == DecodeError::BadFrameHeader("sample-rate code 15")
            } else {
                e == DecodeError::Truncated && !grammar::room(
                    old(br).bits(),
                    old(br).bit_pos(),
                    grammar::sample_rate_extra(code as nat),
                )
            },
        },
{
    proof {
        lemma2_to64();
        br.lemma_pos_bound();
    }
    if code == 15 {
        return Err(DecodeError::BadFrameHeader("sample-rate code 15"));
    }
    if code <= 11 {
        return Ok(table_rate(code));
    }
    let width: u32 = if code == 12 {
        8
    } else {
        16
    };
    match take_bits(br, width) {
        Ok(v) => Ok(
            Some(
                if code == 12 {
                    1000 * v
                } else if code == 13 {
                    v
                } else {
                    10 * v
                },
            ),
        ),
        Err(e) => Err(e),
    }
}

/// The sample rates that need no more than their code.
fn table_rate(code: u32) -> (r: Option<u32>)
    requires
        code <= 11,
    ensures
        forall|b: Seq<bool>, p: int|
            match #[trigger] grammar::header_rate(b, code as nat, p) {
                Some(v) => r matches Some(u) && u == v,
                None => r is None,
            },
{
    match code {
        1 => Some(88200),
        2 => Some(176400),
        3 => Some(192000),
        4 => Some(8000),
        5 => Some(16000),
        6 => Some(22050),
        7 => Some(24000),
        8 => Some(32000),
        9 => Some(44100),
        10 => Some(48000),
        11 => Some(96000),
        _ => None,
    }
}

/// The sample size behind its code; code 0 is STREAMINFO's own.
fn sample_size(code: u32, stream: u32) -> (r: Option<u32>)
    requires
        code < 8,
    ensures
        match grammar::depth_of(code as nat, stream as nat) {
            Some(d) => r matches Some(v) && v == d,
            None => r is None,
        },
        1 <= stream <= 32 ==> (r matches Some(v) ==> 1 <= v <= 32),
{
    if code == 0 {
        Some(stream)
    } else if code == 1 {
        Some(8)
    } else if code == 2 {
        Some(12)
    } else if code == 4 {
        Some(16)
    } else if code == 5 {
        Some(20)
    } else if code == 6 {
        Some(24)
    } else if code == 7 {
        Some(32)
    } else {
        None
    }
}

/// Read the header of the frame that `rest` starts with.
fn decode_header(br: &mut BitReader, rest: &[u8], info: &StreamInfo) -> (r: Result<
    Header,
    DecodeError,
>)
    requires
        old(br).wf(),
        old(br).bits() == bits::byte_bits(rest@),
        old(br).bit_pos() == 0,
        1 <= info.bits_per_sample <= 32,
    ensures
        final(br).wf(),
        final(br).bits() == old(br).bits(),
        match grammar::read_header(rest@, info@) {
            Ok(h) => r matches Ok(v) && v.agrees(h) && final(br).bit_pos() == h.end,
            Err(e) => r == Err::<Header, DecodeError>(e),
        },
{
    broadcast use bits::group_bits_len;

    proof {
        reveal(grammar::read_header);
    }
    let c: Codes = match header_codes(br) {
        Ok(c) => c,
        Err(e) => {
            return Err(e);
        },
    };
    proof {
        number::lemma_read_number_pos(bits::byte_bits(rest@), 32);
        lemma2_to64();
    }
    match number::read_utf8(br) {
        Some(_number) => {},
        None => {
            return Err(DecodeError::BadFrameHeader("frame number"));
        },
    }
    let ghost p = br.bit_pos();
    assert(grammar::read_header(rest@, info@) == grammar::read_header_codes(rest@, info@, p));
    let block_size: usize = match header_block_size(br, c.block_size) {
        Ok(v) => v,
        Err(e) => {
            return Err(e);
        },
    };
    let rate: Option<u32> = match header_sample_rate(br, c.sample_rate) {
        Ok(v) => v,
        Err(e) => {
            return Err(e);
        },
    };
    let depth: u32 = match sample_size(c.sample_size, info.bits_per_sample) {
        Some(v) => v,
        None => {
            return Err(DecodeError::BadFrameHeader("sample-size code"));
        },
    };
    // The CRC-8 covers the header up to the CRC byte itself.
    let len: usize = br.byte_pos();
    let check: u32 = match take_bits(br, 8) {
        Ok(v) => v,
        Err(e) => {
            return Err(e);
        },
    };
    let head: &[u8] = vstd::slice::slice_subrange(rest, 0, len);
    assert(head@ =~= rest@.take(len as int));
    if crc::crc8(head) as u32 != check {
        return Err(DecodeError::BadFrameHeader("crc8"));
    }
    if c.assignment > 10 {
        return Err(DecodeError::BadFrameHeader("channel assignment"));
    }
    let channels: u32 = if c.assignment <= 7 {
        c.assignment + 1
    } else {
        2
    };
    if channels != info.channels {
        return Err(DecodeError::Inconsistent("frame channels"));
    }
    if let Some(v) = rate {
        if v != info.sample_rate {
            return Err(DecodeError::Inconsistent("frame sample rate"));
        }
    }
    Ok(Header { block_size, depth, assignment: c.assignment })
}

/// The samples of each channel.
pub open spec fn planes(v: Seq<Vec<i32>>) -> Seq<Seq<i32>> {
    Seq::new(v.len(), |c: int| v[c]@)
}

/// Left/side: the right channel is the left one minus the side.
fn right_from_side(left: &Vec<i32>, side: &Vec<i32>) -> (r: Vec<i32>)
    requires
        left@.len() == side@.len(),
    ensures
        r@ == Seq::new(left@.len(), |i: int| arith::wrap32(left@[i] - side@[i])),
{
    let mut r: Vec<i32> = Vec::with_capacity(left.len());
    let mut i: usize = 0;
    while i < left.len()
        invariant
            i <= left@.len() == side@.len(),
            r@ == Seq::new(i as nat, |j: int| arith::wrap32(left@[j] - side@[j])),
        decreases left@.len() - i,
    {
        proof {
            arith::lemma_truncate_i64((left@[i as int] - side@[i as int]) as i64);
        }
        r.push((left[i] as i64 - side[i] as i64) as i32);
        i = i + 1;
        assert(r@ =~= Seq::new(i as nat, |j: int| arith::wrap32(left@[j] - side@[j])));
    }
    r
}

/// Side/right: the left channel is the side plus the right one.
fn left_from_side(side: &Vec<i32>, right: &Vec<i32>) -> (r: Vec<i32>)
    requires
        side@.len() == right@.len(),
    ensures
        r@ == Seq::new(side@.len(), |i: int| arith::wrap32(side@[i] + right@[i])),
{
    let mut r: Vec<i32> = Vec::with_capacity(side.len());
    let mut i: usize = 0;
    while i < side.len()
        invariant
            i <= side@.len() == right@.len(),
            r@ == Seq::new(i as nat, |j: int| arith::wrap32(side@[j] + right@[j])),
        decreases side@.len() - i,
    {
        proof {
            arith::lemma_truncate_i64((side@[i as int] + right@[i as int]) as i64);
        }
        r.push((side[i] as i64 + right[i] as i64) as i32);
        i = i + 1;
        assert(r@ =~= Seq::new(i as nat, |j: int| arith::wrap32(side@[j] + right@[j])));
    }
    r
}

/// The left and the right sample of a mid/side pair.
fn from_mid_side(m: i32, s: i32) -> (r: (i32, i32))
    ensures
        r.0 == grammar::mid_side_left(m, s),
        r.1 == grammar::mid_side_right(m, s),
{
    let side: i64 = s as i64;
    let odd: i64 = if s % 2 == 0 {
        0
    } else {
        1
    };
    let mid: i64 = 2 * m as i64 + odd;
    proof {
        arith::lemma_i64_shr((mid + side) as i64, 1);
        arith::lemma_i64_shr((mid - side) as i64, 1);
        lemma2_to64();
        arith::lemma_truncate_i64(((mid + side) as i64) >> 1u32);
        arith::lemma_truncate_i64(((mid - side) as i64) >> 1u32);
    }
    (((mid + side) >> 1u32) as i32, ((mid - side) >> 1u32) as i32)
}

/// Both channels of a mid/side pair.
fn both_from_mid_side(mid: &Vec<i32>, side: &Vec<i32>) -> (r: (Vec<i32>, Vec<i32>))
    requires
        mid@.len() == side@.len(),
    ensures
        r.0@ == Seq::new(mid@.len(), |i: int| grammar::mid_side_left(mid@[i], side@[i])),
        r.1@ == Seq::new(mid@.len(), |i: int| grammar::mid_side_right(mid@[i], side@[i])),
{
    let mut left: Vec<i32> = Vec::with_capacity(mid.len());
    let mut right: Vec<i32> = Vec::with_capacity(mid.len());
    let mut i: usize = 0;
    while i < mid.len()
        invariant
            i <= mid@.len() == side@.len(),
            left@ == Seq::new(i as nat, |j: int| grammar::mid_side_left(mid@[j], side@[j])),
            right@ == Seq::new(i as nat, |j: int| grammar::mid_side_right(mid@[j], side@[j])),
        decreases mid@.len() - i,
    {
        let (l, r): (i32, i32) = from_mid_side(mid[i], side[i]);
        left.push(l);
        right.push(r);
        i = i + 1;
        assert(left@ =~= Seq::new(i as nat, |j: int| grammar::mid_side_left(mid@[j], side@[j])));
        assert(right@ =~= Seq::new(i as nat, |j: int| grammar::mid_side_right(mid@[j], side@[j])));
    }
    (left, right)
}

/// Turn the subframes of an assignment into the channels behind them.
fn undo_stereo(assignment: u32, subs: &mut Vec<Vec<i32>>)
    requires
        8 <= assignment <= 10 ==> old(subs)@.len() == 2 && old(subs)@[0]@.len() == old(
            subs,
        )@[1]@.len(),
    ensures
        planes(final(subs)@) == grammar::undo_stereo(assignment as nat, planes(old(subs)@)),
{
    if assignment == 8 {
        let right: Vec<i32> = right_from_side(&subs[0], &subs[1]);
        subs.set(1, right);
        assert(planes(subs@) =~= grammar::undo_stereo(8, planes(old(subs)@)));
    } else if assignment == 9 {
        let left: Vec<i32> = left_from_side(&subs[0], &subs[1]);
        subs.set(0, left);
        assert(planes(subs@) =~= grammar::undo_stereo(9, planes(old(subs)@)));
    } else if assignment == 10 {
        let (left, right): (Vec<i32>, Vec<i32>) = both_from_mid_side(&subs[0], &subs[1]);
        subs.set(0, left);
        subs.set(1, right);
        assert(planes(subs@) =~= grammar::undo_stereo(10, planes(old(subs)@)));
    }
}

/// A decoded frame and its length in bytes.
struct Frame {
    block_size: usize,
    channels: Vec<Vec<i32>>,
    len: usize,
}

/// Decode the subframes behind a header.
fn decode_subframes(
    br: &mut BitReader,
    h: &Header,
    channels: u32,
    Ghost(model): Ghost<grammar::HeaderModel>,
) -> (r: Result<Vec<Vec<i32>>, DecodeError>)
    requires
        old(br).wf(),
        h.agrees(model),
        !wide::is_wide(model),
        old(br).bit_pos() == model.end,
        channels <= 8,
    ensures
        final(br).wf(),
        final(br).bits() == old(br).bits(),
        match grammar::read_subframes(old(br).bits(), model, channels as nat) {
            Ok((subs, q)) => r matches Ok(v) && planes(v@) == subs && final(br).bit_pos() == q,
            Err(e) => r == Err::<Vec<Vec<i32>>, DecodeError>(e),
        },
{
    let ghost b = br.bits();
    let mut subs: Vec<Vec<i32>> = Vec::new();
    let mut c: u32 = 0;
    assert(planes(subs@) =~= Seq::<Seq<i32>>::empty());
    while c < channels
        invariant
            c <= channels <= 8,
            h.agrees(model),
            !wide::is_wide(model),
            br.wf(),
            br.bits() == b,
            b == old(br).bits(),
            grammar::read_subframes(b, model, c as nat) matches Ok((s, q)) && q == br.bit_pos()
                && planes(subs@) == s,
        decreases channels - c,
    {
        let ghost before = grammar::read_subframes(b, model, c as nat)->Ok_0;
        // A side channel takes one bit more.
        let side: bool = (h.assignment == 8 || h.assignment == 10) && c == 1 || h.assignment == 9
            && c == 0;
        let bps: u32 = if side {
            h.depth + 1
        } else {
            h.depth
        };
        match decode_subframe(br, h.block_size, bps) {
            Ok(v) => {
                let ghost now = subs@;
                subs.push(v);
                assert(planes(subs@) =~= planes(now).push(v@));
            },
            Err(e) => {
                proof {
                    grammar::lemma_read_subframes_err(b, model, (c + 1) as nat, channels as nat);
                }
                return Err(e);
            },
        }
        c = c + 1;
    }
    Ok(subs)
}

/// Decode the subframes behind a header and undo their stereo mode; `None`
/// where that leaves the range of a sample.
fn decode_channels(
    br: &mut BitReader,
    h: &Header,
    channels: u32,
    Ghost(model): Ghost<grammar::HeaderModel>,
) -> (r: Result<Option<Vec<Vec<i32>>>, DecodeError>)
    requires
        old(br).wf(),
        h.agrees(model),
        old(br).bit_pos() == model.end,
        channels <= 8,
        channels == grammar::channels_of(model.assignment),
    ensures
        final(br).wf(),
        final(br).bits() == old(br).bits(),
        match grammar::read_channels(old(br).bits(), model, channels as nat) {
            Ok((c, q)) => r matches Ok(v) && final(br).bit_pos() == q && match c {
                Some(p) => v matches Some(u) && planes(u@) == p,
                None => v is None,
            },
            Err(e) => r == Err::<Option<Vec<Vec<i32>>>, DecodeError>(e),
        },
{
    let ghost b = br.bits();
    proof {
        br.lemma_pos_bound();
    }
    if h.depth == 32 && 8 <= h.assignment {
        proof {
            wide::lemma_read_pair_pos(b, model);
        }
        return match wide::decode_pair(br, h.block_size, h.assignment, Ghost(model)) {
            Ok((x, side)) => Ok(wide::undo(h.assignment, &x, &side)),
            Err(e) => Err(e),
        };
    }
    proof {
        grammar::lemma_read_subframes_pos(b, model, channels as nat);
    }
    let mut subs: Vec<Vec<i32>> = match decode_subframes(br, h, channels, Ghost(model)) {
        Ok(v) => v,
        Err(e) => {
            return Err(e);
        },
    };
    proof {
        let s = grammar::read_subframes(b, model, channels as nat)->Ok_0;
        assert(subs@.len() == s.0.len());
        assert(forall|c: int| 0 <= c < subs@.len() ==> #[trigger] subs@[c]@ == s.0[c]);
    }
    undo_stereo(h.assignment, &mut subs);
    Ok(Some(subs))
}

/// Decode the frame that `rest` starts with.
fn decode_frame(rest: &[u8], info: &StreamInfo) -> (r: Result<Frame, DecodeError>)
    requires
        1 <= info.bits_per_sample <= 32,
        1 <= info.channels <= 8,
    ensures
        match grammar::read_frame(rest@, info@) {
            Ok(f) => r matches Ok(v) && v.block_size == f.block_size && planes(v.channels@)
                == f.channels && v.len == f.len,
            Err(e) => r == Err::<Frame, DecodeError>(e),
        },
{
    broadcast use bits::group_bits_len;

    let ghost b = bits::byte_bits(rest@);
    proof {
        reveal(grammar::read_frame);
    }
    let mut br: BitReader = BitReader::new(rest);
    let h: Header = match decode_header(&mut br, rest, info) {
        Ok(h) => h,
        Err(e) => {
            return Err(e);
        },
    };
    let ghost model = grammar::read_header(rest@, info@)->Ok_0;
    proof {
        grammar::lemma_read_header_pos(rest@, info@);
        grammar::lemma_read_channels_pos(b, model, info.channels as nat);
    }
    let decoded: Option<Vec<Vec<i32>>> = match decode_channels(
        &mut br,
        &h,
        info.channels,
        Ghost(model),
    ) {
        Ok(v) => v,
        Err(e) => {
            return Err(e);
        },
    };
    // The CRC-16 covers the whole frame up to the CRC itself.
    br.align_to_byte();
    let len: usize = br.byte_pos();
    let check: u32 = match take_bits(&mut br, 16) {
        Ok(v) => v,
        Err(e) => {
            return Err(e);
        },
    };
    let body: &[u8] = vstd::slice::slice_subrange(rest, 0, len);
    assert(body@ =~= rest@.take(len as int));
    if crc::crc16(body) as u32 != check {
        return Err(DecodeError::BadFrameCrc);
    }
    match decoded {
        Some(channels) => Ok(
            Frame { block_size: h.block_size, channels, len: br.byte_pos() },
        ),
        None => Err(DecodeError::BadSubframe("sample out of range")),
    }
}

/// Parse the 34 bytes of a STREAMINFO block.
fn parse_streaminfo(b: &[u8]) -> (r: StreamInfo)
    requires
        b@.len() == 34,
    ensures
        r@ == grammar::info_of(b@),
        1 <= r.channels <= 8,
        1 <= r.bits_per_sample <= 32,
{
    broadcast use bits::group_bits_len;

    let ghost bits = bits::byte_bits(b@);
    proof {
        lemma2_to64();
        bits::lemma_value_bound(bits.subrange(100, 103));
        bits::lemma_value_bound(bits.subrange(103, 108));
        bits::lemma_value_bound(bits.subrange(108, 112));
        bits::lemma_value_concat(bits.subrange(108, 112), bits.subrange(112, 144));
        assert(bits.subrange(108, 112) + bits.subrange(112, 144) =~= bits.subrange(108, 144));
    }
    let mut br: BitReader = BitReader::new(b);
    let min_block_size: u32 = br.read_bits(16).unwrap();
    let max_block_size: u32 = br.read_bits(16).unwrap();
    let min_frame_size: u32 = br.read_bits(24).unwrap();
    let max_frame_size: u32 = br.read_bits(24).unwrap();
    let sample_rate: u32 = br.read_bits(20).unwrap();
    let channels: u32 = br.read_bits(3).unwrap() + 1;
    let bits_per_sample: u32 = br.read_bits(5).unwrap() + 1;
    let hi: u64 = br.read_bits(4).unwrap() as u64;
    let lo: u64 = br.read_bits(32).unwrap() as u64;
    let total_samples: u64 = hi * 0x1_0000_0000 + lo;
    let mut md5: [u8; 16] = [0u8; 16];
    let mut i: usize = 0;
    while i < 16
        invariant
            i <= 16,
            b@.len() == 34,
            forall|j: int| 0 <= j < i ==> #[trigger] md5@[j] == b@[18 + j],
        decreases 16 - i,
    {
        md5[i] = b[18 + i];
        i = i + 1;
    }
    assert(md5@ =~= b@.subrange(18, 34));
    StreamInfo {
        min_block_size,
        max_block_size,
        min_frame_size,
        max_frame_size,
        sample_rate,
        channels,
        bits_per_sample,
        total_samples,
        md5,
    }
}

/// What a decoder holds: the stream, the position of the next frame's first
/// byte, and the STREAMINFO.
#[verifier::ext_equal]
pub struct DecoderModel {
    pub data: Seq<u8>,
    pub pos: int,
    pub info: grammar::InfoModel,
}

/// Streaming FLAC decoder over a complete in-memory stream.
pub struct Decoder<'a> {
    data: &'a [u8],
    /// Byte offset of the next frame's first byte.
    pos: usize,
    info: StreamInfo,
}

impl<'a> View for Decoder<'a> {
    type V = DecoderModel;

    closed spec fn view(&self) -> DecoderModel {
        DecoderModel { data: self.data@, pos: self.pos as int, info: self.info@ }
    }
}

/// The STREAMINFO seen so far.
spec fn seen(info: Option<StreamInfo>) -> Option<grammar::InfoModel> {
    match info {
        Some(i) => Some(i@),
        None => None,
    }
}

impl<'a> Decoder<'a> {
    /// The next frame starts within the stream or at its end, and the
    /// STREAMINFO names 1 to 8 channels of 1 to 32 bits.
    pub open spec fn wf(&self) -> bool {
        &&& 0 <= self@.pos <= self@.data.len()
        &&& 1 <= self@.info.channels <= 8
        &&& 1 <= self@.info.bits_per_sample <= 32
    }

    /// Parse the marker and the metadata blocks. Fails fast on non-FLAC input.
    pub fn new(data: &'a [u8]) -> (r: Result<Self, DecodeError>)
        ensures
            match grammar::open_stream(data@) {
                Ok((info, pos)) => r matches Ok(d) && d.wf() && d@ == (DecoderModel {
                    data: data@,
                    pos,
                    info,
                }),
                Err(e) => r matches Err(x) && x == e,
            },
    {
        if data.len() < 42 {
            return Err(DecodeError::NotFlac);
        }
        if data[0] != 0x66 || data[1] != 0x4C || data[2] != 0x61 || data[3] != 0x43 {
            proof {
                let m = data@.subrange(0, 4);
                assert(m[0] == data@[0] && m[1] == data@[1] && m[2] == data@[2] && m[3] == data@[3]);
                assert(m != grammar::marker());
            }
            return Err(DecodeError::NotFlac);
        }
        assert(data@.subrange(0, 4) =~= grammar::marker());
        let mut pos: usize = 4;
        let mut info: Option<StreamInfo> = None;
        let mut last: bool = false;
        while !last
            invariant
                4 <= pos <= data@.len(),
                data@.len() >= 42,
                data@.subrange(0, 4) == grammar::marker(),
                info matches Some(i) ==> 1 <= i.channels <= 8 && 1 <= i.bits_per_sample <= 32,
                grammar::read_blocks(data@, 4, None) == if last {
                    Ok((seen(info), pos as int))
                } else {
                    grammar::read_blocks(data@, pos as int, seen(info))
                },
            decreases data@.len() - pos,
        {
            if data.len() - pos < 4 {
                return Err(DecodeError::Truncated);
            }
            let hdr: u8 = data[pos];
            let kind: u8 = hdr % 128;
            let len: usize = data[pos + 1] as usize * 0x1_0000 + data[pos + 2] as usize * 0x100
                + data[pos + 3] as usize;
            let body: usize = pos + 4;
            if data.len() - body < len {
                return Err(DecodeError::Truncated);
            }
            if kind == 0 {
                if len < 34 {
                    return Err(DecodeError::NotFlac);
                }
                let block: &[u8] = vstd::slice::slice_subrange(data, body, body + 34);
                info = Some(parse_streaminfo(block));
            }
            pos = body + len;
            last = hdr >= 128;
        }
        match info {
            None => Err(DecodeError::NotFlac),
            Some(i) => Ok(Decoder { data, pos, info: i }),
        }
    }

    pub fn streaminfo(&self) -> (r: &StreamInfo)
        ensures
            r@ == self@.info,
    {
        &self.info
    }

    /// Decode the next frame into `out` (planar, one `Vec` per channel; each
    /// channel's samples are appended). Returns the frame's block size, or
    /// `None` at the end of the stream.
    pub fn next_frame(&mut self, out: &mut [Vec<i32>]) -> (r: Result<Option<usize>, DecodeError>)
        requires
            old(self).wf(),
        ensures
            final(self).wf(),
            if old(self)@.pos >= old(self)@.data.len() {
                &&& r == Ok::<Option<usize>, DecodeError>(None)
                &&& final(self)@ == old(self)@
                &&& planes(final(out)@) == planes(old(out)@)
            } else {
                match grammar::read_frame(old(self)@.data.skip(old(self)@.pos), old(self)@.info) {
                    Ok(f) => {
                        &&& r matches Ok(Some(bs)) && bs == f.block_size
                        &&& final(self)@ == (DecoderModel {
                            pos: old(self)@.pos + f.len,
                            ..old(self)@
                        })
                        &&& planes(final(out)@) == grammar::extended(
                            planes(old(out)@),
                            f.channels,
                        )
                    },
                    Err(e) => {
                        &&& r == Err::<Option<usize>, DecodeError>(e)
                        &&& final(self)@ == old(self)@
                        &&& planes(final(out)@) == planes(old(out)@)
                    },
                }
            },
    {
        if self.pos >= self.data.len() {
            return Ok(None);
        }
        let rest: &[u8] = vstd::slice::slice_subrange(self.data, self.pos, self.data.len());
        assert(rest@ =~= self.data@.skip(self.pos as int));
        let frame: Frame = match decode_frame(rest, &self.info) {
            Ok(f) => f,
            Err(e) => {
                return Err(e);
            },
        };
        proof {
            grammar::lemma_frame_len(rest@, self.info@);
        }
        let ghost before = planes(out@);
        let ghost more = planes(frame.channels@);
        let mut c: usize = 0;
        while c < out.len() && c < frame.channels.len()
            invariant
                c <= out@.len(),
                c <= more.len(),
                out@.len() == before.len(),
                more == planes(frame.channels@),
                forall|j: int| 0 <= j < c ==> (#[trigger] out@[j])@ == before[j] + more[j],
                forall|j: int| c <= j < before.len() ==> (#[trigger] out@[j])@ == before[j],
            decreases out@.len() - c,
        {
            out[c].extend_from_slice(frame.channels[c].as_slice());
            c = c + 1;
        }
        assert(planes(out@) =~= grammar::extended(before, more));
        self.pos = self.pos + frame.len;
        Ok(Some(frame.block_size))
    }
}

/// Decode a complete FLAC stream to its STREAMINFO and planar samples.
pub fn decode(data: &[u8]) -> (r: Result<(StreamInfo, Vec<Vec<i32>>), DecodeError>)
    ensures
        match grammar::decode_stream(data@) {
            Ok((info, channels)) => r matches Ok(v) && v.0@ == info && planes(v.1@) == channels,
            Err(e) => r matches Err(x) && x == e,
        },
{
    let mut dec: Decoder = match Decoder::new(data) {
        Ok(d) => d,
        Err(e) => {
            return Err(e);
        },
    };
    let info: StreamInfo = dec.streaminfo().clone();
    let mut out: Vec<Vec<i32>> = Vec::new();
    let mut c: u32 = 0;
    while c < info.channels
        invariant
            c <= info.channels,
            planes(out@) == grammar::no_samples(c as nat),
        decreases info.channels - c,
    {
        let ghost now = planes(out@);
        out.push(Vec::new());
        assert(planes(out@) =~= now.push(Seq::empty()));
        c = c + 1;
        assert(planes(out@) =~= grammar::no_samples(c as nat));
    }
    let mut more: bool = true;
    while more
        invariant
            dec.wf(),
            dec@.data == data@,
            dec@.info == info@,
            match grammar::open_stream(data@) {
                Ok((i, pos)) => i == info@ && grammar::read_frames(
                    data@,
                    pos,
                    i,
                    grammar::no_samples(i.channels),
                ) == grammar::read_frames(data@, dec@.pos, info@, planes(out@)),
                Err(e) => false,
            },
            more || dec@.pos >= data@.len(),
        decreases data@.len() - dec@.pos, bits::bit_val(more),
    {
        proof {
            grammar::lemma_frame_len(data@.skip(dec@.pos), info@);
        }
        match dec.next_frame(&mut out) {
            Ok(Some(_)) => {},
            Ok(None) => {
                more = false;
            },
            Err(e) => {
                return Err(e);
            },
        }
    }
    Ok((info, out))
}

/// A field of `StreamInfo` is the field of that name.
pub proof fn lemma_info_view(s: StreamInfo)
    ensures
        s@.min_block_size == s.min_block_size,
        s@.max_block_size == s.max_block_size,
        s@.min_frame_size == s.min_frame_size,
        s@.max_frame_size == s.max_frame_size,
        s@.sample_rate == s.sample_rate,
        s@.channels == s.channels,
        s@.bits_per_sample == s.bits_per_sample,
        s@.total_samples == s.total_samples,
        s@.md5 == s.md5@,
{
}

} // verus!
