//! The FLAC encoder — lossless. It buffers the whole stream and emits a
//! complete native FLAC stream: framing, STREAMINFO and MD5 included.
use crate::arm;
use crate::arm::{ArmInput, ArmModel};
use crate::bitio::BitWriter;
use crate::bits;
use crate::choice;
use crate::choice::{AnalysisModel, ArmAnalysis, LPC_MAX_ORDER};
use crate::decode;
use crate::frame;
use crate::grammar;
use crate::layout;
use crate::md5;
use crate::pcm;
use crate::stats;
use crate::stats::{EncodeStats, Event};
use vstd::prelude::*;

verus! {

/// Nominal samples per channel per FLAC frame.
pub const BLOCK_SIZE: usize = 4096;

/// Encoder configuration and stream errors.
#[derive(Debug, Clone, PartialEq, Eq)]
pub enum EncodeError {
    /// FLAC's channel-assignment field caps independent channels at 8.
    TooManyChannels(u32),
    /// Zero channels.
    NoChannels,
    /// Bits per sample outside the supported 8/16/24 set.
    UnsupportedBps(u32),
    /// Sample rate must fit STREAMINFO's 20-bit field and be non-zero.
    BadSampleRate(u32),
    /// Samples that do not fill every channel alike.
    RaggedInput,
}

// ---------------------------------------------------------------------------
// Model
// ---------------------------------------------------------------------------
/// An encoder's configuration, the samples it buffers, and the analyses of the
/// arms of their blocks.
#[verifier::ext_equal]
pub struct EncoderModel {
    pub sample_rate: nat,
    pub bps: nat,
    pub max_lpc_order: nat,
    pub chans: Seq<Seq<i32>>,
    pub analysis: Seq<Seq<AnalysisModel>>,
}

impl EncoderModel {
    /// 1 to 8 channels of equal length, 8, 16 or 24 bits, a rate of 20 bits.
    pub open spec fn wf(self) -> bool {
        &&& 1 <= self.chans.len() <= 8
        &&& forall|c: int|
            0 <= c < self.chans.len() ==> (#[trigger] self.chans[c]).len() == self.len()
        &&& self.bps == 8 || self.bps == 16 || self.bps == 24
        &&& 1 <= self.sample_rate < 0x10_0000
        &&& self.max_lpc_order <= LPC_MAX_ORDER
    }

    /// Samples per channel.
    pub open spec fn len(self) -> nat {
        self.chans[0].len()
    }

    /// The encoder with more samples behind those it buffers.
    pub open spec fn with(self, more: Seq<Seq<i32>>) -> EncoderModel {
        EncoderModel { chans: grammar::extended(self.chans, more), ..self }
    }
}

/// The highest LPC order that a compression level searches.
pub open spec fn searched_order(level: nat) -> nat {
    if level <= 2 {
        4
    } else if level <= 5 {
        8
    } else {
        12
    }
}

/// How many blocks `n` samples fill.
pub open spec fn block_count(n: nat) -> nat {
    (n + 4095) / 4096
}

/// The end of block `k` of `n` samples.
pub open spec fn block_end(n: nat, k: int) -> int {
    crate::arith::min(4096 * (k + 1), n as int)
}

/// Block `k` of every channel.
pub open spec fn block_at(chans: Seq<Seq<i32>>, k: int) -> Seq<Seq<i32>> {
    Seq::new(
        chans.len(),
        |c: int| chans[c].subrange(4096 * k, block_end(chans[0].len(), k)),
    )
}

/// The analysis of block `k`; empty where it is missing.
pub open spec fn list_at(all: Seq<Seq<AnalysisModel>>, k: int) -> Seq<AnalysisModel> {
    if 0 <= k < all.len() {
        all[k]
    } else {
        Seq::empty()
    }
}

/// Frame `k` of a stream.
#[verifier::opaque]
pub open spec fn frame_at(e: EncoderModel, all: Seq<Seq<AnalysisModel>>, k: nat) -> Seq<u8> {
    frame::frame_of(
        k as u64,
        block_at(e.chans, k as int),
        e.bps,
        list_at(all, k as int),
        e.max_lpc_order,
    )
}

/// The first `k` frames.
pub open spec fn frames(e: EncoderModel, all: Seq<Seq<AnalysisModel>>, k: nat) -> Seq<u8>
    decreases k,
{
    if k == 0 {
        Seq::empty()
    } else {
        frames(e, all, (k - 1) as nat) + frame_at(e, all, (k - 1) as nat)
    }
}

/// The length of the shortest of the first `k` frames; 0 where there is none.
pub open spec fn shortest(e: EncoderModel, all: Seq<Seq<AnalysisModel>>, k: nat) -> nat
    decreases k,
{
    if k == 0 {
        0
    } else {
        let last = frame_at(e, all, (k - 1) as nat).len();
        let before = shortest(e, all, (k - 1) as nat);
        if k == 1 || last < before {
            last
        } else {
            before
        }
    }
}

/// The length of the longest of the first `k` frames; 0 where there is none.
pub open spec fn longest(e: EncoderModel, all: Seq<Seq<AnalysisModel>>, k: nat) -> nat
    decreases k,
{
    if k == 0 {
        0
    } else {
        let last = frame_at(e, all, (k - 1) as nat).len();
        let before = longest(e, all, (k - 1) as nat);
        if last > before {
            last
        } else {
            before
        }
    }
}

/// What coding the first `k` blocks counts.
pub open spec fn history(e: EncoderModel, all: Seq<Seq<AnalysisModel>>, k: nat) -> Seq<Event>
    decreases k,
{
    if k == 0 {
        Seq::empty()
    } else {
        history(e, all, (k - 1) as nat) + frame::frame_events(
            block_at(e.chans, k - 1),
            e.bps,
            list_at(all, k - 1),
            e.max_lpc_order,
        )
    }
}

/// Counts from zero over a history of this length have room for a frame more.
proof fn lemma_history_room(h: Seq<Event>)
    requires
        h.len() <= u64::MAX - 73,
    ensures
        stats::room(stats::tallied(stats::none(), h), 73),
{
    assert(stats::room(stats::none(), u64::MAX as int));
    stats::lemma_room(stats::none(), h, u64::MAX as int);
    let counts = stats::tallied(stats::none(), h);
    assert forall|x: Event| #[trigger] counts(x) + 73 <= u64::MAX by {
        assert(counts(x) + (u64::MAX - h.len()) <= u64::MAX);
    }
}

/// The signature of the unencoded audio: the MD5 of its interleaved
/// little-endian samples at the coded bit depth.
pub open spec fn signature(e: EncoderModel) -> Seq<u8> {
    md5::md5_of(pcm::pcm_bytes(e.chans, e.bps / 8, e.len()))
}

/// The STREAMINFO block. Its block sizes are the nominal ones.
pub open spec fn info_bits(e: EncoderModel, shortest: nat, longest: nat) -> Seq<bool> {
    bits::field(4096, 16) + bits::field(4096, 16) + bits::field(shortest as int, 24) + bits::field(
        longest as int,
        24,
    ) + bits::field(e.sample_rate as int, 20) + bits::field(e.chans.len() - 1, 3) + bits::field(
        e.bps - 1,
        5,
    ) + bits::field(e.len() as int, 36) + bits::byte_bits(signature(e))
}

/// The marker and the header of the one metadata block: the last one, a
/// STREAMINFO of 34 bytes.
pub open spec fn stream_head() -> Seq<u8> {
    grammar::marker() + seq![0x80u8, 0u8, 0u8, 34u8]
}

/// The whole stream.
pub open spec fn stream(e: EncoderModel, all: Seq<Seq<AnalysisModel>>) -> Seq<u8> {
    let k = block_count(e.len());
    stream_head() + bits::pack(info_bits(e, shortest(e, all, k), longest(e, all, k))) + frames(
        e,
        all,
        k,
    )
}

/// The arms of a block that can be analyzed, in the order in which their
/// analyses are handed back: left, right, mid and side of a stereo block, the
/// channels of any other.
pub open spec fn arms_of(blocks: Seq<Seq<i32>>, bps: nat) -> Seq<ArmModel> {
    if blocks.len() == 2 {
        layout::stereo_arms(blocks[0], blocks[1], bps)
    } else {
        Seq::new(blocks.len(), |c: int| arm::arm_of(blocks[c], bps))
    }
}

/// The models of the analyses of all blocks.
pub open spec fn all_models(all: Seq<Vec<ArmAnalysis>>) -> Seq<Seq<AnalysisModel>> {
    Seq::new(all.len(), |k: int| layout::models(all[k]@))
}

// ---------------------------------------------------------------------------
// The encoder
// ---------------------------------------------------------------------------
/// A FLAC encoder. Feed planar or interleaved `i32` samples at the configured
/// bit depth, hand in the analysis of its blocks, and [`Encoder::finish`]
/// returns the complete stream.
pub struct Encoder {
    sample_rate: u32,
    bps: u32,
    max_lpc_order: usize,
    chans: Vec<Vec<i32>>,
    analysis: Vec<Vec<ArmAnalysis>>,
}

impl View for Encoder {
    type V = EncoderModel;

    closed spec fn view(&self) -> EncoderModel {
        EncoderModel {
            sample_rate: self.sample_rate as nat,
            bps: self.bps as nat,
            max_lpc_order: self.max_lpc_order as nat,
            chans: decode::planes(self.chans@),
            analysis: all_models(self.analysis@),
        }
    }
}

impl Encoder {
    /// The configuration is one that FLAC can hold, and all channels are
    /// equally long.
    pub open spec fn wf(&self) -> bool {
        self@.wf()
    }

    /// An encoder without samples, at the highest compression level.
    pub fn new(sample_rate: u32, channels: u32, bits_per_sample: u32) -> (r: Result<
        Self,
        EncodeError,
    >)
        ensures
            if channels == 0 {
                r == Err::<Encoder, EncodeError>(EncodeError::NoChannels)
            } else if channels > 8 {
                r == Err::<Encoder, EncodeError>(EncodeError::TooManyChannels(channels))
            } else if bits_per_sample != 8 && bits_per_sample != 16 && bits_per_sample != 24 {
                r == Err::<Encoder, EncodeError>(EncodeError::UnsupportedBps(bits_per_sample))
            } else if sample_rate == 0 || sample_rate >= 0x10_0000 {
                r == Err::<Encoder, EncodeError>(EncodeError::BadSampleRate(sample_rate))
            } else {
                r matches Ok(e) && e.wf() && e@ == (EncoderModel {
                    sample_rate: sample_rate as nat,
                    bps: bits_per_sample as nat,
                    max_lpc_order: 12,
                    chans: grammar::no_samples(channels as nat),
                    analysis: Seq::empty(),
                })
            },
    {
        if channels == 0 {
            return Err(EncodeError::NoChannels);
        }
        if channels > 8 {
            return Err(EncodeError::TooManyChannels(channels));
        }
        if bits_per_sample != 8 && bits_per_sample != 16 && bits_per_sample != 24 {
            return Err(EncodeError::UnsupportedBps(bits_per_sample));
        }
        if sample_rate == 0 || sample_rate >= 0x10_0000 {
            return Err(EncodeError::BadSampleRate(sample_rate));
        }
        let mut chans: Vec<Vec<i32>> = Vec::new();
        let mut c: u32 = 0;
        while c < channels
            invariant
                c <= channels,
                decode::planes(chans@) == grammar::no_samples(c as nat),
            decreases channels - c,
        {
            let ghost now = decode::planes(chans@);
            chans.push(Vec::new());
            assert(decode::planes(chans@) =~= now.push(Seq::empty()));
            c = c + 1;
            assert(decode::planes(chans@) =~= grammar::no_samples(c as nat));
        }
        let analysis: Vec<Vec<ArmAnalysis>> = Vec::new();
        assert(all_models(analysis@) =~= Seq::empty());
        Ok(
            Encoder {
                sample_rate,
                bps: bits_per_sample,
                max_lpc_order: LPC_MAX_ORDER,
                chans,
                analysis,
            },
        )
    }

    /// The speed-versus-ratio knob, from 0 to 8: it maps onto the highest LPC
    /// order searched.
    pub fn set_compression_level(&mut self, level: u32)
        requires
            old(self).wf(),
        ensures
            final(self).wf(),
            final(self)@ == (EncoderModel {
                max_lpc_order: if level <= 2 {
                    4
                } else if level <= 5 {
                    8
                } else {
                    12
                },
                ..old(self)@
            }),
            final(self)@.max_lpc_order == searched_order(level as nat),
    {
        self.max_lpc_order = if level <= 2 {
            4
        } else if level <= 5 {
            8
        } else {
            12
        };
    }

    /// Append as many samples to every channel.
    fn extend_all(&mut self, more: &Vec<Vec<i32>>, Ghost(m): Ghost<Seq<Seq<i32>>>)
        requires
            old(self).wf(),
            m == decode::planes(more@),
            m.len() == old(self)@.chans.len(),
            forall|c: int| 0 <= c < m.len() ==> (#[trigger] m[c]).len() == m[0].len(),
        ensures
            final(self).wf(),
            final(self)@ == old(self)@.with(m),
    {
        let ghost before = self@;
        let mut c: usize = 0;
        while c < more.len()
            invariant
                c <= more@.len(),
                m == decode::planes(more@),
                m.len() == before.chans.len(),
                self@ == (EncoderModel { chans: self@.chans, ..before }),
                self@.chans.len() == before.chans.len(),
                forall|j: int| 0 <= j < c ==> #[trigger] self@.chans[j] == before.chans[j] + m[j],
                forall|j: int|
                    c <= j < before.chans.len() ==> #[trigger] self@.chans[j] == before.chans[j],
            decreases more@.len() - c,
        {
            let ghost now = self.chans@;
            self.chans[c].extend_from_slice(more[c].as_slice());
            proof {
                assert forall|j: int| 0 <= j < now.len() && j != c implies #[trigger] self.chans@[j]
                    == now[j] by {}
                assert(self.chans@[c as int]@ =~= now[c as int]@ + m[c as int]);
                assert forall|j: int| 0 <= j < before.chans.len() implies (#[trigger] self@.chans[j])
                    == (if j <= c {
                    before.chans[j] + m[j]
                } else {
                    before.chans[j]
                }) by {
                    assert(self@.chans[j] == self.chans@[j]@);
                    assert(decode::planes(now)[j] == now[j]@);
                }
            }
            c = c + 1;
        }
        proof {
            assert(self@.chans =~= before.with(m).chans);
            assert forall|j: int| 0 <= j < self@.chans.len() implies (#[trigger] self@.chans[j]).len()
                == self@.len() by {
                assert(before.chans[j].len() == before.len());
                assert(m[j].len() == m[0].len());
            }
        }
    }

    /// Append the channels of interleaved samples.
    fn extend_interleaved(&mut self, samples: &[i32])
        requires
            old(self).wf(),
            samples@.len() % old(self)@.chans.len() == 0,
        ensures
            final(self).wf(),
            final(self)@ == old(self)@.with(pcm::split(samples@, old(self)@.chans.len())),
    {
        let ch: usize = self.chans.len();
        let ghost all = pcm::split(samples@, ch as nat);
        let mut more: Vec<Vec<i32>> = Vec::new();
        let mut c: usize = 0;
        while c < ch
            invariant
                c <= ch,
                all == pcm::split(samples@, ch as nat),
                samples@.len() % (ch as nat) == 0,
                decode::planes(more@) == all.take(c as int),
            decreases ch - c,
        {
            let ghost now = decode::planes(more@);
            let plane: Vec<i32> = pcm::take_channel(samples, ch, c);
            more.push(plane);
            assert(decode::planes(more@) =~= now.push(plane@));
            c = c + 1;
            assert(decode::planes(more@) =~= all.take(c as int));
        }
        assert(decode::planes(more@) =~= all);
        self.extend_all(&more, Ghost(all));
    }

    /// Append interleaved samples (the length must be a channel multiple).
    pub fn push_interleaved(&mut self, samples: &[i32]) -> (r: Result<(), EncodeError>)
        requires
            old(self).wf(),
        ensures
            final(self).wf(),
            if samples@.len() % old(self)@.chans.len() != 0 {
                r == Err::<(), EncodeError>(EncodeError::RaggedInput) && final(self)@ == old(self)@
            } else {
                r is Ok && final(self)@ == old(self)@.with(
                    pcm::split(samples@, old(self)@.chans.len()),
                )
            },
    {
        if samples.len() % self.chans.len() != 0 {
            return Err(EncodeError::RaggedInput);
        }
        self.extend_interleaved(samples);
        Ok(())
    }

    /// Append interleaved little-endian s16 PCM bytes (the WAV `data` layout).
    pub fn push_s16le_bytes(&mut self, bytes: &[u8]) -> (r: Result<(), EncodeError>)
        requires
            old(self).wf(),
        ensures
            final(self).wf(),
            if bytes@.len() % (2 * old(self)@.chans.len()) != 0 {
                r == Err::<(), EncodeError>(EncodeError::RaggedInput) && final(self)@ == old(self)@
            } else {
                r is Ok && final(self)@ == old(self)@.with(
                    pcm::split(pcm::s16_samples(bytes@), old(self)@.chans.len()),
                )
            },
    {
        let ch: usize = self.chans.len();
        if bytes.len() % (2 * ch) != 0 {
            return Err(EncodeError::RaggedInput);
        }
        let samples: Vec<i32> = pcm::read_s16le(bytes);
        proof {
            lemma_sample_multiple(bytes@.len() as int, 2, ch as int);
        }
        self.extend_interleaved(samples.as_slice());
        Ok(())
    }

    /// Append interleaved little-endian f32 PCM bytes, quantized onto this
    /// encoder's bit depth (rounded half away from zero, clamped).
    pub fn push_f32le_bytes(&mut self, bytes: &[u8]) -> (r: Result<(), EncodeError>)
        requires
            old(self).wf(),
        ensures
            final(self).wf(),
            if bytes@.len() % (4 * old(self)@.chans.len()) != 0 {
                r == Err::<(), EncodeError>(EncodeError::RaggedInput) && final(self)@ == old(self)@
            } else {
                r is Ok && final(self)@ == old(self)@.with(
                    pcm::split(
                        pcm::f32_samples(bytes@, old(self)@.bps),
                        old(self)@.chans.len(),
                    ),
                )
            },
    {
        let ch: usize = self.chans.len();
        if bytes.len() % (4 * ch) != 0 {
            return Err(EncodeError::RaggedInput);
        }
        let samples: Vec<i32> = pcm::read_f32le(bytes, self.bps);
        proof {
            lemma_sample_multiple(bytes@.len() as int, 4, ch as int);
        }
        self.extend_interleaved(samples.as_slice());
        Ok(())
    }

    /// Append per-channel (planar) samples; all planes must be equally long.
    pub fn push_planar(&mut self, planes: &[&[i32]]) -> (r: Result<(), EncodeError>)
        requires
            old(self).wf(),
        ensures
            final(self).wf(),
            if planes@.len() == old(self)@.chans.len() && forall|c: int|
                0 <= c < planes@.len() ==> (#[trigger] planes@[c])@.len() == planes@[0]@.len() {
                r is Ok && final(self)@ == old(self)@.with(
                    Seq::new(planes@.len(), |c: int| planes@[c]@),
                )
            } else {
                r == Err::<(), EncodeError>(EncodeError::RaggedInput) && final(self)@ == old(self)@
            },
    {
        if planes.len() != self.chans.len() {
            return Err(EncodeError::RaggedInput);
        }
        let n: usize = planes[0].len();
        let ghost all = Seq::new(planes@.len(), |c: int| planes@[c]@);
        let mut more: Vec<Vec<i32>> = Vec::new();
        let mut c: usize = 0;
        while c < planes.len()
            invariant
                c <= planes@.len(),
                self.wf(),
                self@ == old(self)@,
                planes@.len() >= 1,
                n == planes@[0]@.len(),
                all == Seq::new(planes@.len(), |c: int| planes@[c]@),
                decode::planes(more@) == all.take(c as int),
                forall|j: int| 0 <= j < c ==> (#[trigger] planes@[j])@.len() == n,
            decreases planes@.len() - c,
        {
            if planes[c].len() != n {
                return Err(EncodeError::RaggedInput);
            }
            let ghost now = decode::planes(more@);
            let mut plane: Vec<i32> = Vec::new();
            plane.extend_from_slice(planes[c]);
            assert(plane@ =~= planes@[c as int]@);
            more.push(plane);
            assert(decode::planes(more@) =~= now.push(plane@));
            c = c + 1;
            assert(decode::planes(more@) =~= all.take(c as int));
        }
        assert(decode::planes(more@) =~= all);
        self.extend_all(&more, Ghost(all));
        Ok(())
    }
}

/// A whole number of rows of `w`-byte samples is a whole number of rows of
/// samples.
proof fn lemma_sample_multiple(len: int, w: int, ch: int)
    requires
        len >= 0,
        w > 0,
        ch > 0,
        len % (w * ch) == 0,
    ensures
        (len / w) % ch == 0,
{
    assert(w * ch > 0) by (nonlinear_arith)
        requires
            w > 0,
            ch > 0,
    ;
    vstd::arithmetic::div_mod::lemma_fundamental_div_mod(len, w * ch);
    let q = len / (w * ch);
    assert(len == w * (ch * q)) by (nonlinear_arith)
        requires
            len == (w * ch) * q,
    ;
    vstd::arithmetic::div_mod::lemma_div_multiples_vanish(ch * q, w);
    assert(ch * q == q * ch) by (nonlinear_arith);
    vstd::arithmetic::div_mod::lemma_mod_multiples_basic(q, ch);
}

impl Encoder {
    /// How many blocks the buffered samples fill.
    pub fn block_count(&self) -> (r: usize)
        requires
            self.wf(),
        ensures
            r == block_count(self@.len()),
            r <= 0x10_0000_0000_0000,
    {
        let n: usize = self.chans[0].len();
        n / BLOCK_SIZE + (if n % BLOCK_SIZE == 0 {
            0
        } else {
            1
        })
    }

    /// The highest LPC order of a predictor for a block of `n` samples.
    pub fn order_limit(&self, n: usize) -> (r: usize)
        ensures
            r == choice::top_order(self@.max_lpc_order, n as nat),
    {
        if self.max_lpc_order < n / 2 {
            self.max_lpc_order
        } else {
            n / 2
        }
    }

    /// Block `k` of every channel.
    fn block(&self, k: usize) -> (r: Vec<&[i32]>)
        requires
            self.wf(),
            k < block_count(self@.len()),
        ensures
            r@.len() == self@.chans.len(),
            forall|c: int|
                0 <= c < r@.len() ==> (#[trigger] r@[c])@ == block_at(self@.chans, k as int)[c],
    {
        let n: usize = self.chans[0].len();
        let start: usize = k * BLOCK_SIZE;
        let end: usize = if n - start < BLOCK_SIZE {
            n
        } else {
            start + BLOCK_SIZE
        };
        let mut r: Vec<&[i32]> = Vec::new();
        let mut c: usize = 0;
        while c < self.chans.len()
            invariant
                c <= self.chans@.len(),
                self.wf(),
                n == self@.len(),
                start == 4096 * k,
                start < end <= n,
                end == block_end(n as nat, k as int),
                r@.len() == c,
                forall|j: int|
                    0 <= j < c ==> (#[trigger] r@[j])@ == block_at(self@.chans, k as int)[j],
            decreases self.chans@.len() - c,
        {
            assert(self@.chans[c as int].len() == n);
            assert(self@.chans[c as int] == self.chans@[c as int]@);
            let part: &[i32] = vstd::slice::slice_subrange(
                self.chans[c].as_slice(),
                start,
                end,
            );
            r.push(part);
            c = c + 1;
        }
        r
    }

    /// The arms of block `k` to analyze, in the order in which
    /// [`Encoder::set_analysis`] takes their analyses: left, right, mid and side of a
    /// stereo block, the channels of any other. Empty behind the last block.
    pub fn arms(&self, k: usize) -> (r: Vec<ArmInput>)
        requires
            self.wf(),
        ensures
            if k < block_count(self@.len()) {
                Seq::new(r@.len(), |i: int| r@[i]@) == arms_of(
                    block_at(self@.chans, k as int),
                    self@.bps,
                )
            } else {
                r@.len() == 0
            },
    {
        if k >= self.block_count() {
            return Vec::new();
        }
        let blocks: Vec<&[i32]> = self.block(k);
        let ghost b = block_at(self@.chans, k as int);
        proof {
            lemma_block_len(self@, k as int);
            assert forall|c: int| 0 <= c < b.len() implies (#[trigger] b[c]).len() == b[0].len() by {
                lemma_block_channel(self@, k as int, c);
                lemma_block_channel(self@, k as int, 0);
            }
            lemma_block_channel(self@, k as int, 0);
        }
        if blocks.len() == 2 {
            assert(blocks@[0]@ == b[0] && blocks@[1]@ == b[1]);
            assert(b[1].len() == b[0].len());
            let arms: Vec<ArmInput> = layout::prepare_arms(blocks[0], blocks[1], self.bps);
            assert(Seq::new(arms@.len(), |i: int| arms@[i]@) =~= arms_of(b, self@.bps));
            return arms;
        }
        let mut arms: Vec<ArmInput> = Vec::new();
        let mut c: usize = 0;
        while c < blocks.len()
            invariant
                c <= blocks@.len(),
                blocks@.len() == b.len(),
                forall|j: int| 0 <= j < b.len() ==> (#[trigger] blocks@[j])@ == b[j],
                1 <= self.bps <= 32,
                arms@.len() == c,
                forall|j: int|
                    0 <= j < c ==> (#[trigger] arms@[j])@ == arm::arm_of(b[j], self.bps as nat),
            decreases blocks@.len() - c,
        {
            assert(blocks@[c as int]@ == b[c as int]);
            arms.push(ArmInput::prepare(blocks[c], self.bps));
            c = c + 1;
        }
        assert(Seq::new(arms@.len(), |i: int| arms@[i]@) =~= arms_of(b, self@.bps));
        arms
    }

    /// Hand in, for each block, the analyses of the arms that
    /// [`Encoder::arms`] gives. An arm without one is coded without linear
    /// prediction.
    pub fn set_analysis(&mut self, analysis: Vec<Vec<ArmAnalysis>>)
        requires
            old(self).wf(),
        ensures
            final(self).wf(),
            final(self)@ == (EncoderModel { analysis: all_models(analysis@), ..old(self)@ }),
    {
        self.analysis = analysis;
    }

    /// Code block `k` as a frame.
    fn encode_block(&self, k: usize, counts: &mut EncodeStats) -> (r: Vec<u8>)
        requires
            self.wf(),
            k < block_count(self@.len()),
            stats::room(old(counts)@, 73),
        ensures
            r@ == frame_at(self@, self@.analysis, k as nat),
            final(counts)@ == stats::tallied(
                old(counts)@,
                frame::frame_events(
                    block_at(self@.chans, k as int),
                    self@.bps,
                    list_at(self@.analysis, k as int),
                    self@.max_lpc_order,
                ),
            ),
    {
        let blocks: Vec<&[i32]> = self.block(k);
        let ghost b = block_at(self@.chans, k as int);
        let nothing: Vec<ArmAnalysis> = Vec::new();
        let list: &[ArmAnalysis] = if k < self.analysis.len() {
            self.analysis[k].as_slice()
        } else {
            nothing.as_slice()
        };
        proof {
            assert(layout::models(list@) =~= list_at(self@.analysis, k as int));
            reveal(frame_at);
            lemma_block_len(self@, k as int);
            assert forall|c: int| 0 <= c < b.len() implies (#[trigger] blocks@[c])@ == b[c]
                && b[c].len() == b[0].len() by {
                lemma_block_channel(self@, k as int, c);
                lemma_block_channel(self@, k as int, 0);
            }
            lemma_block_channel(self@, k as int, 0);
        }
        frame::encode_frame(
            k as u64,
            &blocks,
            self.bps,
            list,
            self.max_lpc_order,
            Ghost(b),
            counts,
        )
    }

    /// Code all blocks: the frames, the lengths of the shortest and of the
    /// longest one, and the counts.
    fn encode_frames(&self) -> (r: (
        Vec<u8>,
        usize,
        usize,
        EncodeStats,
    ))
        requires
            self.wf(),
        ensures
            ({
                let all = self@.analysis;
                let k = block_count(self@.len());
                &&& r.0@ == frames(self@, all, k)
                &&& r.1 == shortest(self@, all, k)
                &&& r.2 == longest(self@, all, k)
                &&& r.3@ == stats::tallied(stats::none(), history(self@, all, k))
            }),
    {
        let ghost all = self@.analysis;
        let ghost e = self@;
        let count: usize = self.block_count();
        let mut counts: EncodeStats = EncodeStats::default();
        let mut out: Vec<u8> = Vec::new();
        let mut min_len: usize = 0;
        let mut max_len: usize = 0;
        let mut k: usize = 0;
        proof {
            stats::lemma_tallied_empty(stats::none());
        }
        while k < count
            invariant
                k <= count,
                count == block_count(e.len()),
                count <= 0x10_0000_0000_0000,
                self.wf(),
                self@ == e,
                all == e.analysis,
                out@ == frames(e, all, k as nat),
                min_len == shortest(e, all, k as nat),
                max_len == longest(e, all, k as nat),
                counts@ == stats::tallied(stats::none(), history(e, all, k as nat)),
                history(e, all, k as nat).len() <= 73 * k,
            decreases count - k,
        {
            proof {
                let h = history(e, all, k as nat);
                let g = frame::frame_events(
                    block_at(e.chans, k as int),
                    e.bps,
                    list_at(all, k as int),
                    e.max_lpc_order,
                );
                lemma_history_room(h);
                frame::lemma_frame_events_len(
                    block_at(e.chans, k as int),
                    e.bps,
                    list_at(all, k as int),
                    e.max_lpc_order,
                );
                stats::lemma_tallied_concat(stats::none(), h, g);
            }
            let bytes: Vec<u8> = self.encode_block(k, &mut counts);
            if k == 0 || bytes.len() < min_len {
                min_len = bytes.len();
            }
            if bytes.len() > max_len {
                max_len = bytes.len();
            }
            out.extend_from_slice(bytes.as_slice());
            assert(out@ =~= frames(e, all, (k + 1) as nat));
            k = k + 1;
        }
        (out, min_len, max_len, counts)
    }

    /// MD5 of the unencoded audio — FLAC's STREAMINFO integrity signature.
    fn compute_md5(&self) -> (r: [u8; 16])
        requires
            self.wf(),
        ensures
            r@ == signature(self@),
    {
        let n: usize = self.chans[0].len();
        proof {
            assert forall|c: int| 0 <= c < self.chans@.len() implies (#[trigger] self.chans@[c])@.len()
                == n by {
                assert(self@.chans[c].len() == self@.len());
            }
        }
        pcm::pcm_md5(&self.chans, self.bps / 8, n)
    }

    /// The STREAMINFO block.
    fn encode_info(&self, shortest: usize, longest: usize) -> (r: Vec<u8>)
        requires
            self.wf(),
        ensures
            r@ == bits::pack(info_bits(self@, shortest as nat, longest as nat)),
    {
        broadcast use bits::group_bits_len;

        let mut si: BitWriter = BitWriter::with_capacity(34);
        si.write_bits(BLOCK_SIZE as u64, 16);
        si.write_bits(BLOCK_SIZE as u64, 16);
        si.write_bits(shortest as u64, 24);
        si.write_bits(longest as u64, 24);
        si.write_bits(self.sample_rate as u64, 20);
        si.write_bits(self.chans.len() as u64 - 1, 3);
        si.write_bits(self.bps as u64 - 1, 5);
        si.write_bits(self.chans[0].len() as u64, 36);
        let md5: [u8; 16] = self.compute_md5();
        let ghost head = si@;
        let mut i: usize = 0;
        assert(md5@.take(0) =~= Seq::<u8>::empty());
        assert(si@ =~= head + bits::byte_bits(md5@.take(0)));
        while i < 16
            invariant
                i <= 16,
                si.wf(),
                si@ == head + bits::byte_bits(md5@.take(i as int)),
            decreases 16 - i,
        {
            si.write_bits(md5[i] as u64, 8);
            proof {
                assert(md5@.take(i + 1) =~= md5@.take(i as int).push(md5@[i as int]));
                bits::lemma_byte_bits_push(md5@.take(i as int), md5@[i as int]);
                assert(si@ =~= head + bits::byte_bits(md5@.take(i + 1)));
            }
            i = i + 1;
        }
        assert(md5@.take(16) =~= md5@);
        let ghost all = info_bits(self@, shortest as nat, longest as nat);
        assert(si@ =~= all);
        let r: Vec<u8> = si.into_bytes();
        proof {
            assert(md5@.len() == 16);
            assert(all.len() == 272);
            assert(all + bits::zeros(0) =~= all);
            bits::lemma_pack_byte_bits(r@);
        }
        r
    }

    /// Encode all buffered samples.
    fn encode_stream(&self) -> (r: (Vec<u8>, EncodeStats))
        requires
            self.wf(),
        ensures
            r.0@ == stream(self@, self@.analysis),
            r.1@ == stats::tallied(
                stats::none(),
                history(self@, self@.analysis, block_count(self@.len())),
            ),
    {
        let (frames, shortest, longest, counts): (Vec<u8>, usize, usize, EncodeStats) =
            self.encode_frames();
        let info: Vec<u8> = self.encode_info(shortest, longest);
        (assemble(&info, &frames), counts)
    }

    /// Encode all buffered samples into a complete native FLAC stream.
    pub fn finish(self) -> (r: Vec<u8>)
        requires
            self.wf(),
        ensures
            r@ == stream(self@, self@.analysis),
    {
        self.encode_stream().0
    }

    /// Like [`Encoder::finish`], but also returns the wiring-audit counters.
    pub fn finish_with_stats(self) -> (r: (Vec<u8>, EncodeStats))
        requires
            self.wf(),
        ensures
            r.0@ == stream(self@, self@.analysis),
            r.1@ == stats::tallied(
                stats::none(),
                history(self@, self@.analysis, block_count(self@.len())),
            ),
    {
        self.encode_stream()
    }
}

/// A stream of a STREAMINFO block and frames.
fn assemble(info: &Vec<u8>, frames: &Vec<u8>) -> (out: Vec<u8>)
    ensures
        out@ == stream_head() + info@ + frames@,
{
    let mut out: Vec<u8> = Vec::new();
    out.push(0x66);
    out.push(0x4C);
    out.push(0x61);
    out.push(0x43);
    // Last metadata block, STREAMINFO, 34 bytes.
    out.push(0x80);
    out.push(0);
    out.push(0);
    out.push(34);
    assert(out@ =~= stream_head());
    out.extend_from_slice(info.as_slice());
    out.extend_from_slice(frames.as_slice());
    assert(out@ =~= stream_head() + info@ + frames@);
    out
}

/// A block is neither empty nor longer than the nominal size.
pub proof fn lemma_block_len(e: EncoderModel, k: int)
    requires
        e.wf(),
        0 <= k < block_count(e.len()),
    ensures
        1 <= block_end(e.len(), k) - 4096 * k <= 4096,
        block_end(e.len(), k) <= e.len(),
{
}

pub proof fn lemma_block_channel(e: EncoderModel, k: int, c: int)
    requires
        e.wf(),
        0 <= k < block_count(e.len()),
        0 <= c < e.chans.len(),
    ensures
        block_at(e.chans, k)[c] == e.chans[c].subrange(4096 * k, block_end(e.len(), k)),
        block_at(e.chans, k)[c].len() == block_end(e.len(), k) - 4096 * k,
{
    lemma_block_len(e, k);
    assert(e.chans[c].len() == e.len());
}

/// Every block but the last one has the nominal size, the blocks tile the
/// samples, and a stream has no block too many.
pub proof fn lemma_blocks_tile(n: nat, k: int)
    requires
        0 <= k < block_count(n),
    ensures
        4096 * k < block_end(n, k) <= n,
        k + 1 < block_count(n) ==> block_end(n, k) == 4096 * (k + 1),
        k + 1 == block_count(n) ==> block_end(n, k) == n,
{
}

/// The extremes are the extremes: no frame is shorter than the shortest or
/// longer than the longest, and both are lengths of frames.
pub proof fn lemma_extremes(e: EncoderModel, all: Seq<Seq<AnalysisModel>>, k: nat)
    requires
        k >= 1,
    ensures
        forall|j: int|
            0 <= j < k ==> shortest(e, all, k) <= (#[trigger] frame_at(e, all, j as nat)).len()
                <= longest(e, all, k),
        exists|j: int| 0 <= j < k && (#[trigger] frame_at(e, all, j as nat)).len() == shortest(
            e,
            all,
            k,
        ),
        exists|j: int| 0 <= j < k && (#[trigger] frame_at(e, all, j as nat)).len() == longest(
            e,
            all,
            k,
        ),
    decreases k,
{
    let i = k - 1;
    let last = frame_at(e, all, i as nat);
    if k > 1 {
        lemma_extremes(e, all, i as nat);
        let x = choose|j: int|
            0 <= j < i && (#[trigger] frame_at(e, all, j as nat)).len() == shortest(
                e,
                all,
                i as nat,
            );
        let y = choose|j: int|
            0 <= j < i && (#[trigger] frame_at(e, all, j as nat)).len() == longest(
                e,
                all,
                i as nat,
            );
        assert(frame_at(e, all, x as nat).len() == shortest(e, all, i as nat));
        assert(frame_at(e, all, y as nat).len() == longest(e, all, i as nat));
    }
    assert(shortest(e, all, 0) == 0 && longest(e, all, 0) == 0);
    assert(last == frame_at(e, all, i as nat));
}

/// Samples may arrive in pieces: pushing two pieces is pushing them as one.
pub proof fn lemma_pushes_join(e: EncoderModel, a: Seq<Seq<i32>>, b: Seq<Seq<i32>>)
    requires
        a.len() == e.chans.len(),
        b.len() == e.chans.len(),
    ensures
        e.with(a).with(b) == e.with(Seq::new(a.len(), |c: int| a[c] + b[c])),
{
    let joined = Seq::new(a.len(), |c: int| a[c] + b[c]);
    assert forall|c: int| 0 <= c < e.chans.len() implies e.with(a).with(b).chans[c] == e.with(
        joined,
    ).chans[c] by {
        assert(e.with(a).with(b).chans[c] =~= e.chans[c] + (a[c] + b[c]));
    }
    assert(e.with(a).with(b).chans =~= e.with(joined).chans);
}

/// Where a sample goes: sample `i` of block `k` is sample `4096 k + i` of its
/// channel, and block `k` is what frame `k` codes, under its own number and with
/// its own analysis.
pub proof fn lemma_block_samples(
    e: EncoderModel,
    all: Seq<Seq<AnalysisModel>>,
    k: nat,
    c: int,
    i: int,
)
    requires
        e.wf(),
        k < block_count(e.len()),
        k < all.len(),
        0 <= c < e.chans.len(),
        0 <= i < 4096,
        4096 * k + i < e.len(),
    ensures
        block_at(e.chans, k as int).len() == e.chans.len(),
        i < block_at(e.chans, k as int)[c].len(),
        block_at(e.chans, k as int)[c][i] == e.chans[c][4096 * k + i],
        frame_at(e, all, k) == frame::frame_of(
            k as u64,
            block_at(e.chans, k as int),
            e.bps,
            all[k as int],
            e.max_lpc_order,
        ),
{
    reveal(frame_at);
    lemma_block_channel(e, k as int, c);
}

/// The arms of a block that are handed out for analysis: of a stereo block the
/// left, the right, the mid and the side channel, the last one a bit deeper; of
/// any other block its channels.
pub proof fn lemma_arms_handed(blocks: Seq<Seq<i32>>, bps: nat, c: int)
    requires
        blocks.len() >= 1,
        0 <= c < blocks.len(),
    ensures
        ({
            let arms = arms_of(blocks, bps);
            if blocks.len() == 2 {
                &&& arms.len() == 4
                &&& arms[c] == arm::arm_of(blocks[c], bps)
                &&& arms[2] == arm::arm_of(layout::mid_of(blocks[0], blocks[1]), bps)
                &&& arms[3] == arm::arm_of(layout::side_of(blocks[0], blocks[1]), bps + 1)
            } else {
                arms.len() == blocks.len() && arms[c] == arm::arm_of(blocks[c], bps)
            }
        }),
{
}

/// A higher level never searches fewer orders, and every third level searches
/// four orders more, from four orders up to all twelve of them.
pub proof fn lemma_levels(level: nat, higher: nat)
    requires
        level <= higher,
    ensures
        4 <= searched_order(level) <= searched_order(higher) <= LPC_MAX_ORDER,
        level <= 8 ==> searched_order(level) == 4 * (level / 3 + 1),
        level >= 8 ==> searched_order(level) == 12,
        LPC_MAX_ORDER == 12,
{
}

} // verus!
