//! The whole codec: streams are encoded with predictors from a floating-point
//! analysis of the blocks, and decoded by the crate's own decoder and by an
//! independent one.
use rusty_flac::bitio::BitWriter;
use rusty_flac::choice::coefficient_shift;
use rusty_flac::crc::{crc16, crc8};
use rusty_flac::{
    decode, ArmAnalysis, ArmInput, DecodeError, Decoder, EncodeError, Encoder, LpcEstimate,
    Quantized,
};
use std::io::Cursor;

// ---------------------------------------------------------------------------
// Analysis
// ---------------------------------------------------------------------------
const LPC_PRECISION: u32 = 14;

/// Tukey apodization window: flat middle with cosine tapers.
fn tukey_window(n: usize, alpha: f64) -> Vec<f64> {
    let mut w = vec![1.0f64; n];
    if n <= 1 {
        return w;
    }
    for (i, wi) in w.iter_mut().enumerate() {
        let x = i as f64 / (n - 1) as f64;
        if x < alpha / 2.0 {
            *wi = 0.5 * (1.0 + (std::f64::consts::PI * (2.0 * x / alpha - 1.0)).cos());
        } else if x > 1.0 - alpha / 2.0 {
            *wi = 0.5 * (1.0 + (std::f64::consts::PI * (2.0 * x / alpha - 2.0 / alpha + 1.0)).cos());
        }
    }
    w
}

/// Autocorrelation of the windowed samples, lags 0..=max_order.
fn autocorrelation(samples: &[i32], max_order: usize, win: &[f64]) -> Vec<f64> {
    let w: Vec<f64> = samples
        .iter()
        .zip(win)
        .map(|(&s, &g)| s as f64 * g)
        .collect();
    (0..=max_order)
        .map(|lag| {
            let (ahead, behind) = (&w[lag..], &w[..w.len() - lag]);
            ahead.iter().zip(behind).map(|(x, y)| x * y).sum()
        })
        .collect()
}

/// Levinson-Durbin: the residual energy after every reachable order, and the
/// predictor of the last one.
fn levinson(autoc: &[f64], max_order: usize) -> (Vec<f64>, Vec<f64>) {
    let mut lpc: Vec<f64> = Vec::new();
    let mut errs = Vec::new();
    let mut err = autoc[0];
    for i in 0..max_order {
        if err <= 0.0 {
            break;
        }
        let mut r = -autoc[i + 1];
        for j in 0..i {
            r -= lpc[j] * autoc[i - j];
        }
        r /= err;
        let old = lpc.clone();
        lpc.push(r);
        for j in 0..i {
            lpc[j] = old[j] + r * old[i - 1 - j];
        }
        err *= 1.0 - r * r;
        errs.push(err);
    }
    (errs, lpc.iter().map(|c| -c).collect())
}

/// Quantize coefficients with rounding error feedback.
fn quantize(lpc: &[f64]) -> Option<Quantized> {
    let cmax = lpc.iter().fold(0.0f64, |m, &c| m.max(c.abs()));
    if !cmax.is_finite() || cmax <= 0.0 {
        return None;
    }
    let exp = cmax.log2().floor() as i32 + 1;
    let shift = coefficient_shift(exp);
    let qmax = (1i32 << (LPC_PRECISION - 1)) - 1;
    let qmin = -(1i32 << (LPC_PRECISION - 1));
    let scale = (shift as f64).exp2();
    let mut error = 0.0f64;
    let mut coeffs = Vec::new();
    for &c in lpc {
        let v = c * scale + error;
        let q = v.round().clamp(qmin as f64, qmax as f64);
        error = v - q;
        coeffs.push(q as i32);
    }
    Some(Quantized { coeffs, shift })
}

fn estimate(arm: &ArmInput, max_order: usize, win: &[f64]) -> Option<LpcEstimate> {
    let n = arm.samples.len();
    let autoc = autocorrelation(&arm.samples, max_order, win);
    if autoc[0] <= 0.0 {
        return None;
    }
    let (errs, _) = levinson(&autoc, max_order);
    if errs.is_empty() {
        return None;
    }
    let mut best_order = 0usize;
    let mut best = f64::INFINITY;
    for (idx, &err) in errs.iter().enumerate() {
        let order = idx + 1;
        let var = err / n as f64;
        let bits_per = if var > 0.0 {
            (0.5 * var.log2()).max(0.0)
        } else {
            0.0
        };
        let est =
            order as f64 * (arm.ebps + LPC_PRECISION) as f64 + bits_per * (n - order) as f64;
        if est < best {
            best = est;
            best_order = order;
        }
    }
    let (_, coeffs) = levinson(&autoc, best_order);
    Some(LpcEstimate {
        est_bits: best.to_bits(),
        exhausted: errs.len() < max_order,
        quantized: quantize(&coeffs),
    })
}

fn analyze(enc: &mut Encoder) {
    let mut wins = (0usize, Vec::new(), Vec::new());
    let mut all = Vec::new();
    for k in 0..enc.block_count() {
        let mut list = Vec::new();
        for arm in enc.arms(k) {
            let n = arm.samples.len();
            if wins.0 != n {
                wins = (n, tukey_window(n, 0.5), tukey_window(n, 0.2));
            }
            let top = enc.order_limit(n);
            if top == 0 {
                list.push(ArmAnalysis {
                    first: None,
                    second: None,
                });
            } else {
                list.push(ArmAnalysis {
                    first: estimate(&arm, top, &wins.1),
                    second: estimate(&arm, top, &wins.2),
                });
            }
        }
        all.push(list);
    }
    enc.set_analysis(all);
}

/// Analyze and encode.
fn finish(mut enc: Encoder) -> Vec<u8> {
    analyze(&mut enc);
    enc.finish()
}

fn decode_with_claxon(stream: &[u8]) -> (u32, u32, u32, Vec<Vec<i32>>) {
    let mut reader = claxon::FlacReader::new(Cursor::new(stream)).expect("parse");
    let info = reader.streaminfo();
    let ch = info.channels as usize;
    let mut chans = vec![Vec::new(); ch];
    let mut c = 0usize;
    for s in reader.samples() {
        chans[c].push(s.expect("sample"));
        c = (c + 1) % ch;
    }
    (info.sample_rate, info.channels, info.bits_per_sample, chans)
}

// ---------------------------------------------------------------------------
// The decoder
// ---------------------------------------------------------------------------
fn test_signal(n: usize) -> (Vec<i32>, Vec<i32>) {
    let mut x = 7u64;
    let l: Vec<i32> = (0..n)
        .map(|i| {
            x = x
                .wrapping_mul(6364136223846793005)
                .wrapping_add(1442695040888963407);
            ((i as f64 * 0.11).sin() * 9000.0) as i32 + ((x >> 40) & 0x3F) as i32 - 32
        })
        .collect();
    let r: Vec<i32> = l.iter().map(|&v| v - (v >> 3)).collect();
    (l, r)
}

#[test]
fn own_encode_decodes_exactly() {
    let (l, r) = test_signal(30_000);
    let mut enc = Encoder::new(44100, 2, 16).unwrap();
    enc.push_planar(&[&l, &r]).unwrap();
    let stream = finish(enc);

    let (info, chans) = decode(&stream).unwrap();
    assert_eq!(info.sample_rate, 44100);
    assert_eq!(info.channels, 2);
    assert_eq!(info.bits_per_sample, 16);
    assert_eq!(info.total_samples, 30_000);
    assert_eq!(chans[0], l);
    assert_eq!(chans[1], r);
}

#[test]
fn matches_claxon_on_own_stream() {
    let (l, r) = test_signal(20_000);
    let mut enc = Encoder::new(48000, 2, 16).unwrap();
    enc.push_planar(&[&l, &r]).unwrap();
    let stream = finish(enc);

    let (_, ours) = decode(&stream).unwrap();

    let mut reader = claxon::FlacReader::new(std::io::Cursor::new(&stream)).unwrap();
    let ch = reader.streaminfo().channels as usize;
    let mut theirs = vec![Vec::new(); ch];
    let mut c = 0;
    for s in reader.samples() {
        theirs[c].push(s.unwrap());
        c = (c + 1) % ch;
    }
    assert_eq!(ours, theirs);
}

#[test]
fn rejects_garbage() {
    assert!(decode(b"not a flac stream at all").is_err());
    assert!(decode(b"fLaC").is_err());
}

#[test]
fn frame_by_frame_is_the_whole_stream() {
    let (l, r) = test_signal(9_000);
    let mut enc = Encoder::new(44100, 2, 16).unwrap();
    enc.push_planar(&[&l, &r]).unwrap();
    let stream = finish(enc);

    let mut dec = Decoder::new(&stream).unwrap();
    assert_eq!(dec.streaminfo().channels, 2);
    let mut out: Vec<Vec<i32>> = vec![Vec::new(), Vec::new()];
    let mut sizes = Vec::new();
    while let Some(bs) = dec.next_frame(&mut out).unwrap() {
        sizes.push(bs);
    }
    assert_eq!(sizes, vec![4096, 4096, 808]);
    assert_eq!(dec.next_frame(&mut out), Ok(None));
    assert_eq!(decode(&stream).unwrap().1, out);
}

#[test]
fn a_frame_fills_no_more_channels_than_there_are() {
    let (l, r) = test_signal(100);
    let mut enc = Encoder::new(44100, 2, 16).unwrap();
    enc.push_planar(&[&l, &r]).unwrap();
    let stream = finish(enc);

    let mut one: Vec<Vec<i32>> = vec![vec![7]];
    assert_eq!(Decoder::new(&stream).unwrap().next_frame(&mut one), Ok(Some(100)));
    assert_eq!(one[0][0], 7);
    assert_eq!(one[0][1..], l[..]);

    let mut three: Vec<Vec<i32>> = vec![Vec::new(); 3];
    assert_eq!(Decoder::new(&stream).unwrap().next_frame(&mut three), Ok(Some(100)));
    assert_eq!(three[1], r);
    assert!(three[2].is_empty());
}

#[test]
fn damaged_streams_are_refused() {
    let (l, _) = test_signal(600);
    let mut enc = Encoder::new(44100, 1, 16).unwrap();
    enc.push_planar(&[&l]).unwrap();
    let stream = finish(enc);
    assert_eq!(decode(&stream).unwrap().1[0], l);

    // The marker, the metadata, and what is missing of a frame.
    assert_eq!(decode(&stream[1..]).err(), Some(DecodeError::NotFlac));
    assert_eq!(decode(&stream[..41]).err(), Some(DecodeError::NotFlac));
    assert_eq!(decode(&stream[..stream.len() - 1]).err(), Some(DecodeError::Truncated));
    let mut no_info = stream.clone();
    no_info[4] = 0x81;
    assert_eq!(decode(&no_info).err(), Some(DecodeError::NotFlac));
    let mut short_info = stream.clone();
    short_info[7] = 33;
    assert_eq!(decode(&short_info).err(), Some(DecodeError::NotFlac));
    let mut long_info = stream.clone();
    long_info[5] = 0xFF;
    assert_eq!(decode(&long_info).err(), Some(DecodeError::Truncated));

    // The frame header.
    let damage = |at: usize, bit: u8| -> Option<DecodeError> {
        let mut s = stream.clone();
        s[at] ^= bit;
        decode(&s).err()
    };
    assert_eq!(damage(42, 0x80), Some(DecodeError::BadFrameHeader("sync")));
    assert_eq!(damage(43, 0x02), Some(DecodeError::BadFrameHeader("reserved")));
    assert_eq!(damage(45, 0x01), Some(DecodeError::BadFrameHeader("reserved2")));
    assert_eq!(damage(46, 0x80), Some(DecodeError::BadFrameHeader("frame number")));
    assert_eq!(damage(44, 0x70), Some(DecodeError::BadFrameHeader("blocksize code 0")));
    assert_eq!(damage(44, 0x0F), Some(DecodeError::BadFrameHeader("sample-rate code 15")));
    assert_eq!(damage(45, 0x0E), Some(DecodeError::BadFrameHeader("sample-size code")));
    assert_eq!(damage(46, 0x01), Some(DecodeError::BadFrameHeader("crc8")));

    // The frame itself.
    assert_eq!(damage(stream.len() - 1, 0x01), Some(DecodeError::BadFrameCrc));
    for at in 42..stream.len() {
        for bit in 0..8 {
            assert!(damage(at, 1 << bit).is_some(), "bit {bit} of byte {at}");
        }
    }
}

/// What a hand-made stream of one frame says of itself.
struct Made {
    /// STREAMINFO's sample rate and channels.
    rate: u64,
    channels: u64,
    bps: u32,
    /// The frame's block size, assignment and sample-rate code, and what the
    /// code adds to the header.
    bs: u32,
    assignment: u32,
    rate_code: u64,
    rate_bits: (u64, u32),
}

impl Made {
    fn mono(bps: u32, bs: u32, assignment: u32) -> Made {
        Made {
            rate: 44100,
            channels: 1,
            bps,
            bs,
            assignment,
            rate_code: 0,
            rate_bits: (0, 0),
        }
    }

    /// The stream with this frame body; the checksums are in order.
    fn stream(&self, body: &[(u64, u32)]) -> Vec<u8> {
        let mut si = BitWriter::new();
        for (v, n) in [
            (4096u64, 16u32),
            (4096, 16),
            (0, 24),
            (0, 24),
            (self.rate, 20),
            (self.channels - 1, 3),
            (self.bps as u64 - 1, 5),
            (self.bs as u64, 36),
        ] {
            si.write_bits(v, n);
        }
        for _ in 0..16 {
            si.write_bits(0, 8);
        }
        let mut fw = BitWriter::new();
        for (v, n) in [
            (0x3FFEu64, 14u32),
            (0, 2),
            (7, 4),
            (self.rate_code, 4),
            (self.assignment as u64, 4),
            (0, 4),
            (0, 8),
            (self.bs as u64 - 1, 16),
            self.rate_bits,
        ] {
            fw.write_bits(v, n);
        }
        let check = crc8(fw.bytes());
        fw.write_bits(check as u64, 8);
        for &(v, n) in body {
            fw.write_bits(v, n);
        }
        fw.align_to_byte();
        let check = crc16(fw.bytes());
        fw.write_bits(check as u64, 16);
        let mut out = b"fLaC\x80\x00\x00\x22".to_vec();
        out.extend(si.into_bytes());
        out.extend(fw.into_bytes());
        out
    }
}

/// A mono stream of one frame with this body.
fn frame_stream(bps: u32, bs: u32, assignment: u32, body: &[(u64, u32)]) -> Vec<u8> {
    Made::mono(bps, bs, assignment).stream(body)
}

fn first_channel(stream: &[u8]) -> Result<Vec<i32>, DecodeError> {
    decode(stream).map(|(_, chans)| chans[0].clone())
}

#[test]
fn every_subframe_kind_decodes() {
    // CONSTANT.
    let s = frame_stream(16, 3, 0, &[(0, 8), (0xFFFE, 16)]);
    assert_eq!(first_channel(&s), Ok(vec![-2, -2, -2]));
    // CONSTANT with 4 wasted bits.
    let s = frame_stream(16, 2, 0, &[(1, 8), (0b0001, 4), (0xFFE, 12)]);
    assert_eq!(first_channel(&s), Ok(vec![-32, -32]));
    // VERBATIM.
    let s = frame_stream(4, 3, 0, &[(0b0000_0010, 8), (0b0111, 4), (0b1000, 4), (0b1111, 4)]);
    assert_eq!(first_channel(&s), Ok(vec![7, -8, -1]));
    // FIXED order 2: a line, then a residual of 1 with parameter 0.
    let s = frame_stream(
        8,
        4,
        0,
        &[(0b0001_0100, 8), (10, 8), (20, 8), (0, 2), (0, 4), (0, 4), (0b1, 1), (0b001, 3)],
    );
    assert_eq!(first_channel(&s), Ok(vec![10, 20, 30, 41]));
    // LPC order 1: twice the last sample, over 2, minus the folded residual 1.
    let s = frame_stream(
        8,
        3,
        0,
        &[
            (0b0100_0000, 8),
            (100, 8),
            (2, 4),
            (1, 5),
            (0b010, 3),
            (1, 2),
            (0, 4),
            (0, 5),
            (0b01, 2),
            (0b1, 1),
        ],
    );
    assert_eq!(first_channel(&s), Ok(vec![100, 99, 99]));
    // FIXED order 0 with escape codes: two raw partitions, one of zero width.
    let s = frame_stream(
        8,
        4,
        0,
        &[(0b0001_0000, 8), (0, 2), (1, 4), (15, 4), (3, 5), (0b011, 3), (0b100, 3), (15, 4), (0, 5)],
    );
    assert_eq!(first_channel(&s), Ok(vec![3, -4, 0, 0]));
}

#[test]
fn malformed_subframes_are_refused() {
    let bad = |body: &[(u64, u32)]| first_channel(&frame_stream(8, 4, 0, body)).err();
    let sub = |what: &'static str| Some(DecodeError::BadSubframe(what));
    assert_eq!(bad(&[(0x80, 8)]), sub("padding bit"));
    assert_eq!(bad(&[(0b0000_0100, 8)]), sub("reserved type"));
    assert_eq!(bad(&[(0b0001_1010, 8)]), sub("reserved type"));
    assert_eq!(bad(&[(1, 8), (0b0000_0001, 8)]), sub("wasted bits >= bps"));
    assert_eq!(bad(&[(0b0100_1000, 8)]), sub("lpc order > blocksize"));
    assert_eq!(bad(&[(0b0100_0000, 8), (0, 8), (15, 4)]), sub("qlp precision 16"));
    assert_eq!(bad(&[(0b0100_0000, 8), (0, 8), (3, 4), (0x1F, 5)]), sub("negative shift"));
    assert_eq!(bad(&[(0b0001_0000, 8), (2, 2)]), sub("residual method"));
    assert_eq!(bad(&[(0b0001_0000, 8), (0, 2), (3, 4)]), sub("partition geometry"));
    assert_eq!(
        first_channel(&frame_stream(8, 3, 0, &[(0b0001_1000, 8)])).err(),
        sub("fixed order > blocksize")
    );
    assert_eq!(
        first_channel(&frame_stream(8, 4, 11, &[])).err(),
        Some(DecodeError::BadFrameHeader("channel assignment"))
    );
    assert_eq!(
        first_channel(&frame_stream(8, 4, 8, &[])).err(),
        Some(DecodeError::Inconsistent("frame channels"))
    );
}

/// A frame may name its sample rate, and then it is STREAMINFO's.
#[test]
fn frames_agree_with_streaminfo_on_the_rate() {
    let frame = |rate: u64, rate_code: u64, rate_bits: (u64, u32)| {
        let made = Made {
            rate,
            rate_code,
            rate_bits,
            ..Made::mono(16, 1, 0)
        };
        let stream = made.stream(&[(0, 8), (7, 16)]);
        let mut out = vec![vec![1, 2]];
        let r = Decoder::new(&stream).unwrap().next_frame(&mut out);
        match r {
            Ok(Some(1)) => assert_eq!(out, vec![vec![1, 2, 7]]),
            _ => assert_eq!(out, vec![vec![1, 2]]),
        }
        r
    };
    let other = Err(DecodeError::Inconsistent("frame sample rate"));
    let table = [
        88200, 176400, 192000, 8000, 16000, 22050, 24000, 32000, 44100, 48000, 96000,
    ];
    for (i, &rate) in table.iter().enumerate() {
        for &stream_rate in &table {
            let want = if rate == stream_rate {
                Ok(Some(1))
            } else {
                other.clone()
            };
            assert_eq!(frame(stream_rate, i as u64 + 1, (0, 0)), want);
        }
    }
    assert_eq!(frame(44100, 0, (0, 0)), Ok(Some(1)));
    assert_eq!(frame(44000, 12, (44, 8)), Ok(Some(1)));
    assert_eq!(frame(44100, 12, (44, 8)), other);
    assert_eq!(frame(44100, 13, (44100, 16)), Ok(Some(1)));
    assert_eq!(frame(44100, 13, (44101, 16)), other);
    assert_eq!(frame(44100, 14, (4410, 16)), Ok(Some(1)));
    assert_eq!(frame(44100, 14, (4411, 16)), other);
    // The checksum and the channels come first.
    let mut made = Made {
        rate_code: 10,
        channels: 2,
        ..Made::mono(16, 1, 0)
    };
    let body = [(0u64, 8u32), (7, 16)];
    assert_eq!(
        first_channel(&made.stream(&body)).err(),
        Some(DecodeError::Inconsistent("frame channels"))
    );
    made.channels = 1;
    let mut stream = made.stream(&body);
    stream[44] ^= 0x01;
    assert_eq!(
        first_channel(&stream).err(),
        Some(DecodeError::BadFrameHeader("crc8"))
    );
}

/// One frame of 32-bit stereo.
fn wide_stereo(bs: u32, assignment: u32, body: &[(u64, u32)]) -> Result<Vec<Vec<i32>>, DecodeError> {
    let made = Made {
        channels: 2,
        ..Made::mono(32, bs, assignment)
    };
    decode(&made.stream(body)).map(|(_, chans)| chans)
}

/// The low 33 bits of a number.
fn low33(v: i64) -> (u64, u32) {
    (v as u64 & 0x1_FFFF_FFFF, 33)
}

/// The low 32 bits of a number.
fn low32(v: i32) -> (u64, u32) {
    (v as u32 as u64, 32)
}

const MIN: i32 = i32::MIN;
const MAX: i32 = i32::MAX;

/// A side channel of a 32-bit stream has 33 bits.
#[test]
fn side_channels_of_33_bits_decode() {
    // CONSTANT.
    let got = wide_stereo(1, 8, &[(0, 8), (5, 32), (0, 8), low33(1)]);
    assert_eq!(got, Ok(vec![vec![5], vec![4]]));
    // VERBATIM, in every stereo mode.
    let l = [MAX, MIN, MIN, MAX, -1, 7, MAX, 0];
    let r = [MIN, MAX, MIN, MAX, 1, -8, MAX - 1, -1];
    for assignment in 8..=10u32 {
        let mut plain = vec![(0b0000_0010, 8)];
        let mut side = vec![(0b0000_0010, 8)];
        for i in 0..8 {
            let (x, y) = (l[i] as i64, r[i] as i64);
            plain.push(low32(match assignment {
                8 => l[i],
                9 => r[i],
                _ => ((x + y) >> 1) as i32,
            }));
            side.push(low33(x - y));
        }
        let body = if assignment == 9 {
            [side, plain].concat()
        } else {
            [plain, side].concat()
        };
        let got = wide_stereo(8, assignment, &body);
        assert_eq!(got, Ok(vec![l.to_vec(), r.to_vec()]), "assignment {assignment}");
    }
    // FIXED order 1, a residual of -1.
    let left = [(0b0000_0010, 8), low32(MAX), low32(MAX - 1)];
    let residual = [(0u64, 2u32), (0, 4), (0, 4), (0b01, 2)];
    let want = Ok(vec![vec![MAX, MAX - 1], vec![MIN, MIN]]);
    let fixed = [(0b0001_0010, 8), low33(0xFFFF_FFFF)];
    let body = [&left[..], &fixed[..], &residual[..]].concat();
    assert_eq!(wide_stereo(2, 8, &body), want);
    // LPC order 1, the last sample itself.
    let lpc = [(0b0100_0000, 8), low33(0xFFFF_FFFF), (2, 4), (0, 5), (0b001, 3)];
    let body = [&left[..], &lpc[..], &residual[..]].concat();
    assert_eq!(wide_stereo(2, 8, &body), want);
    // FIXED orders 0 and 2 to 4: what a polynomial of lower degree predicts.
    for order in [0u64, 2, 3, 4] {
        let n = 5 + order as usize;
        let side: Vec<i64> = (0..n as i64)
            .map(|i| match order {
                0 => 0,
                2 => 0xFFFF_FFF0 - i,
                3 => 0xFFFF_FF00 - i * i,
                _ => 0xFFFF_F000 - i * i * i,
            })
            .collect();
        let mut body = vec![(0, 8), low32(MAX), (8 + order << 1, 8)];
        body.extend(side[..order as usize].iter().map(|&v| low33(v)));
        body.extend([(0u64, 2u32), (0, 4), (0, 4)]);
        body.extend((0..5).map(|_| (1u64, 1u32)));
        let want: Vec<i32> = side.iter().map(|&v| (MAX as i64 - v) as i32).collect();
        let got = wide_stereo(n as u32, 8, &body).unwrap();
        assert_eq!(got, vec![vec![MAX; n], want], "order {order}");
    }
    // Wasted bits: one, and all but one.
    let body = [(0, 8), low32(MAX), (1, 8), (1, 1), (0x7FFF_FFFF, 32)];
    assert_eq!(wide_stereo(1, 8, &body), Ok(vec![vec![MAX], vec![-MAX]]));
    let body = [(0, 8), (9, 32), (1, 8), (1, 32), (0, 1)];
    assert_eq!(wide_stereo(1, 8, &body), Ok(vec![vec![9], vec![9]]));
}

/// What does not undo to samples of 32 bits is refused.
#[test]
fn malformed_wide_frames_are_refused() {
    let sub = |why| Err(DecodeError::BadSubframe(why));
    let left = (0u64, 8u32);
    let side = |body: &[(u64, u32)]| wide_stereo(1, 8, &[&[left, (0, 32)], body].concat());
    let range = sub("sample out of range");
    assert_eq!(side(&[(0, 8), low33(0x8000_0001)]), range);
    assert_eq!(side(&[(0, 8), low33(0x8000_0000)]), Ok(vec![vec![0], vec![MIN]]));
    assert_eq!(side(&[(0, 8), low33(-0x8000_0000)]), range);
    assert_eq!(side(&[(1, 8), (1, 32), (1, 1)]), range);
    for assignment in [9, 10] {
        let body = match assignment {
            9 => [(0, 8), low33(1), left, low32(MAX)],
            _ => [left, low32(MAX), (0, 8), low33(2)],
        };
        assert_eq!(wide_stereo(1, assignment, &body), range);
    }
    // The checksum is looked at first.
    let made = Made {
        channels: 2,
        ..Made::mono(32, 1, 8)
    };
    let mut stream = made.stream(&[left, (0, 32), (0, 8), low33(0x8000_0001)]);
    *stream.last_mut().unwrap() ^= 1;
    assert_eq!(decode(&stream).err(), Some(DecodeError::BadFrameCrc));

    assert_eq!(side(&[(0, 8)]), Err(DecodeError::Truncated));
    assert_eq!(side(&[(0b0000_0010, 8)]), Err(DecodeError::Truncated));
    assert_eq!(side(&[(1, 8), (0, 32), (1, 1)]), sub("wasted bits >= bps"));
    assert_eq!(side(&[(0x80, 8)]), sub("padding bit"));
    assert_eq!(side(&[(0b0000_0100, 8)]), sub("reserved type"));
    assert_eq!(side(&[(0b0001_0100, 8)]), sub("fixed order > blocksize"));
    assert_eq!(side(&[(0b0100_0010, 8)]), sub("lpc order > blocksize"));
    let lpc = [(0b0100_0000, 8), low33(0)];
    assert_eq!(side(&[&lpc[..], &[(15, 4)]].concat()), sub("qlp precision 16"));
    assert_eq!(side(&[&lpc[..], &[(3, 4), (0x1F, 5)]].concat()), sub("negative shift"));
    assert_eq!(side(&[(0b0001_0000, 8), (2, 2)]), sub("residual method"));
}

// ---------------------------------------------------------------------------
// The encoder
// ---------------------------------------------------------------------------
fn sine_stereo(n: usize) -> (Vec<i32>, Vec<i32>) {
    let l: Vec<i32> = (0..n)
        .map(|i| ((i as f64 * 0.05).sin() * 20000.0) as i32)
        .collect();
    let r = vec![1234i32; n];
    (l, r)
}

#[test]
fn roundtrip_lossless_stereo_s16() {
    let (l, r) = sine_stereo(10_000);
    let mut enc = Encoder::new(44100, 2, 16).unwrap();
    enc.push_planar(&[&l, &r]).unwrap();
    let stream = finish(enc);
    assert_eq!(&stream[..4], b"fLaC");
    let (sr, ch, bps, chans) = decode_with_claxon(&stream);
    assert_eq!((sr, ch, bps), (44100, 2, 16));
    assert_eq!(chans[0], l);
    assert_eq!(chans[1], r);
    // It must actually compress (sine + constant).
    assert!(
        stream.len() < 10_000 * 4 / 2,
        "no compression: {}",
        stream.len()
    );
}

#[test]
fn roundtrip_interleaved_matches_planar() {
    let (l, r) = sine_stereo(5_000);
    let inter: Vec<i32> = l.iter().zip(&r).flat_map(|(&a, &b)| [a, b]).collect();

    let mut e1 = Encoder::new(48000, 2, 16).unwrap();
    e1.push_planar(&[&l, &r]).unwrap();
    let mut e2 = Encoder::new(48000, 2, 16).unwrap();
    e2.push_interleaved(&inter).unwrap();
    assert_eq!(finish(e1), finish(e2));
}

#[test]
fn compression_level_lossless_and_monotonic() {
    // Noisy-ish deterministic signal so LPC order matters.
    let n = 20_000;
    let mut x = 0i64;
    let s: Vec<i32> = (0..n)
        .map(|i| {
            x = x
                .wrapping_mul(6364136223846793005)
                .wrapping_add(1442695040888963407);
            let noise = ((x >> 33) & 0xFF) as i32 - 128;
            ((i as f64 * 0.03).sin() * 12000.0) as i32 + noise
        })
        .collect();
    let encode_at = |level: u32| -> Vec<u8> {
        let mut e = Encoder::new(44100, 1, 16).unwrap();
        e.set_compression_level(level);
        e.push_planar(&[&s]).unwrap();
        finish(e)
    };
    let l0 = encode_at(0);
    let l8 = encode_at(8);
    for stream in [&l0, &l8] {
        let (_, _, _, chans) = decode_with_claxon(stream);
        assert_eq!(chans[0], s, "compression-level round-trip is not lossless");
    }
    assert!(l8.len() <= l0.len(), "level 8 larger than level 0");
}

#[test]
fn stats_paths_wired() {
    let (l, r) = sine_stereo(10_000);
    let mut enc = Encoder::new(44100, 2, 16).unwrap();
    enc.push_planar(&[&l, &r]).unwrap();
    analyze(&mut enc);
    let (_, stats) = enc.finish_with_stats();
    assert!(stats.frames > 0);
    assert!(stats.sub_constant > 0, "constant channel not detected");
    assert!(
        stats.sub_lpc + stats.sub_fixed > 0,
        "no predictive subframes"
    );
}

#[test]
fn counters_add_up() {
    let (l, r) = test_signal(20_000);
    let mut enc = Encoder::new(44100, 2, 16).unwrap();
    enc.push_planar(&[&l, &r]).unwrap();
    analyze(&mut enc);
    let (_, s) = enc.finish_with_stats();
    assert_eq!(s.frames, 5);
    assert_eq!(s.sub_constant + s.sub_verbatim + s.sub_fixed + s.sub_lpc, 10);
    assert!(s.sub_lpc > 0);
    assert_eq!(
        s.stereo_independent + s.stereo_left_side + s.stereo_right_side + s.stereo_mid_side,
        5
    );
    assert_eq!(s.partition_orders.iter().sum::<u64>(), s.sub_fixed + s.sub_lpc);
    assert_eq!(s.fixed_orders.iter().sum::<u64>(), s.sub_fixed);
}

/// 16-bit content stored in a 24-bit container (8 zero LSBs per sample)
/// must trigger the wasted-bits path: dramatically smaller than the naive
/// coding, still exactly lossless.
#[test]
fn wasted_bits_on_16_in_24_content() {
    let n = 20_000;
    let mut x = 5u64;
    let s16: Vec<i32> = (0..n)
        .map(|i| {
            x = x.wrapping_mul(6364136223846793005).wrapping_add(11);
            ((i as f64 * 0.02).sin() * 9000.0) as i32 + ((x >> 40) & 0xFF) as i32 - 128
        })
        .collect();
    let s24: Vec<i32> = s16.iter().map(|&v| v << 8).collect();

    let encode = |data: &Vec<i32>, bps: u32| -> Vec<u8> {
        let mut e = Encoder::new(48000, 1, bps).unwrap();
        e.push_planar(&[data]).unwrap();
        finish(e)
    };
    let native16 = encode(&s16, 16);
    let in24 = encode(&s24, 24);

    // Lossless round-trip of the 24-bit stream.
    let (info, chans) = decode(&in24).unwrap();
    assert_eq!(info.bits_per_sample, 24);
    assert_eq!(chans[0], s24, "wasted-bits round-trip broke losslessness");

    // The 24-bit container must cost within ~2% of the true 16-bit coding
    // (8 zero LSBs are shifted out, not Rice-coded).
    let ratio = in24.len() as f64 / native16.len() as f64;
    assert!(
        ratio < 1.02,
        "wasted-bits not engaging: 24-bit container {} B vs 16-bit {} B ({ratio:.3}x)",
        in24.len(),
        native16.len()
    );

    // And the stats counter must show the path fired.
    let mut e = Encoder::new(48000, 1, 24).unwrap();
    e.push_planar(&[&s24]).unwrap();
    analyze(&mut e);
    let (_, stats) = e.finish_with_stats();
    assert!(stats.sub_wasted_bits > 0, "wasted-bits counter never fired");
}

#[test]
fn rejects_bad_config() {
    assert!(Encoder::new(44100, 0, 16).is_err());
    assert!(Encoder::new(44100, 9, 16).is_err());
    assert!(Encoder::new(44100, 2, 12).is_err());
    assert!(Encoder::new(0, 2, 16).is_err());
    let mut e = Encoder::new(44100, 2, 16).unwrap();
    assert!(e.push_interleaved(&[1, 2, 3]).is_err());
}

#[test]
fn every_configuration_error_is_named() {
    let err = |rate: u32, ch: u32, bps: u32| Encoder::new(rate, ch, bps).err();
    assert_eq!(err(44100, 0, 16), Some(EncodeError::NoChannels));
    assert_eq!(err(44100, 9, 16), Some(EncodeError::TooManyChannels(9)));
    assert_eq!(err(44100, 2, 12), Some(EncodeError::UnsupportedBps(12)));
    assert_eq!(err(0, 2, 16), Some(EncodeError::BadSampleRate(0)));
    assert_eq!(err(1 << 20, 2, 16), Some(EncodeError::BadSampleRate(1 << 20)));
    // The first complaint wins.
    assert_eq!(err(0, 0, 0), Some(EncodeError::NoChannels));
    assert_eq!(err((1 << 20) - 1, 8, 24), None);

    let mut e = Encoder::new(44100, 2, 16).unwrap();
    assert_eq!(e.push_interleaved(&[1, 2, 3]), Err(EncodeError::RaggedInput));
    assert_eq!(e.push_s16le_bytes(&[1, 2, 3]), Err(EncodeError::RaggedInput));
    assert_eq!(e.push_f32le_bytes(&[0; 12]), Err(EncodeError::RaggedInput));
    assert_eq!(e.push_planar(&[&[1, 2], &[3]]), Err(EncodeError::RaggedInput));
    assert_eq!(e.push_planar(&[&[1, 2]]), Err(EncodeError::RaggedInput));
    // Nothing of what was refused was kept.
    assert_eq!(decode(&e.finish()).unwrap().1, vec![Vec::<i32>::new(); 2]);
}

#[test]
fn an_empty_stream_is_its_metadata() {
    let stream = finish(Encoder::new(8000, 1, 8).unwrap());
    assert_eq!(stream.len(), 42);
    assert_eq!(stream[4..8], [0x80, 0, 0, 34]);
    let (info, chans) = decode(&stream).unwrap();
    assert_eq!((info.min_frame_size, info.max_frame_size), (0, 0));
    assert_eq!((info.min_block_size, info.max_block_size), (4096, 4096));
    assert_eq!(info.total_samples, 0);
    // The MD5 of nothing.
    assert_eq!(info.md5[..4], [0xd4, 0x1d, 0x8c, 0xd9]);
    assert_eq!(chans, vec![Vec::<i32>::new()]);
}

#[test]
fn the_signature_covers_the_interleaved_samples() {
    let mut enc = Encoder::new(8000, 2, 16).unwrap();
    enc.push_planar(&[&[1, -2], &[256, 3]]).unwrap();
    let (info, _) = decode(&finish(enc)).unwrap();
    let mut md5 = rusty_flac::md5::Md5::new();
    md5.update(&[1, 0, 0, 1, 0xFE, 0xFF, 3, 0]);
    assert_eq!(info.md5, md5.finalize());

    let mut enc = Encoder::new(8000, 1, 24).unwrap();
    enc.push_planar(&[&[-1, 0x01_0203]]).unwrap();
    let (info, _) = decode(&finish(enc)).unwrap();
    let mut md5 = rusty_flac::md5::Md5::new();
    md5.update(&[0xFF, 0xFF, 0xFF, 3, 2, 1]);
    assert_eq!(info.md5, md5.finalize());
}

#[test]
fn the_frame_sizes_are_those_of_the_frames() {
    let (l, _) = test_signal(5_000);
    let mut enc = Encoder::new(44100, 1, 16).unwrap();
    enc.push_planar(&[&l]).unwrap();
    let stream = finish(enc);
    let (info, _) = decode(&stream).unwrap();
    assert!(info.min_frame_size < info.max_frame_size);
    assert_eq!(
        (info.min_frame_size + info.max_frame_size) as usize,
        stream.len() - 42
    );
}

#[test]
fn byte_input_is_sample_input() {
    let (l, r) = test_signal(700);
    let mut bytes = Vec::new();
    let mut inter = Vec::new();
    for (a, b) in l.iter().zip(&r) {
        bytes.extend((*a as i16).to_le_bytes());
        bytes.extend((*b as i16).to_le_bytes());
        inter.extend([*a, *b]);
    }
    let mut e1 = Encoder::new(44100, 2, 16).unwrap();
    e1.push_s16le_bytes(&bytes).unwrap();
    let mut e2 = Encoder::new(44100, 2, 16).unwrap();
    // In two pieces.
    e2.push_interleaved(&inter[..500]).unwrap();
    e2.push_interleaved(&inter[500..]).unwrap();
    let stream = finish(e1);
    assert_eq!(stream, finish(e2));
    assert_eq!(decode(&stream).unwrap().1, vec![l, r]);
}

#[test]
fn float_input_is_quantized() {
    let floats: Vec<f32> = vec![
        0.0,
        1.0,
        -1.0,
        0.5,
        -0.5,
        0.99999,
        2.0,
        -3.0,
        f32::INFINITY,
        f32::NEG_INFINITY,
        f32::NAN,
        1.0e-40,
        -1.0e-9,
        0.5 / 128.0,
        -0.5 / 128.0,
        1.5 / 32768.0,
        -2.5 / 32768.0,
        0.123_456_7,
        f32::MAX,
        f32::MIN_POSITIVE,
    ];
    let bytes: Vec<u8> = floats.iter().flat_map(|f| f.to_le_bytes()).collect();
    for bps in [8u32, 16, 24] {
        let scale = (1i64 << (bps - 1)) as f32;
        let want: Vec<i32> = floats
            .iter()
            .map(|f| (f * scale).round().clamp(-scale, scale - 1.0) as i32)
            .collect();
        let mut enc = Encoder::new(44100, 1, bps).unwrap();
        enc.push_f32le_bytes(&bytes).unwrap();
        assert_eq!(decode(&finish(enc)).unwrap().1[0], want, "bps={bps}");
    }
    let mut two = Encoder::new(44100, 2, 16).unwrap();
    two.push_f32le_bytes(&bytes[..16]).unwrap();
    assert_eq!(
        decode(&finish(two)).unwrap().1,
        vec![vec![0, -32768], vec![32767, 16384]]
    );
}

#[test]
fn quantization_agrees_with_floating_point() {
    let mut x = 1u64;
    for _ in 0..20_000 {
        x = x
            .wrapping_mul(6364136223846793005)
            .wrapping_add(1442695040888963407);
        // Spread over all exponents around the grid.
        let bits = ((x >> 32) as u32 & 0x807F_FFFF) | (((x >> 20) as u32 % 60 + 90) << 23);
        let f = f32::from_bits(bits);
        for bps in [8u32, 16, 24] {
            let scale = (1i64 << (bps - 1)) as f32;
            let want = (f * scale).round().clamp(-scale, scale - 1.0) as i32;
            assert_eq!(rusty_flac::pcm::quantize_f32(bits, bps), want, "{f} at {bps}");
        }
    }
}

/// Predictors that no subframe can hold are ignored, and the worst of
/// predictors cannot break a stream.
#[test]
fn any_analysis_is_lossless() {
    let (l, r) = test_signal(3_000);
    let estimate = |coeffs: Vec<i32>, shift: u32| {
        Some(LpcEstimate {
            est_bits: 20.0f64.to_bits(),
            exhausted: false,
            quantized: Some(Quantized { coeffs, shift }),
        })
    };
    for (coeffs, shift) in [
        (vec![], 0),
        (vec![8192], 0),
        (vec![-8193], 0),
        (vec![1; 13], 3),
        (vec![1], 16),
        (vec![8191; 12], 0),
        (vec![-8192; 12], 15),
        (vec![4096], 12),
    ] {
        let mut enc = Encoder::new(44100, 2, 16).unwrap();
        enc.push_planar(&[&l, &r]).unwrap();
        let arm = ArmAnalysis {
            first: estimate(coeffs.clone(), shift),
            second: estimate(coeffs, shift),
        };
        enc.set_analysis(vec![vec![arm.clone(), arm.clone(), arm.clone(), arm]]);
        let stream = enc.finish();
        assert_eq!(decode(&stream).unwrap().1, vec![l.clone(), r.clone()]);
        assert_eq!(decode_with_claxon(&stream).3, vec![l.clone(), r.clone()]);
    }
}

#[test]
fn failed_quantization_is_counted() {
    let (l, _) = test_signal(300);
    let mut enc = Encoder::new(44100, 1, 16).unwrap();
    enc.push_planar(&[&l]).unwrap();
    let failed = LpcEstimate {
        est_bits: 1000.0f64.to_bits(),
        exhausted: true,
        quantized: None,
    };
    let powerless = Quantized {
        coeffs: vec![0, 0],
        shift: 15,
    };
    let close = LpcEstimate {
        est_bits: 999.5f64.to_bits(),
        exhausted: true,
        quantized: Some(powerless),
    };
    enc.set_analysis(vec![vec![ArmAnalysis {
        first: Some(failed),
        second: Some(close),
    }]]);
    let (stream, stats) = enc.finish_with_stats();
    assert_eq!(stats.lpc_quantize_failed, 2);
    assert_eq!(stats.lpc_levinson_exhausted, 2);
    assert_eq!(stats.lpc_window_second_won, 0);
    assert_eq!(decode(&stream).unwrap().1[0], l);
}

#[test]
fn the_better_window_wins() {
    let s: Vec<i32> = (0..200).map(|i| i * 3).collect();
    let run = |first: (i32, f64), second: (i32, f64)| {
        let mut enc = Encoder::new(44100, 1, 16).unwrap();
        enc.push_planar(&[&s]).unwrap();
        let est = |c: i32, est: f64| {
            Some(LpcEstimate {
                est_bits: est.to_bits(),
                exhausted: false,
                quantized: Some(Quantized {
                    coeffs: vec![c, -4096],
                    shift: 12,
                }),
            })
        };
        enc.set_analysis(vec![vec![ArmAnalysis {
            first: est(first.0, first.1),
            second: est(second.0, second.1),
        }]]);
        enc.finish_with_stats().1.lpc_window_second_won
    };
    // 8191/4096 predicts a line nearly, 4096/4096 does not.
    assert_eq!(run((4096, 50.0), (8191, 50.0)), 1);
    assert_eq!(run((8191, 50.0), (8191, 50.0)), 0);
    assert_eq!(run((4096, 50.0), (8191, 51.0)), 1);
    assert_eq!(run((8191, 51.0), (4096, 50.0)), 0);
    // A clear loser by its estimate is not even tried.
    assert_eq!(run((4096, 50.0), (8191, 51.1)), 0);
    assert_eq!(run((8191, 51.1), (4096, 50.0)), 1);
    // An estimate out of range does not count.
    assert_eq!(run((4096, 50.0), (8191, 0.5)), 0);
    assert_eq!(run((4096, f64::NAN), (8191, 50.0)), 1);
}

/// Every stereo mode wins where it should.
#[test]
fn stereo_modes_are_all_reachable() {
    let noise = |seed: u64, n: usize, bits: u32| -> Vec<i32> {
        let mut rng = Rng(seed);
        (0..n).map(|_| rng.i32_in(bits)).collect()
    };
    let n = 4096;
    let loud = noise(1, n, 13);
    let quiet = noise(2, n, 3);
    let run = |l: &[i32], r: &[i32]| {
        let mut enc = Encoder::new(44100, 2, 16).unwrap();
        enc.push_planar(&[l, r]).unwrap();
        analyze(&mut enc);
        let (stream, stats) = enc.finish_with_stats();
        assert_eq!(decode(&stream).unwrap().1, vec![l.to_vec(), r.to_vec()]);
        assert_eq!(decode_with_claxon(&stream).3, vec![l.to_vec(), r.to_vec()]);
        (
            stats.stereo_independent,
            stats.stereo_left_side,
            stats.stereo_right_side,
            stats.stereo_mid_side,
        )
    };
    // Unrelated channels.
    assert_eq!(run(&loud, &quiet), (1, 0, 0, 0));
    // The difference of equal channels is nothing; the lowest mode wins a tie.
    assert_eq!(run(&loud, &loud), (0, 1, 0, 0));
    // The right channel is as good as the mean, and even where the left is odd.
    let even: Vec<i32> = loud.iter().map(|v| 2 * v).collect();
    let odd: Vec<i32> = even.iter().map(|v| v + 1).collect();
    assert_eq!(run(&odd, &even), (0, 0, 1, 0));
    // Only the mean is even.
    let above: Vec<i32> = loud.iter().map(|v| 4 * v + 1).collect();
    let below: Vec<i32> = loud.iter().map(|v| 4 * v - 1).collect();
    assert_eq!(run(&above, &below), (0, 0, 0, 1));
}

// ---------------------------------------------------------------------------
// Gates
// ---------------------------------------------------------------------------
/// Deterministic xorshift-ish noise.
struct Rng(u64);

impl Rng {
    fn next(&mut self) -> u64 {
        self.0 = self
            .0
            .wrapping_mul(6364136223846793005)
            .wrapping_add(1442695040888963407);
        self.0
    }
    fn i32_in(&mut self, bits: u32) -> i32 {
        let v = (self.next() >> 20) as i64;
        let span = 1i64 << bits;
        ((v % span) - span / 2) as i32
    }
}

/// One channel of a named content class, `n` samples at `bps`.
fn content(class: &str, n: usize, bps: u32, seed: u64) -> Vec<i32> {
    let full = (1i64 << (bps - 1)) as f64 - 1.0;
    let mut rng = Rng(seed);
    match class {
        "silence" => vec![0; n],
        "dc" => vec![(full * 0.25) as i32; n],
        "sine" => (0..n)
            .map(|i| ((i as f64 * 0.037).sin() * full * 0.7) as i32)
            .collect(),
        "sweep" => (0..n)
            .map(|i| {
                let t = i as f64 / n as f64;
                ((i as f64 * (0.002 + 0.25 * t)).sin() * full * 0.6) as i32
            })
            .collect(),
        "noise" => (0..n).map(|_| rng.i32_in(bps)).collect(),
        "quiet-noise" => (0..n)
            .map(|_| rng.i32_in(bps.saturating_sub(9).max(2)))
            .collect(),
        "transients" => (0..n)
            .map(|i| {
                let base = ((i as f64 * 0.01).sin() * full * 0.05) as i32;
                if i % 1723 < 6 {
                    base + ((rng.next() as i32) % (full as i32 / 2))
                } else {
                    base
                }
            })
            .collect(),
        "sixteen-in-container" => {
            // Content quantized coarser than the container (wasted bits):
            // a sine on a coarse grid, always inside the container's range.
            let shift = (bps / 4).min(8);
            let amp = full / (1i64 << shift) as f64 * 0.7;
            (0..n)
                .map(|i| (((i as f64 * 0.05).sin() * amp) as i32) << shift)
                .collect()
        }
        _ => panic!("unknown content class {class}"),
    }
}

#[test]
fn content_type_matrix_roundtrips_everywhere() {
    let classes = [
        "silence",
        "dc",
        "sine",
        "sweep",
        "noise",
        "quiet-noise",
        "transients",
        "sixteen-in-container",
    ];
    let n = 12_000usize; // > 2 blocks + a short tail block
    let mut failures: Vec<String> = Vec::new();

    for &bps in &[8u32, 16, 24] {
        for &channels in &[1u32, 2, 6] {
            for class in classes {
                for &level in &[0u32, 5, 8] {
                    let planes: Vec<Vec<i32>> = (0..channels)
                        .map(|c| content(class, n, bps, 0x1234 + c as u64 * 77))
                        .collect();
                    let mut enc = Encoder::new(44100, channels, bps).unwrap();
                    enc.set_compression_level(level);
                    let refs: Vec<&[i32]> = planes.iter().map(|p| p.as_slice()).collect();
                    enc.push_planar(&refs).unwrap();
                    let stream = finish(enc);

                    let tag = format!("{class}/{bps}bit/{channels}ch/L{level}");

                    // Our decoder.
                    match decode(&stream) {
                        Ok((info, chans)) => {
                            if info.bits_per_sample != bps || chans != planes {
                                failures.push(format!("{tag}: own-decoder mismatch"));
                            }
                        }
                        Err(e) => failures.push(format!("{tag}: own-decoder error {e:?}")),
                    }
                    // Independent oracle.
                    let claxon = decode_with_claxon(&stream).3;
                    if claxon != planes {
                        failures.push(format!("{tag}: claxon mismatch"));
                    }
                }
            }
        }
    }
    assert!(
        failures.is_empty(),
        "{} gate failures:\n{}",
        failures.len(),
        failures.join("\n")
    );
}

/// Odd block-tail sizes: totals that leave 1-sample and prime-length final
/// blocks, plus tiny whole streams.
#[test]
fn awkward_lengths_roundtrip() {
    for &n in &[1usize, 2, 5, 4095, 4096, 4097, 8193] {
        let s: Vec<i32> = (0..n)
            .map(|i| ((i as f64 * 0.21).sin() * 7000.0) as i32)
            .collect();
        let mut enc = Encoder::new(32000, 1, 16).unwrap();
        enc.push_planar(&[&s]).unwrap();
        let stream = finish(enc);
        let (info, chans) = decode(&stream).unwrap();
        assert_eq!(info.total_samples, n as u64, "n={n}");
        assert_eq!(chans[0], s, "n={n}");
        assert_eq!(decode_with_claxon(&stream).3[0], s, "claxon n={n}");
    }
}

/// Every supported sample rate field survives the STREAMINFO round-trip.
#[test]
fn sample_rates_roundtrip() {
    for &rate in &[8_000u32, 22_050, 44_100, 48_000, 96_000, 192_000] {
        let s: Vec<i32> = (0..5000)
            .map(|i| ((i as f64 * 0.1).sin() * 5000.0) as i32)
            .collect();
        let mut enc = Encoder::new(rate, 1, 16).unwrap();
        enc.push_planar(&[&s]).unwrap();
        let stream = finish(enc);
        let (info, chans) = decode(&stream).unwrap();
        assert_eq!(info.sample_rate, rate);
        assert_eq!(chans[0], s);
    }
}
