//! The parts of the codec, one by one.
use rusty_flac::arm::{constant_sample, detect_wasted};
use rusty_flac::binary64;
use rusty_flac::bitio::{BitReader, BitWriter};
use rusty_flac::choice::{estimate_arm, realize_arm, SubframeKind};
use rusty_flac::decode::decode_subframe;
use rusty_flac::estimate::{fixed_order_estimate, fixed_sums, rice_bits_estimate};
use rusty_flac::layout::{analyze_subframe, decide_stereo};
use rusty_flac::number::{read_utf8, write_utf8};
use rusty_flac::partition::{max_partition_order, plan_partitions, write_partitioned_residual};
use rusty_flac::pcm::{pcm_md5, quantize_f32, read_f32le, read_s16le, take_channel};
use rusty_flac::predict::{fixed_residual, lpc_residual, restore_fixed, restore_lpc};
use rusty_flac::rice::{best_k_from_sums, merge_sums, rice_sums, unzigzag, write_rice, zigzag};
use rusty_flac::stats::{Assignment, Event};
use rusty_flac::subframe::write_subframe_from;
use rusty_flac::{ArmAnalysis, ArmInput, EncodeStats};

/// Deterministic noise of `bits` bits.
fn noise(seed: u64, n: usize, bits: u32) -> Vec<i32> {
    let mut x = seed;
    (0..n)
        .map(|_| {
            x = x
                .wrapping_mul(6364136223846793005)
                .wrapping_add(1442695040888963407);
            ((x >> 20) as i64 % (1i64 << bits)) as i32 - (1i32 << (bits - 1))
        })
        .collect()
}

fn no_analysis() -> ArmAnalysis {
    ArmAnalysis {
        first: None,
        second: None,
    }
}

// ---------------------------------------------------------------------------
// Residual coding
// ---------------------------------------------------------------------------
#[test]
fn folding_is_undone() {
    for (v, u) in [
        (0, 0),
        (-1, 1),
        (1, 2),
        (-2, 3),
        (2, 4),
        (i32::MAX, u32::MAX - 1),
        (i32::MIN, u32::MAX),
    ] {
        assert_eq!(zigzag(v), u);
        assert_eq!(unzigzag(u), v);
    }
}

#[test]
fn rice_codes_have_their_exact_bits() {
    // Folded 10 = 0b1010: quotient 2 in unary, stop bit, low bits 10.
    let mut bw = BitWriter::new();
    write_rice(&mut bw, 5, 2);
    assert_eq!(bw.into_bytes(), vec![0b0011_0000]);

    for k in [0u32, 1, 5, 14, 30] {
        for v in [0, 1, -1, 100, -100, 3000, -3000] {
            let mut bw = BitWriter::new();
            write_rice(&mut bw, v, k);
            let bytes = bw.into_bytes();
            let mut br = BitReader::new(&bytes);
            assert_eq!(br.read_rice(k), Some(zigzag(v)), "v={v} k={k}");
        }
    }
}

#[test]
fn quotient_sums_price_every_parameter() {
    let res = vec![0, -1, 1, -2, 500, -70_000, i32::MIN];
    let sums = rice_sums(&res);
    for (k, &s) in sums.iter().enumerate() {
        let want: u64 = res.iter().map(|&v| (zigzag(v) >> k) as u64).sum();
        assert_eq!(s, want, "k={k}");
    }
    let halves = merge_sums(&rice_sums(&res[..3]), &rice_sums(&res[3..]));
    assert_eq!(halves, sums);
    assert_eq!(rice_sums(&[]), [0u64; 31]);
}

#[test]
fn the_best_parameter_is_the_cheapest() {
    for (seed, bits) in [(1u64, 3u32), (2, 8), (3, 16), (4, 24)] {
        let res = noise(seed, 200, bits);
        let sums = rice_sums(&res);
        for kmax in [14usize, 30] {
            let cost = |k: usize| sums[k] + 200 * (1 + k as u64);
            let (k, bits) = best_k_from_sums(&sums, 200, kmax);
            assert_eq!(bits, cost(k as usize));
            for other in 0..=kmax {
                assert!(bits <= cost(other));
                assert!(other >= k as usize || bits < cost(other));
            }
        }
    }
}

#[test]
fn partition_orders_tile_the_block() {
    assert_eq!(max_partition_order(4096, 0), 8);
    assert_eq!(max_partition_order(4096, 12), 8);
    assert_eq!(max_partition_order(4096, 16), 7);
    assert_eq!(max_partition_order(4095, 4), 0);
    assert_eq!(max_partition_order(192, 2), 6);
    assert_eq!(max_partition_order(1, 0), 0);
    assert_eq!(max_partition_order(2, 1), 0);
}

#[test]
fn a_plan_costs_what_it_says() {
    // Quiet, then loud: worth splitting.
    let mut res = noise(5, 124, 3);
    res.extend(noise(6, 128, 20));
    let plan = plan_partitions(&res, 256, 4);
    assert_eq!(plan.ks.len(), 1 << plan.partition_order);
    assert!(plan.partition_order >= 1);
    assert_eq!(plan.method, 1);
    let mut bw = BitWriter::new();
    write_partitioned_residual(&mut bw, &res, 256, 4, &plan);
    assert_eq!(bw.into_bytes().len() as u64, (plan.bits + 7) / 8);

    // No single partition is cheaper, with any parameter.
    let sums = rice_sums(&res);
    for k in 0..=30usize {
        let whole = sums[k] + 252 * (1 + k as u64) + if k <= 14 { 4 } else { 5 };
        assert!(plan.bits <= whole);
    }
}

// ---------------------------------------------------------------------------
// Prediction
// ---------------------------------------------------------------------------
#[test]
fn fixed_prediction_is_undone() {
    let s = vec![3, 1, 4, 1, 5, -9, i32::MAX, i32::MIN, 7];
    assert_eq!(fixed_residual(&[1, 4, 9, 16, 25], 2), vec![2, 2, 2]);
    assert_eq!(fixed_residual(&[0, 1, 8, 27, 64, 125], 4), vec![0, 0]);
    for order in 0..=4usize {
        let mut buf = s[..order].to_vec();
        buf.extend(fixed_residual(&s, order));
        restore_fixed(&mut buf, order);
        assert_eq!(buf, s, "order={order}");
    }
}

#[test]
fn linear_prediction_is_undone() {
    // Half of the last sample, rounded down.
    assert_eq!(lpc_residual(&[-3, 0, 5], &[1], 1), vec![2, 5]);
    let s = noise(9, 300, 25);
    for (coeffs, shift) in [
        (vec![1], 0),
        (vec![8191, -8192], 12),
        (vec![8191; 12], 0),
        (vec![-4000; 32], 15),
    ] {
        let mut buf = s[..coeffs.len()].to_vec();
        buf.extend(lpc_residual(&s, &coeffs, shift));
        restore_lpc(&mut buf, &coeffs, shift);
        assert_eq!(buf, s);
    }
}

// ---------------------------------------------------------------------------
// Frame numbers
// ---------------------------------------------------------------------------
#[test]
fn frame_numbers_read_back() {
    for (v, len) in [
        (0u64, 1usize),
        (0x7F, 1),
        (0x80, 2),
        (0x7FF, 2),
        (0x800, 3),
        (0xFFFF, 3),
        (0x1_0000, 4),
        (0x1F_FFFF, 4),
        (0x20_0000, 5),
        (0x3FF_FFFF, 5),
        (0x400_0000, 6),
        (0x7FFF_FFFF, 6),
    ] {
        let mut bw = BitWriter::new();
        write_utf8(&mut bw, v);
        let bytes = bw.into_bytes();
        assert_eq!(bytes.len(), len, "v={v}");
        assert_eq!(read_utf8(&mut BitReader::new(&bytes)), Some(v));
    }
    let mut bw = BitWriter::new();
    write_utf8(&mut bw, 0x20AC);
    assert_eq!(bw.into_bytes(), vec![0xE2, 0x82, 0xAC]);
}

#[test]
fn malformed_numbers_are_refused() {
    for bytes in [&[0x80u8][..], &[0xFF], &[0xC2], &[0xC2, 0x00], &[]] {
        assert_eq!(read_utf8(&mut BitReader::new(bytes)), None);
    }
    // Seven bytes hold 36 bits.
    let long = [0xFEu8, 0xBF, 0xBF, 0xBF, 0xBF, 0xBF, 0xBF];
    assert_eq!(read_utf8(&mut BitReader::new(&long)), Some(0xF_FFFF_FFFF));
}

// ---------------------------------------------------------------------------
// Arms and estimates
// ---------------------------------------------------------------------------
#[test]
fn wasted_bits_are_those_that_all_samples_share() {
    assert_eq!(detect_wasted(&[0, 0], 16), 0);
    assert_eq!(detect_wasted(&[8, -16, 0], 16), 3);
    assert_eq!(detect_wasted(&[8, -16, 1], 16), 0);
    assert_eq!(detect_wasted(&[i32::MIN], 8), 7);
    assert_eq!(detect_wasted(&[2, 4], 1), 0);

    let arm = ArmInput::prepare(&[256, -512, 768], 24);
    assert_eq!(arm.samples, vec![1, -2, 3]);
    assert_eq!((arm.ebps, arm.wasted), (16, 8));
}

/// The same block in a deeper container is the same arm.
#[test]
fn a_deeper_container_changes_nothing_but_the_count() {
    let s = noise(11, 64, 12);
    let up: Vec<i32> = s.iter().map(|v| v << 8).collect();
    let (a, b) = (ArmInput::prepare(&s, 16), ArmInput::prepare(&up, 24));
    assert_eq!(a.samples, b.samples);
    assert_eq!((a.ebps, a.wasted + 8), (b.ebps, b.wasted));
}

#[test]
fn constants_are_seen() {
    assert_eq!(constant_sample(&[5, 5, 5]), Some(5));
    assert_eq!(constant_sample(&[5, 5, 6]), None);
    assert_eq!(constant_sample(&[-1]), Some(-1));
}

#[test]
fn fixed_orders_are_estimated_from_sums() {
    let s = [1, 4, 9, 16, 25, 36];
    assert_eq!(fixed_sums(&s), [91, 35, 8, 0, 0]);
    assert_eq!(fixed_order_estimate(&s), (3, 0));
    assert_eq!(fixed_order_estimate(&[7]), (0, 7));
    // The lowest order on ties, and no order that the block is too short for.
    assert_eq!(fixed_order_estimate(&[0, 0, 0]), (0, 0));
    assert_eq!(fixed_order_estimate(&[1, 2, 3]), (2, 0));
}

#[test]
fn rice_costs_are_estimated_from_the_mean() {
    assert_eq!(rice_bits_estimate(10, 0), 0);
    assert_eq!(rice_bits_estimate(0, 10), 10);
    // Mean 10: parameters 2, 3 and 4 cost 55, 52 and 56.
    assert_eq!(rice_bits_estimate(50, 10), 52);
    // Mean 2^40: the parameter is capped at 30.
    assert_eq!(rice_bits_estimate(1 << 39, 1), 31 + (1 << 10));
    // Doubling the sum saturates.
    assert_eq!(rice_bits_estimate(u64::MAX, 1), 31 + (u64::MAX >> 30));
    assert_eq!(rice_bits_estimate(1 << 63, 4), 124 + (u64::MAX >> 30));
    assert_eq!(rice_bits_estimate((1 << 63) - 1, 1), 31 + ((u64::MAX - 1) >> 30));
    // As many numbers as can be priced: the mean of the largest total is 33,
    // and parameter 5 is the best.
    let many = u64::MAX / 33;
    assert_eq!(rice_bits_estimate(u64::MAX, many), 6 * many + (u64::MAX >> 5));
}

#[test]
fn estimates_are_floored_and_raised_exactly() {
    assert_eq!(binary64::floor(1.0f64.to_bits()), 1);
    assert_eq!(binary64::floor(4294967295.999f64.to_bits()), 4294967295);
    assert_eq!(binary64::ONE, 1.0f64.to_bits());
    assert_eq!(binary64::TWO_32, 4294967296.0f64.to_bits());
    assert_eq!(binary64::raise(50.0f64.to_bits()), 51.0f64.to_bits());
    let mut x = 3u64;
    for _ in 0..50_000 {
        x = x
            .wrapping_mul(6364136223846793005)
            .wrapping_add(1442695040888963407);
        // Any significand, any exponent in range.
        let bits = ((1023 + (x >> 59)) << 52) | (x >> 8 & 0xF_FFFF_FFFF_FFFF);
        let v = f64::from_bits(bits);
        assert_eq!(binary64::floor(bits), v as u64, "{v}");
        assert_eq!(binary64::raise(bits), (v * (1.0 + 0.02)).to_bits(), "{v}");
    }
}

// ---------------------------------------------------------------------------
// Subframes and layouts
// ---------------------------------------------------------------------------
#[test]
fn the_chosen_subframe_takes_the_bits_it_says() {
    let line: Vec<i32> = (0..100).map(|i| 3 * i + (i % 2)).collect();
    let cases: [(Vec<i32>, u32); 4] = [
        (vec![-7; 50], 16),
        (noise(21, 100, 16), 16),
        (line, 16),
        (noise(22, 100, 8).iter().map(|v| v * 16).collect(), 16),
    ];
    let mut kinds = Vec::new();
    for (s, bps) in &cases {
        let arm = ArmInput::prepare(s, *bps);
        let mut stats = EncodeStats::default();
        let choice = analyze_subframe(&arm, &no_analysis(), 12, &mut stats);
        let mut bw = BitWriter::new();
        write_subframe_from(&mut bw, &arm, &choice, &mut stats);
        assert_eq!(bw.into_bytes().len() as u64, (choice.bits + 7) / 8);
        assert!(choice.bits <= 8 + arm.wasted as u64 + (s.len() as u64) * arm.ebps as u64);
        assert_eq!(stats.sub_wasted_bits, (arm.wasted > 0) as u64);
        kinds.push(match choice.kind {
            SubframeKind::Constant(v) => format!("constant {v}"),
            SubframeKind::Verbatim => "verbatim".to_string(),
            SubframeKind::Fixed { order, .. } => format!("fixed {order}"),
            SubframeKind::Lpc(_) => "lpc".to_string(),
        });
    }
    assert_eq!(kinds[0], "constant -7");
    assert_eq!(kinds[1], "verbatim");
    assert!(kinds[2].starts_with("fixed"));
}

#[test]
fn an_arm_is_estimated_before_it_is_realized() {
    let arm = ArmInput::prepare(&[4, 4, 4], 16);
    let mut stats = EncodeStats::default();
    let est = estimate_arm(&arm, &no_analysis(), 12, &mut stats);
    // Two wasted bits, then one sample of 14.
    assert_eq!((est.constant, est.est_bits), (Some(1), 8 + 2 + 14));
    let choice = realize_arm(&arm, &est, &no_analysis(), 12, &mut stats);
    assert_eq!(choice.bits, 24);

    let arm = ArmInput::prepare(&noise(31, 40, 16), 16);
    let est = estimate_arm(&arm, &no_analysis(), 12, &mut stats);
    assert_eq!((est.constant, est.est_bits), (None, 8 + 40 * 16));
}

#[test]
fn equal_channels_are_coded_once() {
    let l = noise(41, 64, 10);
    let mut stats = EncodeStats::default();
    let layout = decide_stereo(&l, &l, 16, &[], 12, &mut stats);
    assert_eq!(layout.assignment, 8);
    assert_eq!(layout.subs[0].arm.samples, l);
    assert!(matches!(layout.subs[1].choice.kind, SubframeKind::Constant(0)));
    assert_eq!(stats.stereo_left_side, 1);
}

#[test]
fn every_event_has_its_counter() {
    let mut s = EncodeStats::default();
    for e in [
        Event::Frame,
        Event::Constant,
        Event::Verbatim,
        Event::Fixed,
        Event::Lpc,
        Event::Stereo(Assignment::Independent),
        Event::Stereo(Assignment::LeftSide),
        Event::Stereo(Assignment::RightSide),
        Event::Stereo(Assignment::MidSide),
        Event::QuantizeFailed,
        Event::LevinsonExhausted,
        Event::SecondWindowWon,
        Event::PartitionOrder(8),
        Event::FixedOrder(4),
        Event::WastedBits,
    ] {
        s.count(e);
    }
    let scalars = [
        s.frames,
        s.sub_constant,
        s.sub_verbatim,
        s.sub_fixed,
        s.sub_lpc,
        s.stereo_independent,
        s.stereo_left_side,
        s.stereo_right_side,
        s.stereo_mid_side,
        s.lpc_quantize_failed,
        s.lpc_levinson_exhausted,
        s.lpc_window_second_won,
        s.sub_wasted_bits,
    ];
    assert_eq!(scalars, [1; 13]);
    assert_eq!(s.partition_orders, [0, 0, 0, 0, 0, 0, 0, 0, 1]);
    assert_eq!(s.fixed_orders, [0, 0, 0, 0, 1]);
}

// ---------------------------------------------------------------------------
// PCM
// ---------------------------------------------------------------------------
#[test]
fn channels_are_taken_apart() {
    let v = [1, 10, 100, 2, 20, 200];
    assert_eq!(take_channel(&v, 3, 0), vec![1, 2]);
    assert_eq!(take_channel(&v, 3, 2), vec![100, 200]);
    assert_eq!(take_channel(&[], 2, 1), Vec::<i32>::new());
}

#[test]
fn bytes_are_samples() {
    assert_eq!(
        read_s16le(&[0, 0, 1, 0, 0xFF, 0xFF, 0, 0x80, 0xFF, 0x7F, 9]),
        vec![0, 1, -1, -32768, 32767]
    );
    let mut bytes = 0.25f32.to_le_bytes().to_vec();
    bytes.extend((-1.0f32).to_le_bytes());
    assert_eq!(read_f32le(&bytes, 16), vec![8192, -32768]);
    // Halves go away from zero.
    assert_eq!(quantize_f32((0.5f32 / 128.0).to_bits(), 8), 1);
    assert_eq!(quantize_f32((-0.5f32 / 128.0).to_bits(), 8), -1);
    assert_eq!(quantize_f32((1.5f32 / 128.0).to_bits(), 8), 2);
    assert_eq!(quantize_f32(f32::NAN.to_bits(), 24), 0);
    assert_eq!(quantize_f32(f32::INFINITY.to_bits(), 24), (1 << 23) - 1);
    assert_eq!(quantize_f32(f32::NEG_INFINITY.to_bits(), 24), -(1 << 23));
}

#[test]
fn the_signature_is_of_little_endian_rows() {
    let mut h = rusty_flac::md5::Md5::new();
    h.update(&[1, 0, 0xFF, 0xFF, 2, 0, 0xFE, 0xFF]);
    assert_eq!(pcm_md5(&vec![vec![1, 2], vec![-1, -2]], 2, 2), h.finalize());
}

#[test]
fn coefficient_shifts_are_clamped() {
    for exp in -40..40i32 {
        let want = (14 - exp - 1).clamp(0, 15) as u32;
        assert_eq!(rusty_flac::choice::coefficient_shift(exp), want, "{exp}");
    }
    assert_eq!(rusty_flac::choice::coefficient_shift(i32::MIN), 15);
    assert_eq!(rusty_flac::choice::coefficient_shift(i32::MAX), 0);
}

#[test]
fn a_written_subframe_reads_back() {
    let quiet = noise(3, 500, 5);
    let steps: Vec<i32> = noise(4, 300, 12).iter().map(|&v| v << 6).collect();
    let ramp: Vec<i32> = (0..400).map(|i| i * 17 - 3000).collect();
    for (s, bps) in [
        (quiet, 8),
        (steps, 24),
        (ramp, 16),
        (noise(5, 100, 25), 25),
        (vec![-7; 64], 16),
        (vec![1], 4),
    ] {
        let arm = ArmInput::prepare(&s, bps);
        let mut stats = EncodeStats::default();
        let choice = analyze_subframe(&arm, &no_analysis(), 12, &mut stats);
        let mut bw = BitWriter::new();
        bw.write_bits(0b101, 3);
        write_subframe_from(&mut bw, &arm, &choice, &mut stats);
        bw.write_bits(0x5A5A, 16);
        let bytes = bw.into_bytes();
        let mut br = BitReader::new(&bytes);
        assert_eq!(br.read_bits(3), Some(0b101));
        assert_eq!(decode_subframe(&mut br, s.len(), bps), Ok(s));
        assert_eq!(br.read_bits(16), Some(0x5A5A));
    }
}

#[test]
fn fixed_sums_are_sums_of_residuals() {
    for n in 4..60 {
        let s = noise(n as u64, n, 25);
        let sums = fixed_sums(&s);
        for (order, &sum) in sums.iter().enumerate() {
            let want: u64 = fixed_residual(&s, order)
                .iter()
                .map(|r| r.unsigned_abs() as u64)
                .sum();
            assert_eq!(sum, want, "order {order} of {n} samples");
        }
    }
}

#[test]
fn rice_sums_are_sums_of_shifted_residuals() {
    for (n, bits) in [(0, 8), (1, 30), (7, 12), (100, 17), (333, 30)] {
        let res = noise(n as u64 + 1, n, bits);
        let sums = rice_sums(&res);
        for (k, &sum) in sums.iter().enumerate() {
            let want: u64 = res.iter().map(|&v| (zigzag(v) >> k) as u64).sum();
            assert_eq!(sum, want, "parameter {k} of {n} residuals");
        }
    }
}
