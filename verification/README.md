# rusty_flac

A FLAC encoder and decoder written in Verus: executable Rust whose behaviour is
stated in `requires` and `ensures` contracts and proved.

- `Encoder` takes planar or interleaved samples (8/16/24 bits, up to 8
  channels; also 16-bit and single precision PCM bytes) and returns a complete
  FLAC stream with its MD5 signature.
- `Decoder` decodes a stream frame by frame; `decode` decodes it whole: samples
  of up to 32 bits in all four stereo modes, the 33-bit side channels of 32-bit
  stereo among them. Malformed input gives a typed error.

## What is proved

- **Lossless.** `lossless::lemma_lossless`: a stream decodes to exactly the
  samples that went into it, for every configuration, every sequence of samples
  that fit the bit depth (up to 2^43 per channel), and whatever predictors the
  analysis of the blocks proposes.
- **Exact contracts.** `Encoder::finish` returns exactly the bytes that
  `encode::stream` says, and `decode` exactly what `grammar::decode_stream` says,
  error by error.
- **Exact costs.** The bits that the encoder compares are the bits that it
  writes (`roundtrip::lemma_cost_exact`, `partition::lemma_plan_bits_exact`), the
  partition planner is optimal (`partition::lemma_plan_optimal`), and no subframe
  takes more bits than a verbatim one (`choice::lemma_chosen_at_most_verbatim`).
- **Checked frames.** Every decoded frame carries the CRC-16 of its bytes
  (`grammar::lemma_frame_checked`), and a frame with one damaged byte is never
  taken for a sound one of its length (`grammar::lemma_damage_detected`).
- **Complete counters.** `audit::lemma_counts_add_up`: no frame, subframe or
  residual goes uncounted.

## Layout

- `src/` is the verified library; `src/lib.rs` lists its modules.
- `tests/` runs it, against an independent decoder among others.
- `app/` is ordinary Rust around the library: the floating-point analysis that
  proposes linear predictors, error types that print, and a benchmark.

## Use

The encoder codes without linear prediction until it is given predictors. The
analysis in `app/` computes them:

```rust
let mut enc = Encoder::new(44_100, 2, 16)?;
enc.set_compression_level(8);
enc.push_planar(&[&left, &right])?;
let flac = app::finish(enc);

let (info, channels) = decode(&flac)?;
assert_eq!(channels[0], left);
```
