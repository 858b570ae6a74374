//! # rusty_flac — a verified FLAC codec
//!
//! A self-contained FLAC **encoder and decoder**.
//!
//! - [`Encoder`]: feed planar or interleaved `i32` samples (8/16/24-bit, up to
//!   8 channels), get a complete FLAC stream with the STREAMINFO MD5.
//! - [`Decoder`]: streaming per-frame decode of a FLAC stream to planar `i32`,
//!   with CRC verification; [`decode`] is the whole-stream convenience.
//!
//! Lossless is the invariant: decoding an encoded stream gives back every
//! sample. `lossless::lemma_lossless` proves it for every configuration, every
//! sequence of samples in range, and whatever predictors the analysis of the
//! blocks proposes.
//!
//! The modules, from the bottom up:
//!
//! - `arith`, `bits`: integers modulo 2^32 and bit sequences
//! - `bitio`, `crc`, `md5`, `number`: bit streams, checksums, frame numbers
//! - `predict`, `rice`, `partition`: prediction and residual coding
//! - `grammar`, `wide`, `decode`: what a byte sequence decodes to, and the
//!   decoder
//! - `arm`, `estimate`, `binary64`, `choice`, `subframe`: one channel of one
//!   block
//! - `layout`, `frame`, `encode`: stereo modes, frames, and the encoder
//! - `pcm`, `stats`: sample formats and counters
//! - `roundtrip`, `lossless`: what is written reads back
//! - `interop`, `wire`: what the decoder owes every encoder
//! - `economy`, `audit`: what the encoder's choices cost, and what its counters
//!   say
pub mod arith;
pub mod arm;
pub mod audit;
pub mod binary64;
pub mod bitio;
pub mod bits;
pub mod choice;
pub mod crc;
pub mod decode;
pub mod economy;
pub mod encode;
pub mod estimate;
pub mod frame;
pub mod grammar;
pub mod interop;
pub mod layout;
pub mod lossless;
pub mod md5;
pub mod number;
pub mod partition;
pub mod pcm;
pub mod predict;
pub mod rice;
pub mod roundtrip;
pub mod stats;
pub mod subframe;
pub mod wide;
pub mod wire;

pub use arm::ArmInput;
pub use choice::{ArmAnalysis, LpcEstimate, Quantized};
pub use decode::{decode, DecodeError, Decoder, StreamInfo};
pub use encode::{EncodeError, Encoder};
pub use stats::EncodeStats;
