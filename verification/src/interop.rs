//! What the decoder owes every encoder: the format's tables as the values they
//! stand for, stated over the bytes of a stream, and what must not matter to a
//! decoder.
use crate::bits;
use crate::crc;
use crate::decode::DecodeError;
use crate::grammar;
use crate::grammar::{HeaderModel, InfoModel};
use crate::number;
use vstd::arithmetic::power2::*;
use vstd::prelude::*;

verus! {

// ---------------------------------------------------------------------------
// Bytes and bits
// ---------------------------------------------------------------------------
/// A number of `m + n` bits is its high `m` bits and its low `n` bits.
proof fn lemma_uint_split(b: Seq<bool>, p: int, m: nat, n: nat)
    requires
        0 <= p,
        grammar::room(b, p, m + n),
    ensures
        grammar::uint(b, p, m + n) == grammar::uint(b, p, m) * pow2(n) + grammar::uint(b, p + m, n),
        grammar::uint(b, p, m) < pow2(m),
        grammar::uint(b, p + m, n) < pow2(n),
{
    let x = b.subrange(p, p + m);
    let y = b.subrange(p + m, p + m + n);
    assert(b.subrange(p, p + (m + n)) =~= x + y);
    bits::lemma_value_concat(x, y);
    bits::lemma_value_bound(x);
    bits::lemma_value_bound(y);
}

/// A whole byte is its number.
proof fn lemma_byte(d: Seq<u8>, i: int)
    requires
        0 <= i < d.len(),
    ensures
        grammar::room(bits::byte_bits(d), 8 * i, 8),
        grammar::uint(bits::byte_bits(d), 8 * i, 8) == d[i],
{
    lemma2_to64();
    bits::lemma_byte_bits_len(d);
    bits::lemma_byte_at(d, i);
    bits::lemma_value_field(d[i] as int, 8);
}

/// Two whole bytes are one number, high byte first.
pub proof fn lemma_two_bytes(d: Seq<u8>, i: int)
    requires
        0 <= i,
        i + 1 < d.len(),
    ensures
        grammar::room(bits::byte_bits(d), 8 * i, 16),
        grammar::uint(bits::byte_bits(d), 8 * i, 16) == 256 * d[i] + d[i + 1],
{
    lemma2_to64();
    bits::lemma_byte_bits_len(d);
    lemma_byte(d, i);
    lemma_byte(d, i + 1);
    lemma_uint_split(bits::byte_bits(d), 8 * i, 8, 8);
}

/// The first four bytes of a frame header are its first eight fields.
pub proof fn lemma_lead_bytes(d: Seq<u8>)
    requires
        d.len() >= 4,
    ensures
        ({
            let b = bits::byte_bits(d);
            &&& grammar::room(b, 0, 32)
            &&& grammar::uint(b, 0, 14) == 64 * d[0] + d[1] / 4
            &&& grammar::uint(b, 14, 1) == d[1] / 2 % 2
            &&& grammar::uint(b, 15, 1) == d[1] % 2
            &&& grammar::uint(b, 16, 4) == d[2] / 16
            &&& grammar::uint(b, 20, 4) == d[2] % 16
            &&& grammar::uint(b, 24, 4) == d[3] / 16
            &&& grammar::uint(b, 28, 3) == d[3] / 2 % 8
            &&& grammar::uint(b, 31, 1) == d[3] % 2
        }),
{
    let b = bits::byte_bits(d);
    lemma2_to64();
    bits::lemma_byte_bits_len(d);
    lemma_byte(d, 0);
    lemma_byte(d, 1);
    lemma_byte(d, 2);
    lemma_byte(d, 3);
    lemma_uint_split(b, 8, 6, 2);
    lemma_uint_split(b, 14, 1, 1);
    lemma_uint_split(b, 0, 8, 6);
    lemma_uint_split(b, 16, 4, 4);
    lemma_uint_split(b, 24, 4, 4);
    lemma_uint_split(b, 28, 3, 1);
}

// ---------------------------------------------------------------------------
// The frame header's tables
// ---------------------------------------------------------------------------
/// The samples per channel that block-size code `code` stands for, `hi` and
/// `lo` being the two bytes behind the frame number.
pub open spec fn samples_named(code: int, hi: u8, lo: u8) -> int {
    if code == 1 {
        192
    } else if code == 2 {
        576
    } else if code == 3 {
        1152
    } else if code == 4 {
        2304
    } else if code == 5 {
        4608
    } else if code == 6 {
        hi + 1
    } else if code == 7 {
        256 * hi + lo + 1
    } else if code == 8 {
        256
    } else if code == 9 {
        512
    } else if code == 10 {
        1024
    } else if code == 11 {
        2048
    } else if code == 12 {
        4096
    } else if code == 13 {
        8192
    } else if code == 14 {
        16384
    } else {
        32768
    }
}

/// The bytes that block-size code `code` puts behind the frame number.
pub open spec fn size_bytes(code: int) -> int {
    if code == 6 {
        1
    } else if code == 7 {
        2
    } else {
        0
    }
}

/// Sample-rate code `code` names the rate `rate`, `hi` and `lo` being the two
/// bytes behind the block size; code 0 names none.
pub open spec fn rate_named(code: int, hi: u8, lo: u8, rate: int) -> bool {
    &&& code == 1 ==> rate == 88200
    &&& code == 2 ==> rate == 176400
    &&& code == 3 ==> rate == 192000
    &&& code == 4 ==> rate == 8000
    &&& code == 5 ==> rate == 16000
    &&& code == 6 ==> rate == 22050
    &&& code == 7 ==> rate == 24000
    &&& code == 8 ==> rate == 32000
    &&& code == 9 ==> rate == 44100
    &&& code == 10 ==> rate == 48000
    &&& code == 11 ==> rate == 96000
    &&& code == 12 ==> rate == 1000 * hi
    &&& code == 13 ==> rate == 256 * hi + lo
    &&& code == 14 ==> rate == 10 * (256 * hi + lo)
    &&& code != 15
}

/// The bytes that sample-rate code `code` puts behind the block size.
pub open spec fn rate_bytes(code: int) -> int {
    if code == 12 {
        1
    } else if code == 13 || code == 14 {
        2
    } else {
        0
    }
}

/// Sample-size code `code` names `depth` bits in a stream of `stream` bits.
pub open spec fn depth_named(code: int, stream: int, depth: int) -> bool {
    &&& code == 0 ==> depth == stream
    &&& code == 1 ==> depth == 8
    &&& code == 2 ==> depth == 12
    &&& code != 3
    &&& code == 4 ==> depth == 16
    &&& code == 5 ==> depth == 20
    &&& code == 6 ==> depth == 24
    &&& code == 7 ==> depth == 32
}

/// A frame number of `1 + n` bytes stands in `d` at `i`: a lead byte of `n + 1`
/// ones and a zero (or just a zero), and continuation bytes.
pub open spec fn number_stands(d: Seq<u8>, i: int, n: int) -> bool {
    &&& 0 <= n <= 6
    &&& 0 <= i
    &&& i + 1 + n <= d.len()
    &&& n == 0 ==> d[i] < 0x80
    &&& n == 1 ==> 0xC0 <= d[i] < 0xE0
    &&& n == 2 ==> 0xE0 <= d[i] < 0xF0
    &&& n == 3 ==> 0xF0 <= d[i] < 0xF8
    &&& n == 4 ==> 0xF8 <= d[i] < 0xFC
    &&& n == 5 ==> 0xFC <= d[i] < 0xFE
    &&& n == 6 ==> d[i] == 0xFE
    &&& forall|j: int| i < j <= i + n ==> 0x80 <= #[trigger] d[j] < 0xC0
}

/// The six value bits that the continuation bytes of a number bring, `m` of
/// them, behind the value `v`.
pub open spec fn continued(d: Seq<u8>, i: int, v: int, m: nat) -> int
    decreases m,
{
    if m == 0 {
        v
    } else {
        64 * continued(d, i, v, (m - 1) as nat) + (d[i + m] - 0x80)
    }
}

/// The number that stands in `d` at `i` in `1 + n` bytes.
pub open spec fn number_value(d: Seq<u8>, i: int, n: nat) -> int {
    let lead = d[i] - (if n == 0 {
        0int
    } else if n == 1 {
        0xC0
    } else if n == 2 {
        0xE0
    } else if n == 3 {
        0xF0
    } else if n == 4 {
        0xF8
    } else if n == 5 {
        0xFC
    } else {
        0xFE
    });
    continued(d, i, lead, n)
}

proof fn lemma_tail_reads(d: Seq<u8>, i: int, v: nat, m: nat, n: int)
    requires
        number_stands(d, i, n),
        m <= n,
    ensures
        continued(d, i, v as int, m) >= 0,
        number::read_tail(bits::byte_bits(d), 8 * (i + 1), v, m) == Some(
            (continued(d, i, v as int, m) as nat, 8 * (i + 1 + m)),
        ),
    decreases m,
{
    if m > 0 {
        lemma_tail_reads(d, i, v, (m - 1) as nat, n);
        lemma_byte(d, i + m);
        assert(0x80 <= d[i + m] < 0xC0);
    }
}

/// A lead byte announces how many bytes follow it, and holds what they leave.
proof fn lemma_lead_byte(lead: nat, n: nat)
    requires
        n <= 6,
        n == 0 ==> lead < 0x80,
        n == 1 ==> 0xC0 <= lead < 0xE0,
        n == 2 ==> 0xE0 <= lead < 0xF0,
        n == 3 ==> 0xF0 <= lead < 0xF8,
        n == 4 ==> 0xF8 <= lead < 0xFC,
        n == 5 ==> 0xFC <= lead < 0xFE,
        n == 6 ==> lead == 0xFE,
    ensures
        number::announced(lead) == Some(n),
        number::lead_value(lead, n) == lead - (if n == 0 {
            0int
        } else if n == 1 {
            0xC0
        } else if n == 2 {
            0xE0
        } else if n == 3 {
            0xF0
        } else if n == 4 {
            0xF8
        } else if n == 5 {
            0xFC
        } else {
            0xFE
        }),
{
    lemma2_to64();
    let v = number::lead_value(lead, n);
    if n == 1 {
        assert(v == lead % 64);
    } else if n == 2 {
        assert(v == lead % 32);
    } else if n == 3 {
        assert(v == lead % 16);
    } else if n == 4 {
        assert(v == lead % 8);
    } else if n == 5 {
        assert(v == lead % 4);
    } else if n == 6 {
        assert(v == lead % 2);
    }
}

/// Frame and sample numbers of up to 36 bits are read, in every one of their
/// seven lengths.
pub proof fn lemma_number_reads(d: Seq<u8>, i: int, n: nat)
    requires
        number_stands(d, i, n as int),
    ensures
        number::read_number(bits::byte_bits(d), 8 * i) == Some(
            (number_value(d, i, n) as nat, 8 * (i + 1 + n)),
        ),
        number_value(d, i, n) >= 0,
{
    let lead = d[i] as nat;
    lemma_byte(d, i);
    lemma_lead_byte(lead, n);
    let v = number::lead_value(lead, n);
    lemma_tail_reads(d, i, v, n, n as int);
    assert(number_value(d, i, n) == continued(d, i, v as int, n));
}

proof fn lemma_tail_sound(d: Seq<u8>, i: int, v: nat, m: nat)
    requires
        0 <= i,
        number::read_tail(bits::byte_bits(d), 8 * (i + 1), v, m) is Some,
        i + 1 <= d.len(),
    ensures
        i + 1 + m <= d.len(),
        forall|j: int| i < j <= i + m ==> 0x80 <= #[trigger] d[j] < 0xC0,
    decreases m,
{
    bits::lemma_byte_bits_len(d);
    if m > 0 {
        let b = bits::byte_bits(d);
        lemma_tail_sound(d, i, v, (m - 1) as nat);
        number::lemma_read_tail_pos(b, 8 * (i + 1), v, (m - 1) as nat);
        lemma_byte(d, i + m);
    }
}

/// What is read as a number stands there as one.
pub proof fn lemma_number_sound(d: Seq<u8>, i: int)
    requires
        0 <= i,
        number::read_number(bits::byte_bits(d), 8 * i) is Some,
    ensures
        ({
            let (v, q) = number::read_number(bits::byte_bits(d), 8 * i)->0;
            let n = q / 8 - i - 1;
            &&& number_stands(d, i, n)
            &&& number_value(d, i, n as nat) == v
            &&& q == 8 * (i + 1 + n)
        }),
{
    let b = bits::byte_bits(d);
    bits::lemma_byte_bits_len(d);
    lemma_byte(d, i);
    let lead = d[i] as nat;
    let n = number::announced(lead)->0;
    lemma_tail_sound(d, i, number::lead_value(lead, n), n);
    lemma_number_reads(d, i, n);
}

/// A well-formed frame header is read as what it says: whatever the block-size
/// code, the sample-rate code, the sample-size code, the blocking strategy and
/// the length of the frame number, the decoder takes the block size, the depth
/// and the assignment that the format gives them.
pub proof fn lemma_header_accepted(rest: Seq<u8>, info: InfoModel, n: nat, depth: nat)
    requires
        ({
            let bs = rest[2] as int / 16;
            let sr = rest[2] as int % 16;
            let at: int = 5 + n as int;
            let rate_at = at + size_bytes(bs);
            let end = rate_at + rate_bytes(sr);
            let assignment = rest[3] as int / 16;
            &&& end < rest.len()
            &&& rest[0] == 0xFF
            &&& rest[1] == 0xF8 || rest[1] == 0xF9
            &&& bs != 0
            &&& rest[3] as int % 2 == 0
            &&& number_stands(rest, 4, n as int)
            &&& rate_named(sr, rest[rate_at], rest[rate_at + 1], info.sample_rate as int)
            &&& depth_named(rest[3] as int / 2 % 8, info.bits_per_sample as int, depth as int)
            &&& assignment <= 10
            &&& info.channels == (if assignment <= 7 {
                assignment + 1
            } else {
                2
            })
            &&& rest[end] == crc::crc8_of(rest.take(end))
        }),
    ensures
        ({
            let bs = rest[2] as int / 16;
            let sr = rest[2] as int % 16;
            let at: int = 5 + n as int;
            let end = at + size_bytes(bs) + rate_bytes(sr);
            grammar::read_header(rest, info) == Ok::<HeaderModel, DecodeError>(
                HeaderModel {
                    block_size: samples_named(bs, rest[at], rest[at + 1]) as nat,
                    depth,
                    assignment: (rest[3] as int / 16) as nat,
                    end: 8 * (end + 1),
                },
            )
        }),
{
    let b = bits::byte_bits(rest);
    let bs = rest[2] as int / 16;
    let sr = rest[2] as int % 16;
    let at: int = 5 + n as int;
    let rate_at = at + size_bytes(bs);
    let end = rate_at + rate_bytes(sr);
    reveal(grammar::read_header);
    lemma2_to64();
    bits::lemma_byte_bits_len(rest);
    lemma_lead_bytes(rest);
    lemma_number_reads(rest, 4, n);
    if bs == 6 {
        lemma_byte(rest, at);
    } else if bs == 7 {
        lemma_two_bytes(rest, at);
    }
    if sr == 12 {
        lemma_byte(rest, rate_at);
    } else if sr == 13 || sr == 14 {
        lemma_two_bytes(rest, rate_at);
    }
    lemma_byte(rest, end);
    assert(grammar::block_size_extra(bs as nat) == 8 * size_bytes(bs));
    assert(grammar::sample_rate_extra(sr as nat) == 8 * rate_bytes(sr));
    assert(grammar::read_header(rest, info) == grammar::read_header_codes(rest, info, 8 * at));
}

/// What the codes of a header that decodes say, the number ending at byte `at`.
proof fn lemma_codes_sound(rest: Seq<u8>, info: InfoModel, at: int)
    requires
        rest.len() >= 4,
        at >= 5,
        grammar::read_header_codes(rest, info, 8 * at) is Ok,
    ensures
        ({
            let h = grammar::read_header_codes(rest, info, 8 * at)->Ok_0;
            let bs = rest[2] as int / 16;
            let sr = rest[2] as int % 16;
            let end = h.end / 8 - 1;
            &&& 5 <= end < rest.len()
            &&& bs != 0
            &&& sr != 15
            &&& bs != 6 && bs != 7 ==> h.block_size == samples_named(bs, 0, 0)
            &&& depth_named(rest[3] as int / 2 % 8, info.bits_per_sample as int, h.depth as int)
            &&& sr <= 11 ==> rate_named(sr, 0, 0, info.sample_rate as int)
            &&& h.assignment == rest[3] as int / 16
            &&& h.assignment <= 10
            &&& info.channels == (if h.assignment <= 7 {
                h.assignment + 1
            } else {
                2
            })
            &&& rest[end] == crc::crc8_of(rest.take(end))
        }),
{
    lemma2_to64();
    bits::lemma_byte_bits_len(rest);
    let b = bits::byte_bits(rest);
    lemma_lead_bytes(rest);
    let h = grammar::read_header_codes(rest, info, 8 * at)->Ok_0;
    bits::lemma_value_bound(b.subrange(28, 31));
    lemma_byte(rest, h.end / 8 - 1);
}

/// Only well-formed headers are read: what decodes starts with the sync code,
/// has no reserved bit set, agrees with STREAMINFO on channels and rate, and
/// holds as many samples per channel as its header's table entry says.
pub proof fn lemma_header_sound(rest: Seq<u8>, info: InfoModel)
    requires
        grammar::read_header(rest, info) is Ok,
    ensures
        ({
            let h = grammar::read_header(rest, info)->Ok_0;
            let bs = rest[2] as int / 16;
            let sr = rest[2] as int % 16;
            let end = h.end / 8 - 1;
            &&& 5 <= end < rest.len()
            &&& rest[0] == 0xFF
            &&& rest[1] == 0xF8 || rest[1] == 0xF9
            &&& rest[3] as int % 2 == 0
            &&& bs != 0
            &&& sr != 15
            &&& bs != 6 && bs != 7 ==> h.block_size == samples_named(bs, 0, 0)
            &&& depth_named(rest[3] as int / 2 % 8, info.bits_per_sample as int, h.depth as int)
            &&& sr <= 11 ==> rate_named(sr, 0, 0, info.sample_rate as int)
            &&& h.assignment == rest[3] as int / 16
            &&& h.assignment <= 10
            &&& info.channels == (if h.assignment <= 7 {
                h.assignment + 1
            } else {
                2
            })
            &&& rest[end] == crc::crc8_of(rest.take(end))
        }),
{
    reveal(grammar::read_header);
    bits::lemma_byte_bits_len(rest);
    let b = bits::byte_bits(rest);
    assert(grammar::room(b, 15, 17));
    lemma_lead_bytes(rest);
    number::lemma_read_number_pos(b, 32);
    if let Some((v, p)) = number::read_number(b, 32) {
        assert(p == 8 * (p / 8));
        lemma_codes_sound(rest, info, p / 8);
    }
}

/// A frame holds as many samples per channel as its header's block-size code
/// stands for.
pub proof fn lemma_frame_block_size(rest: Seq<u8>, info: InfoModel)
    requires
        grammar::read_frame(rest, info) is Ok,
    ensures
        ({
            let f = grammar::read_frame(rest, info)->Ok_0;
            let bs = rest[2] as int / 16;
            &&& bs != 6 && bs != 7 ==> f.block_size == samples_named(bs, 0, 0)
            &&& f.channels.len() == info.channels
            &&& forall|c: int|
                0 <= c < info.channels ==> (#[trigger] f.channels[c]).len() == f.block_size
        }),
{
    reveal(grammar::read_frame);
    lemma_header_sound(rest, info);
    grammar::lemma_frame_len(rest, info);
}

// ---------------------------------------------------------------------------
// Metadata
// ---------------------------------------------------------------------------
/// STREAMINFO's block and frame sizes.
proof fn lemma_size_fields(d: Seq<u8>)
    requires
        d.len() == 34,
    ensures
        ({
            let b = bits::byte_bits(d);
            &&& grammar::uint(b, 0, 16) == 256 * d[0] + d[1]
            &&& grammar::uint(b, 16, 16) == 256 * d[2] + d[3]
            &&& grammar::uint(b, 32, 24) == 65536 * d[4] + 256 * d[5] + d[6]
            &&& grammar::uint(b, 56, 24) == 65536 * d[7] + 256 * d[8] + d[9]
        }),
{
    let b = bits::byte_bits(d);
    lemma2_to64();
    bits::lemma_byte_bits_len(d);
    lemma_two_bytes(d, 0);
    lemma_two_bytes(d, 2);
    lemma_two_bytes(d, 4);
    lemma_byte(d, 6);
    lemma_uint_split(b, 32, 16, 8);
    lemma_two_bytes(d, 7);
    lemma_byte(d, 9);
    lemma_uint_split(b, 56, 16, 8);
}

/// STREAMINFO's sample rate, channels and sample size.
proof fn lemma_format_fields(d: Seq<u8>)
    requires
        d.len() == 34,
    ensures
        ({
            let b = bits::byte_bits(d);
            &&& grammar::uint(b, 80, 20) == 4096 * d[10] + 16 * d[11] + d[12] / 16
            &&& grammar::uint(b, 100, 3) == d[12] / 2 % 8
            &&& grammar::uint(b, 103, 5) == 16 * (d[12] as int % 2) + d[13] / 16
            &&& grammar::uint(b, 108, 4) == d[13] as int % 16
        }),
{
    let b = bits::byte_bits(d);
    lemma2_to64();
    bits::lemma_byte_bits_len(d);
    lemma_two_bytes(d, 10);
    lemma_byte(d, 12);
    lemma_byte(d, 13);
    lemma_uint_split(b, 96, 4, 4);
    lemma_uint_split(b, 100, 3, 1);
    lemma_uint_split(b, 80, 16, 4);
    lemma_uint_split(b, 104, 4, 4);
    lemma_uint_split(b, 103, 1, 4);
}

/// STREAMINFO's fields, byte by byte.
pub proof fn lemma_info_fields(d: Seq<u8>)
    requires
        d.len() == 34,
    ensures
        ({
            let i = grammar::info_of(d);
            &&& i.min_block_size == 256 * d[0] + d[1]
            &&& i.max_block_size == 256 * d[2] + d[3]
            &&& i.min_frame_size == 65536 * d[4] + 256 * d[5] + d[6]
            &&& i.max_frame_size == 65536 * d[7] + 256 * d[8] + d[9]
            &&& i.sample_rate == 4096 * d[10] + 16 * d[11] + d[12] / 16
            &&& i.channels == d[12] / 2 % 8 + 1
            &&& i.bits_per_sample == 16 * (d[12] as int % 2) + d[13] / 16 + 1
            &&& i.total_samples == 0x1_0000_0000 * (d[13] as int % 16) + 0x100_0000 * d[14]
                + 0x1_0000 * d[15] + 0x100 * d[16] + d[17]
            &&& i.md5.len() == 16
            &&& forall|j: int| 0 <= j < 16 ==> #[trigger] i.md5[j] == d[18 + j]
        }),
{
    let b = bits::byte_bits(d);
    lemma2_to64();
    bits::lemma_byte_bits_len(d);
    lemma_size_fields(d);
    lemma_format_fields(d);
    lemma_two_bytes(d, 14);
    lemma_two_bytes(d, 16);
    lemma_uint_split(b, 112, 16, 16);
    lemma_uint_split(b, 108, 4, 32);
}

/// A metadata block: its type (the high bit set on the last block), the length
/// of its body in three bytes, and its body.
pub open spec fn block_bytes(kind: u8, last: bool, body: Seq<u8>) -> Seq<u8> {
    seq![
        (if last {
            kind + 0x80
        } else {
            kind as int
        }) as u8,
        (body.len() / 0x1_0000) as u8,
        (body.len() / 0x100 % 0x100) as u8,
        (body.len() % 0x100) as u8,
    ] + body
}

/// The first `n` of a run of metadata blocks, none of them the last one.
pub open spec fn run_bytes(run: Seq<(u8, Seq<u8>)>, n: nat) -> Seq<u8>
    decreases n,
{
    if n == 0 {
        Seq::empty()
    } else {
        run_bytes(run, (n - 1) as nat) + block_bytes(run[n - 1].0, false, run[n - 1].1)
    }
}

/// Metadata blocks of any type but STREAMINFO.
pub open spec fn further(run: Seq<(u8, Seq<u8>)>) -> bool {
    forall|j: int|
        0 <= j < run.len() ==> 1 <= (#[trigger] run[j]).0 < 0x80 && run[j].1.len() < 0x100_0000
}

/// The block that stands at `pos` is passed over.
proof fn lemma_block_read(
    data: Seq<u8>,
    pos: int,
    kind: u8,
    last: bool,
    body: Seq<u8>,
    seen: Option<InfoModel>,
)
    requires
        kind < 0x80,
        body.len() < 0x100_0000,
        kind == 0 ==> body.len() >= 34,
        stands(data, pos, block_bytes(kind, last, body)),
    ensures
        ({
            let now = if kind == 0 {
                Some(grammar::info_of(body.take(34)))
            } else {
                seen
            };
            let next = pos + 4 + body.len();
            grammar::read_blocks(data, pos, seen) == (if last {
                Ok::<(Option<InfoModel>, int), DecodeError>((now, next))
            } else {
                grammar::read_blocks(data, next, now)
            })
        }),
{
    let all = block_bytes(kind, last, body);
    let cut = data.subrange(pos, pos + 4 + body.len());
    assert(cut[0] == data[pos] && cut[1] == data[pos + 1] && cut[2] == data[pos + 2] && cut[3]
        == data[pos + 3]);
    assert(all[0] == cut[0] && all[1] == cut[1] && all[2] == cut[2] && all[3] == cut[3]);
    assert(grammar::block_len(data, pos) == body.len());
    if kind == 0 {
        assert(data.subrange(pos + 4, pos + 38) =~= body.take(34)) by {
            assert forall|j: int| 0 <= j < 34 implies data[pos + 4 + j] == body[j] by {
                assert(cut[4 + j] == all[4 + j]);
            }
        }
    }
}

/// A run of blocks is passed over.
proof fn lemma_run_read(
    data: Seq<u8>,
    pos: int,
    run: Seq<(u8, Seq<u8>)>,
    n: nat,
    seen: Option<InfoModel>,
)
    requires
        further(run),
        n <= run.len(),
        stands(data, pos, run_bytes(run, n)),
    ensures
        grammar::read_blocks(data, pos, seen) == grammar::read_blocks(
            data,
            pos + run_bytes(run, n).len(),
            seen,
        ),
    decreases n,
{
    if n > 0 {
        let x = run_bytes(run, (n - 1) as nat);
        let y = block_bytes(run[n - 1].0, false, run[n - 1].1);
        lemma_stands_parts(data, pos, x, y);
        lemma_run_read(data, pos, run, (n - 1) as nat, seen);
        assert(1 <= run[n - 1].0 < 0x80);
        lemma_block_read(data, pos + x.len(), run[n - 1].0, false, run[n - 1].1, seen);
    }
}

/// A stream whose metadata is STREAMINFO, with the blocks `before` it and
/// `after` it.
pub open spec fn with_metadata(
    before: Seq<(u8, Seq<u8>)>,
    info: Seq<u8>,
    after: Seq<(u8, Seq<u8>)>,
    frames: Seq<u8>,
) -> Seq<u8> {
    seq![0x66u8, 0x4Cu8, 0x61u8, 0x43u8] + run_bytes(before, before.len()) + (if after.len() == 0 {
        block_bytes(0, true, info)
    } else {
        block_bytes(0, false, info) + run_bytes(after, (after.len() - 1) as nat) + block_bytes(
            after.last().0,
            true,
            after.last().1,
        )
    }) + frames
}

/// The bytes `w` stand in `d` at `p`.
spec fn stands(d: Seq<u8>, p: int, w: Seq<u8>) -> bool {
    &&& 0 <= p
    &&& p + w.len() <= d.len()
    &&& d.subrange(p, p + w.len()) == w
}

/// Bytes of two parts stand where their parts stand in turn.
proof fn lemma_stands_parts(d: Seq<u8>, p: int, x: Seq<u8>, y: Seq<u8>)
    requires
        stands(d, p, x + y),
    ensures
        stands(d, p, x),
        stands(d, p + x.len(), y),
{
    let cut = d.subrange(p, p + (x + y).len());
    assert(d.subrange(p, p + x.len()) =~= cut.subrange(0, x.len() as int));
    assert((x + y).subrange(0, x.len() as int) =~= x);
    assert(d.subrange(p + x.len(), p + x.len() + y.len()) =~= cut.subrange(
        x.len() as int,
        (x + y).len() as int,
    ));
    assert((x + y).subrange(x.len() as int, (x + y).len() as int) =~= y);
}

/// Where the parts of a stream with metadata stand.
proof fn lemma_parts_stand(head: Seq<u8>, frames: Seq<u8>)
    ensures
        stands(head + frames, 0, head),
        (head + frames).skip(head.len() as int) == frames,
{
    let d = head + frames;
    assert(d.subrange(0, head.len() as int) =~= head);
    assert(d.skip(head.len() as int) =~= frames);
}

/// STREAMINFO and what follows it is read to its end.
proof fn lemma_info_read(
    d: Seq<u8>,
    p: int,
    info: Seq<u8>,
    after: Seq<(u8, Seq<u8>)>,
    blocks: Seq<u8>,
)
    requires
        34 <= info.len() < 0x100_0000,
        further(after),
        blocks == (if after.len() == 0 {
            block_bytes(0, true, info)
        } else {
            block_bytes(0, false, info) + run_bytes(after, (after.len() - 1) as nat) + block_bytes(
                after.last().0,
                true,
                after.last().1,
            )
        }),
        stands(d, p, blocks),
    ensures
        grammar::read_blocks(d, p, None) == Ok::<(Option<InfoModel>, int), DecodeError>(
            (Some(grammar::info_of(info.take(34))), p + blocks.len()),
        ),
{
    let i = Some(grammar::info_of(info.take(34)));
    if after.len() == 0 {
        lemma_block_read(d, p, 0, true, info, None);
    } else {
        let own = block_bytes(0, false, info);
        let y = run_bytes(after, (after.len() - 1) as nat);
        let end = block_bytes(after.last().0, true, after.last().1);
        lemma_stands_parts(d, p, own + y, end);
        lemma_stands_parts(d, p, own, y);
        lemma_block_read(d, p, 0, false, info, None);
        lemma_run_read(d, p + own.len(), after, (after.len() - 1) as nat, i);
        assert(1 <= after[after.len() - 1].0 < 0x80);
        lemma_block_read(d, p + own.len() + y.len(), after.last().0, true, after.last().1, i);
    }
}

/// STREAMINFO names 1 to 8 channels.
proof fn lemma_channels_field(d: Seq<u8>)
    requires
        d.len() == 34,
    ensures
        1 <= grammar::info_of(d).channels <= 8,
{
    lemma_info_fields(d);
}

/// A stream opens with its STREAMINFO and at its first frame, whatever metadata
/// stands around STREAMINFO: padding, comments, pictures, seek tables.
pub proof fn lemma_metadata_skipped(
    before: Seq<(u8, Seq<u8>)>,
    info: Seq<u8>,
    after: Seq<(u8, Seq<u8>)>,
    frames: Seq<u8>,
)
    requires
        34 <= info.len() < 0x100_0000,
        further(before),
        further(after),
    ensures
        ({
            let data = with_metadata(before, info, after, frames);
            &&& grammar::open_stream(data) == Ok::<(InfoModel, int), DecodeError>(
                (grammar::info_of(info.take(34)), data.len() - frames.len()),
            )
            &&& data.skip(data.len() - frames.len()) == frames
        }),
{
    let data = with_metadata(before, info, after, frames);
    let mark = seq![0x66u8, 0x4Cu8, 0x61u8, 0x43u8];
    let x = run_bytes(before, before.len());
    let blocks = if after.len() == 0 {
        block_bytes(0, true, info)
    } else {
        block_bytes(0, false, info) + run_bytes(after, (after.len() - 1) as nat) + block_bytes(
            after.last().0,
            true,
            after.last().1,
        )
    };
    lemma_channels_field(info.take(34));
    lemma_parts_stand(mark + x + blocks, frames);
    lemma_stands_parts(data, 0, mark + x, blocks);
    lemma_stands_parts(data, 0, mark, x);
    lemma_run_read(data, 4, before, before.len(), None);
    lemma_info_read(data, 4 + x.len() as int, info, after, blocks);
    assert(mark =~= grammar::marker());
}

/// Frames decode alike wherever they stand.
proof fn lemma_frames_anywhere(
    c: Seq<u8>,
    p: int,
    d: Seq<u8>,
    q: int,
    info: InfoModel,
    acc: Seq<Seq<i32>>,
)
    requires
        0 <= p <= c.len(),
        0 <= q <= d.len(),
        c.skip(p) == d.skip(q),
    ensures
        grammar::read_frames(c, p, info, acc) == grammar::read_frames(d, q, info, acc),
    decreases c.len() - p,
{
    assert(c.skip(p).len() == c.len() - p && d.skip(q).len() == d.len() - q);
    if p >= c.len() {
        assert(grammar::read_frames(c, p, info, acc) == Ok::<Seq<Seq<i32>>, DecodeError>(acc));
        assert(grammar::read_frames(d, q, info, acc) == Ok::<Seq<Seq<i32>>, DecodeError>(acc));
    } else {
        match grammar::read_frame(c.skip(p), info) {
            Err(e) => {
                assert(grammar::read_frames(c, p, info, acc) == Err::<Seq<Seq<i32>>, DecodeError>(
                    e,
                ));
                assert(grammar::read_frames(d, q, info, acc) == Err::<Seq<Seq<i32>>, DecodeError>(
                    e,
                ));
            },
            Ok(f) => {
                grammar::lemma_frame_len(c.skip(p), info);
                grammar::lemma_read_frames_step(c, p, info, acc, f);
                grammar::lemma_read_frames_step(d, q, info, acc, f);
                assert(c.skip(p + f.len) =~= c.skip(p).skip(f.len));
                assert(d.skip(q + f.len) =~= d.skip(q).skip(f.len));
                lemma_frames_anywhere(
                    c,
                    p + f.len,
                    d,
                    q + f.len,
                    info,
                    grammar::extended(acc, f.channels),
                );
            },
        }
    }
}

/// Further metadata does not matter: a stream decodes to the same parameters
/// and the same samples with any blocks put around its STREAMINFO.
pub proof fn lemma_metadata_irrelevant(
    before: Seq<(u8, Seq<u8>)>,
    info: Seq<u8>,
    after: Seq<(u8, Seq<u8>)>,
    frames: Seq<u8>,
)
    requires
        34 <= info.len() < 0x100_0000,
        further(before),
        further(after),
    ensures
        grammar::decode_stream(with_metadata(before, info, after, frames))
            == grammar::decode_stream(with_metadata(Seq::empty(), info, Seq::empty(), frames)),
{
    let none = Seq::<(u8, Seq<u8>)>::empty();
    let c = with_metadata(before, info, after, frames);
    let d = with_metadata(none, info, none, frames);
    let i = grammar::info_of(info.take(34));
    lemma_metadata_skipped(before, info, after, frames);
    lemma_metadata_skipped(none, info, none, frames);
    lemma_frames_anywhere(
        c,
        c.len() - frames.len(),
        d,
        d.len() - frames.len(),
        i,
        grammar::no_samples(i.channels),
    );
}

/// What does not start with the marker, or is too short for the marker and
/// STREAMINFO, is not a stream.
pub proof fn lemma_not_a_stream(data: Seq<u8>)
    requires
        data.len() < 42 || data[0] != 0x66 || data[1] != 0x4C || data[2] != 0x61 || data[3] != 0x43,
    ensures
        grammar::open_stream(data) == Err::<(InfoModel, int), DecodeError>(DecodeError::NotFlac),
        grammar::decode_stream(data) == Err::<(InfoModel, Seq<Seq<i32>>), DecodeError>(
            DecodeError::NotFlac,
        ),
{
    if data.len() >= 42 {
        let m = data.subrange(0, 4);
        assert(m[0] == data[0] && m[1] == data[1] && m[2] == data[2] && m[3] == data[3]);
    }
}

/// Metadata without an end is refused as truncated, metadata without
/// STREAMINFO or with one that is too short as no stream: behind a run of other
/// blocks stands less than a block header; a header whose body is cut off; a
/// last block of another type; or a short STREAMINFO.
pub proof fn lemma_metadata_refused(before: Seq<(u8, Seq<u8>)>, tail: Seq<u8>, body: Seq<u8>, kind: u8)
    requires
        further(before),
        kind < 0x80,
        body.len() < 0x100_0000,
    ensures
        ({
            let data = seq![0x66u8, 0x4Cu8, 0x61u8, 0x43u8] + run_bytes(before, before.len())
                + tail;
            let size = tail[1] * 0x1_0000 + tail[2] * 0x100 + tail[3];
            let r = grammar::open_stream(data);
            &&& data.len() >= 42 && tail.len() < 4 ==> r == Err::<(InfoModel, int), DecodeError>(
                DecodeError::Truncated,
            )
            &&& data.len() >= 42 && tail.len() >= 4 && tail.len() < 4 + size ==> r == Err::<
                (InfoModel, int),
                DecodeError,
            >(DecodeError::Truncated)
            &&& data.len() >= 42 && kind >= 1 && tail == block_bytes(kind, true, body) ==> r
                == Err::<(InfoModel, int), DecodeError>(DecodeError::NotFlac)
            &&& data.len() >= 42 && body.len() < 34 && (tail == block_bytes(0, true, body) || tail
                == block_bytes(0, false, body)) ==> r == Err::<(InfoModel, int), DecodeError>(
                DecodeError::NotFlac,
            )
        }),
{
    let mark = seq![0x66u8, 0x4Cu8, 0x61u8, 0x43u8];
    let x = run_bytes(before, before.len());
    let data = mark + x + tail;
    lemma_parts_stand(mark + x, tail);
    lemma_stands_parts(data, 0, mark, x);
    lemma_run_read(data, 4, before, before.len(), None);
    assert(mark =~= grammar::marker());
    let p = 4 + x.len() as int;
    assert(data.skip(p) == tail);
    assert(tail.len() == data.len() - p);
    if tail.len() >= 4 {
        assert(tail[0] == data[p] && tail[1] == data[p + 1] && tail[2] == data[p + 2] && tail[3]
            == data[p + 3]);
        lemma_tail_refused(data, p, tail, body, kind);
    }
}

proof fn lemma_tail_refused(data: Seq<u8>, p: int, tail: Seq<u8>, body: Seq<u8>, kind: u8)
    requires
        0 <= p,
        data.len() == p + tail.len(),
        tail.len() >= 4,
        data.skip(p) == tail,
        kind < 0x80,
        body.len() < 0x100_0000,
    ensures
        ({
            let size = tail[1] * 0x1_0000 + tail[2] * 0x100 + tail[3];
            let r = grammar::read_blocks(data, p, None);
            &&& tail.len() < 4 + size ==> r == Err::<(Option<InfoModel>, int), DecodeError>(
                DecodeError::Truncated,
            )
            &&& kind >= 1 && tail == block_bytes(kind, true, body) ==> r == Ok::<
                (Option<InfoModel>, int),
                DecodeError,
            >((None, data.len() as int))
            &&& body.len() < 34 && (tail == block_bytes(0, true, body) || tail == block_bytes(
                0,
                false,
                body,
            )) ==> r == Err::<(Option<InfoModel>, int), DecodeError>(DecodeError::NotFlac)
        }),
{
    assert(tail[0] == data[p] && tail[1] == data[p + 1] && tail[2] == data[p + 2] && tail[3]
        == data[p + 3]);
    if kind >= 1 && tail == block_bytes(kind, true, body) {
        assert(data.subrange(p, p + tail.len()) =~= tail);
        lemma_block_read(data, p, kind, true, body, None);
    }
    if tail == block_bytes(0, true, body) || tail == block_bytes(0, false, body) {
        assert(grammar::block_len(data, p) == body.len());
    }
}

/// A frame that does not start with the sync code, or has a reserved bit set,
/// is refused for it.
pub proof fn lemma_lead_refused(rest: Seq<u8>, info: InfoModel)
    ensures
        ({
            let r = grammar::read_header(rest, info);
            &&& rest.len() < 2 ==> r == Err::<HeaderModel, DecodeError>(DecodeError::Truncated)
            &&& rest.len() >= 4 && (rest[0] != 0xFF || rest[1] < 0xF8 || rest[1] >= 0xFC) ==> r
                == Err::<HeaderModel, DecodeError>(DecodeError::BadFrameHeader("sync"))
            &&& rest.len() >= 4 && rest[0] == 0xFF && (rest[1] == 0xFA || rest[1] == 0xFB) ==> r
                == Err::<HeaderModel, DecodeError>(DecodeError::BadFrameHeader("reserved"))
            &&& rest.len() >= 4 && rest[0] == 0xFF && (rest[1] == 0xF8 || rest[1] == 0xF9)
                && rest[3] as int % 2 == 1 ==> r == Err::<HeaderModel, DecodeError>(
                DecodeError::BadFrameHeader("reserved2"),
            )
        }),
{
    reveal(grammar::read_header);
    bits::lemma_byte_bits_len(rest);
    if rest.len() >= 4 {
        lemma_lead_bytes(rest);
    }
}

/// Which header is refused for what, behind a lead and a frame number that are
/// in order.
pub open spec fn header_refusal(rest: Seq<u8>, info: InfoModel, at: int) -> Option<DecodeError> {
    let bs = rest[2] as int / 16;
    let sr = rest[2] as int % 16;
    let rate_at = at + size_bytes(bs);
    let end = rate_at + rate_bytes(sr);
    let assignment = rest[3] as int / 16;
    if bs == 0 {
        Some(DecodeError::BadFrameHeader("blocksize code 0"))
    } else if rest.len() < rate_at {
        Some(DecodeError::Truncated)
    } else if sr == 15 {
        Some(DecodeError::BadFrameHeader("sample-rate code 15"))
    } else if rest.len() < end {
        Some(DecodeError::Truncated)
    } else if rest[3] as int / 2 % 8 == 3 {
        Some(DecodeError::BadFrameHeader("sample-size code"))
    } else if rest.len() <= end {
        Some(DecodeError::Truncated)
    } else if rest[end] != crc::crc8_of(rest.take(end)) {
        Some(DecodeError::BadFrameHeader("crc8"))
    } else if assignment > 10 {
        Some(DecodeError::BadFrameHeader("channel assignment"))
    } else if info.channels != (if assignment <= 7 {
        assignment + 1
    } else {
        2
    }) {
        Some(DecodeError::Inconsistent("frame channels"))
    } else if !rate_named(sr, rest[rate_at], rest[rate_at + 1], info.sample_rate as int) {
        Some(DecodeError::Inconsistent("frame sample rate"))
    } else {
        None
    }
}

/// A header behind a lead and a number that are in order is refused for the
/// first thing that is wrong with it, and for nothing else.
pub proof fn lemma_header_refused(rest: Seq<u8>, info: InfoModel, n: nat)
    requires
        rest.len() >= 5,
        rest[0] == 0xFF,
        rest[1] == 0xF8 || rest[1] == 0xF9,
        rest[3] as int % 2 == 0,
        number_stands(rest, 4, n as int),
    ensures
        match header_refusal(rest, info, 5 + n as int) {
            Some(e) => grammar::read_header(rest, info) == Err::<HeaderModel, DecodeError>(e),
            None => grammar::read_header(rest, info) is Ok,
        },
{
    let b = bits::byte_bits(rest);
    let at: int = 5 + n as int;
    reveal(grammar::read_header);
    lemma_lead_bytes(rest);
    lemma_number_reads(rest, 4, n);
    bits::lemma_byte_bits_len(rest);
    assert(grammar::read_header(rest, info) == grammar::read_header_codes(rest, info, 8 * at));
    lemma_codes_refused(rest, info, at);
}

proof fn lemma_codes_refused(rest: Seq<u8>, info: InfoModel, at: int)
    requires
        rest.len() >= 5,
        at >= 5,
    ensures
        match header_refusal(rest, info, at) {
            Some(e) => grammar::read_header_codes(rest, info, 8 * at) == Err::<
                HeaderModel,
                DecodeError,
            >(e),
            None => grammar::read_header_codes(rest, info, 8 * at) is Ok,
        },
{
    let b = bits::byte_bits(rest);
    let bs = rest[2] as int / 16;
    let sr = rest[2] as int % 16;
    let rate_at = at + size_bytes(bs);
    let end = rate_at + rate_bytes(sr);
    lemma_lead_bytes(rest);
    bits::lemma_byte_bits_len(rest);
    assert(grammar::block_size_extra(bs as nat) == 8 * size_bytes(bs));
    assert(grammar::sample_rate_extra(sr as nat) == 8 * rate_bytes(sr));
    if end < rest.len() {
        lemma_byte(rest, end);
        if sr == 12 {
            lemma_byte(rest, rate_at);
        } else if sr == 13 || sr == 14 {
            lemma_two_bytes(rest, rate_at);
        }
    }
}

/// A frame without a frame number in order is refused for it.
pub proof fn lemma_number_refused(rest: Seq<u8>, info: InfoModel)
    requires
        rest.len() >= 5,
        rest[0] == 0xFF,
        rest[1] == 0xF8 || rest[1] == 0xF9,
        rest[3] as int % 2 == 0,
        forall|n: int| !(#[trigger] number_stands(rest, 4, n)),
    ensures
        grammar::read_header(rest, info) == Err::<HeaderModel, DecodeError>(
            DecodeError::BadFrameHeader("frame number"),
        ),
{
    let b = bits::byte_bits(rest);
    reveal(grammar::read_header);
    lemma_lead_bytes(rest);
    bits::lemma_byte_bits_len(rest);
    if number::read_number(b, 32) is Some {
        lemma_number_sound(rest, 4);
    }
}

} // verus!
