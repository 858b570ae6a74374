//! The frame header's variable-length number, coded in the manner of UTF-8.
use crate::arith;
use crate::bitio::{BitReader, BitWriter};
use crate::bits;
use vstd::arithmetic::div_mod::*;
use vstd::arithmetic::power2::*;
use vstd::bits::*;
use vstd::prelude::*;

verus! {

/// How many continuation bytes a number takes when it is written.
pub open spec fn tail_len(v: nat) -> nat {
    if v < 0x80 {
        0
    } else if v < 0x800 {
        1
    } else if v < 0x1_0000 {
        2
    } else if v < 0x20_0000 {
        3
    } else if v < 0x400_0000 {
        4
    } else {
        5
    }
}

/// The leading ones that announce `n` continuation bytes, in place.
pub open spec fn lead_mark(n: nat) -> u64 {
    if n == 1 {
        0xC0
    } else if n == 2 {
        0xE0
    } else if n == 3 {
        0xF0
    } else if n == 4 {
        0xF8
    } else {
        0xFC
    }
}

/// The `n` continuation bytes of `v`, six bits each, high bits first.
pub open spec fn tail_bits(v: int, n: nat) -> Seq<bool>
    decreases n,
{
    if n == 0 {
        Seq::empty()
    } else {
        tail_bits(v / 64, (n - 1) as nat) + bits::field(0x80 + v % 64, 8)
    }
}

/// The bits that a number is written as.
pub open spec fn number_bits(v: u64) -> Seq<bool> {
    if v < 0x80 {
        bits::field(v as int, 8)
    } else {
        let n = tail_len(v as nat);
        bits::field((lead_mark(n) | (v >> ((6 * n) as u64))) as int, 8) + tail_bits(v as int, n)
    }
}

/// How many continuation bytes a lead byte announces; `None` for a byte that
/// cannot lead.
pub open spec fn announced(lead: nat) -> Option<nat> {
    if lead < 0x80 {
        Some(0)
    } else if lead < 0xC0 {
        None
    } else if lead < 0xE0 {
        Some(1)
    } else if lead < 0xF0 {
        Some(2)
    } else if lead < 0xF8 {
        Some(3)
    } else if lead < 0xFC {
        Some(4)
    } else if lead < 0xFE {
        Some(5)
    } else if lead == 0xFE {
        Some(6)
    } else {
        None
    }
}

/// The value bits of a lead byte with `n` continuation bytes.
pub open spec fn lead_value(lead: nat, n: nat) -> nat {
    if n == 0 {
        lead
    } else {
        lead % pow2((7 - n) as nat)
    }
}

/// `n` continuation bytes read at `p` behind the value `v`.
pub open spec fn read_tail(b: Seq<bool>, p: int, v: nat, n: nat) -> Option<(nat, int)>
    decreases n,
{
    if n == 0 {
        Some((v, p))
    } else {
        match read_tail(b, p, v, (n - 1) as nat) {
            None => None,
            Some((w, q)) => match bits::read_uint(b, q, 8) {
                None => None,
                Some((c, r)) => if c / 64 == 2 {
                    Some((w * 64 + c % 64, r))
                } else {
                    None
                },
            },
        }
    }
}

/// A number read at `p`, up to 7 bytes and 36 bits, with the position behind
/// it.
pub open spec fn read_number(b: Seq<bool>, p: int) -> Option<(nat, int)> {
    match bits::read_uint(b, p, 8) {
        None => None,
        Some((lead, q)) => match announced(lead) {
            None => None,
            Some(n) => read_tail(b, q, lead_value(lead, n), n),
        },
    }
}

/// Write the frame number (fixed blocking strategy).
pub fn write_utf8(bw: &mut BitWriter, val: u64)
    requires
        old(bw).wf(),
    ensures
        final(bw).wf(),
        final(bw)@ == old(bw)@ + number_bits(val),
{
    broadcast use bits::group_bits_len;

    if val < 0x80 {
        bw.write_bits(val, 8);
        return;
    }
    let (n, mark): (u64, u64) = if val < 0x800 {
        (1, 0xC0)
    } else if val < 0x1_0000 {
        (2, 0xE0)
    } else if val < 0x20_0000 {
        (3, 0xF0)
    } else if val < 0x400_0000 {
        (4, 0xF8)
    } else {
        (5, 0xFC)
    };
    let ghost start = bw@;
    bw.write_bits(mark | (val >> (6 * n)), 8);
    let ghost head = bw@;
    let mut i: u64 = n;
    assert(bw@ =~= head + tail_bits(val as int / (pow2((6 * n) as nat) as int), 0));
    while i > 0
        invariant
            i <= n <= 5,
            bw.wf(),
            bw@ == head + tail_bits(val as int / (pow2((6 * i) as nat) as int), (n - i) as nat),
        decreases i,
    {
        i = i - 1;
        let ghost v = val as int / (pow2((6 * i) as nat) as int);
        proof {
            lemma2_to64();
            lemma_u64_shr_is_div(val, (6 * i) as u64);
            lemma_pow2_pos((6 * i) as nat);
            lemma_pow2_adds((6 * i) as nat, 6);
            arith::lemma_div_div(val as int, pow2((6 * i) as nat) as int, 64);
        }
        let six: u64 = (val >> (6 * i)) % 64;
        let ghost now = bw@;
        bw.write_bits(0x80 + six, 8);
        assert(bw@ =~= head + tail_bits(v, (n - i) as nat));
    }
    proof {
        lemma2_to64();
        assert(val as int / 1 == val);
        assert(bw@ =~= start + number_bits(val));
    }
}

/// Read a number; `None` for a malformed one and past the end of the stream.
pub fn read_utf8(br: &mut BitReader) -> (r: Option<u64>)
    requires
        old(br).wf(),
    ensures
        final(br).wf(),
        final(br).bits() == old(br).bits(),
        match r {
            Some(v) => read_number(old(br).bits(), old(br).bit_pos()) == Some(
                (v as nat, final(br).bit_pos()),
            ),
            None => read_number(old(br).bits(), old(br).bit_pos()) is None,
        },
{
    let ghost b = br.bits();
    let ghost p = br.bit_pos();
    let lead: u32 = match br.read_bits(8) {
        Some(v) => v,
        None => {
            return None;
        },
    };
    proof {
        br.lemma_pos_bound();
        bits::lemma_value_bound(b.subrange(p, p + 8));
        lemma2_to64();
    }
    let (n, modulus): (u32, u64) = if lead < 0x80 {
        (0, 0x80)
    } else if lead < 0xC0 {
        return None;
    } else if lead < 0xE0 {
        (1, 64)
    } else if lead < 0xF0 {
        (2, 32)
    } else if lead < 0xF8 {
        (3, 16)
    } else if lead < 0xFC {
        (4, 8)
    } else if lead < 0xFE {
        (5, 4)
    } else if lead == 0xFE {
        (6, 2)
    } else {
        return None;
    };
    let mut val: u64 = lead as u64 % modulus;
    let ghost first = val as nat;
    let ghost q = br.bit_pos();
    let mut i: u32 = 0;
    while i < n
        invariant
            i <= n <= 6,
            br.wf(),
            br.bits() == b,
            read_tail(b, q, first, i as nat) == Some((val as nat, br.bit_pos())),
            val < 0x80 * pow2((6 * i) as nat),
            b == old(br).bits(),
            p == old(br).bit_pos(),
            read_number(b, p) == read_tail(b, q, first, n as nat),
        decreases n - i,
    {
        let ghost at = br.bit_pos();
        proof {
            lemma2_to64();
            lemma2_to64_rest();
            lemma_pow2_adds((6 * i) as nat, 6);
            arith::lemma_pow2_monotone((6 * (i + 1)) as nat, 36);
        }
        let c: u32 = match br.read_bits(8) {
            Some(c) => c,
            None => {
                proof {
                    lemma_read_tail_none(b, q, first, (i + 1) as nat, n as nat);
                }
                return None;
            },
        };
        proof {
            br.lemma_pos_bound();
            bits::lemma_value_bound(b.subrange(at, at + 8));
        }
        if c / 64 != 2 {
            proof {
                lemma_read_tail_none(b, q, first, (i + 1) as nat, n as nat);
            }
            return None;
        }
        val = val * 64 + (c % 64) as u64;
        i = i + 1;
    }
    Some(val)
}

/// A tail that fails early fails as a whole.
proof fn lemma_read_tail_none(b: Seq<bool>, p: int, v: nat, m: nat, n: nat)
    requires
        m <= n,
        read_tail(b, p, v, m) is None,
    ensures
        read_tail(b, p, v, n) is None,
    decreases n - m,
{
    if m < n {
        lemma_read_tail_none(b, p, v, m, (n - 1) as nat);
    }
}

pub proof fn lemma_read_tail_pos(b: Seq<bool>, p: int, v: nat, n: nat)
    ensures
        read_tail(b, p, v, n) matches Some((w, q)) ==> q == p + 8 * n,
    decreases n,
{
    if n > 0 {
        lemma_read_tail_pos(b, p, v, (n - 1) as nat);
    }
}

/// A number takes whole bytes, at least one.
pub proof fn lemma_read_number_pos(b: Seq<bool>, p: int)
    ensures
        read_number(b, p) matches Some((v, q)) ==> q >= p + 8 && (q - p) % 8 == 0,
{
    match bits::read_uint(b, p, 8) {
        None => {},
        Some((lead, q)) => match announced(lead) {
            None => {},
            Some(n) => {
                lemma_read_tail_pos(b, q, lead_value(lead, n), n);
            },
        },
    }
}

proof fn lemma_tail_len(v: int, n: nat)
    ensures
        tail_bits(v, n).len() == 8 * n,
    decreases n,
{
    broadcast use bits::group_bits_len;

    if n > 0 {
        lemma_tail_len(v / 64, (n - 1) as nat);
    }
}

/// A number is written in whole bytes.
pub proof fn lemma_number_len(v: u64)
    ensures
        number_bits(v).len() == 8 * (1 + tail_len(v as nat)),
{
    broadcast use bits::group_bits_len;

    lemma_tail_len(v as int, tail_len(v as nat));
}

/// The continuation bytes of a number bring its low bits back.
proof fn lemma_tail_round_trip(b: Seq<bool>, p: int, v: int, n: nat)
    requires
        v >= 0,
        bits::stands_at(b, p, tail_bits(v, n)),
    ensures
        read_tail(b, p, (v / (pow2(6 * n) as int)) as nat, n) == Some((v as nat, p + 8 * n)),
    decreases n,
{
    broadcast use bits::group_bits_len;

    lemma2_to64();
    if n == 0 {
        assert(v / 1 == v);
    } else {
        let m = (n - 1) as nat;
        let c = 0x80 + v % 64;
        lemma_tail_len(v / 64, m);
        bits::lemma_stands_split(b, p, tail_bits(v / 64, m), bits::field(c, 8));
        lemma_tail_round_trip(b, p, v / 64, m);
        lemma_pow2_pos(6 * m);
        lemma_pow2_adds(6, 6 * m);
        assert(6 + 6 * m == 6 * n);
        arith::lemma_div_div(v, 64, pow2(6 * m) as int);
        bits::lemma_value_field(c, 8);
        lemma_small_mod(c as nat, 256);
        assert((v / 64) * 64 + v % 64 == v);
    }
}

/// A lead byte announces its continuation bytes and holds the bits above
/// them.
proof fn lemma_lead(v: u64, n: nat)
    requires
        0x80 <= v < 0x8000_0000,
        n == tail_len(v as nat),
    ensures
        (lead_mark(n) | (v >> ((6 * n) as u64))) < 256,
        announced((lead_mark(n) | (v >> ((6 * n) as u64))) as nat) == Some(n),
        lead_value((lead_mark(n) | (v >> ((6 * n) as u64))) as nat, n) == v as nat / pow2(6 * n),
{
    lemma2_to64();
    let k: u64 = (6 * n) as u64;
    let mark = lead_mark(n);
    let top: u64 = v >> k;
    let lead: u64 = mark | top;
    assert((k == 6 && mark == 0xC0 && v < 0x800 || k == 12 && mark == 0xE0 && v < 0x1_0000 || k
        == 18 && mark == 0xF0 && v < 0x20_0000 || k == 24 && mark == 0xF8 && v < 0x400_0000 || k
        == 30 && mark == 0xFC && v < 0x8000_0000) ==> lead == mark + top && (k == 6 ==> top < 32)
        && (k == 12 ==> top < 16) && (k == 18 ==> top < 8) && (k == 24 ==> top < 4) && (k == 30
        ==> top < 2)) by (bit_vector)
        requires
            top == v >> k,
            lead == mark | top,
    ;
    lemma_u64_shr_is_div(v, k);
    if n == 1 {
        assert(pow2((7 - n) as nat) == 64);
        assert(lead as nat % 64 == top);
    } else if n == 2 {
        assert(pow2((7 - n) as nat) == 32);
        assert(lead as nat % 32 == top);
    } else if n == 3 {
        assert(pow2((7 - n) as nat) == 16);
        assert(lead as nat % 16 == top);
    } else if n == 4 {
        assert(pow2((7 - n) as nat) == 8);
        assert(lead as nat % 8 == top);
    } else {
        assert(pow2((7 - n) as nat) == 4);
        assert(lead as nat % 4 == top);
    }
}

/// A frame number below 2^31 is read back as it was written, wherever it
/// stands.
pub proof fn lemma_number_round_trip(b: Seq<bool>, p: int, v: u64)
    requires
        v < 0x8000_0000,
        bits::stands_at(b, p, number_bits(v)),
    ensures
        read_number(b, p) == Some((v as nat, p + number_bits(v).len())),
        number_bits(v).len() % 8 == 0,
{
    broadcast use bits::group_bits_len;

    lemma2_to64();
    let n = tail_len(v as nat);
    if v < 0x80 {
        bits::lemma_value_field(v as int, 8);
        lemma_small_mod(v as nat, 256);
    } else {
        let lead: u64 = lead_mark(n) | (v >> ((6 * n) as u64));
        lemma_tail_len(v as int, n);
        bits::lemma_stands_split(b, p, bits::field(lead as int, 8), tail_bits(v as int, n));
        lemma_lead(v, n);
        bits::lemma_value_field(lead as int, 8);
        lemma_small_mod(lead as nat, 256);
        lemma_tail_round_trip(b, p + 8, v as int, n);
    }
}

} // verus!
