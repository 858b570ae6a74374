//! FLAC's two CRCs (no reflection, initial value 0), table-driven.
//!
//! CRC-8, polynomial 0x07, over the frame header.
//! CRC-16, polynomial 0x8005, over the whole frame.
use vstd::prelude::*;

verus! {

/// One bit of CRC-8 division.
pub open spec fn crc8_step(c: u8) -> u8 {
    if c & 0x80 != 0 {
        (c << 1) ^ 0x07
    } else {
        c << 1
    }
}

/// `n` bits of CRC-8 division.
pub open spec fn crc8_steps(c: u8, n: nat) -> u8
    decreases n,
{
    if n == 0 {
        c
    } else {
        crc8_step(crc8_steps(c, (n - 1) as nat))
    }
}

/// The CRC-8 of a byte sequence, bit by bit.
pub open spec fn crc8_of(data: Seq<u8>) -> u8
    decreases data.len(),
{
    if data.len() == 0 {
        0
    } else {
        crc8_steps(crc8_of(data.drop_last()) ^ data.last(), 8)
    }
}

/// One bit of CRC-16 division.
pub open spec fn crc16_step(c: u16) -> u16 {
    if c & 0x8000 != 0 {
        (c << 1) ^ 0x8005
    } else {
        c << 1
    }
}

/// `n` bits of CRC-16 division.
pub open spec fn crc16_steps(c: u16, n: nat) -> u16
    decreases n,
{
    if n == 0 {
        c
    } else {
        crc16_step(crc16_steps(c, (n - 1) as nat))
    }
}

/// The CRC-16 of a byte sequence, bit by bit.
pub open spec fn crc16_of(data: Seq<u8>) -> u16
    decreases data.len(),
{
    if data.len() == 0 {
        0
    } else {
        crc16_steps(crc16_of(data.drop_last()) ^ ((data.last() as u16) << 8), 8)
    }
}

/// The table of what eight division steps make of each byte.
pub fn build_crc8_table() -> (table: [u8; 256])
    ensures
        forall|i: int| 0 <= i < 256 ==> #[trigger] table[i] == crc8_steps(i as u8, 8),
{
    let mut table = [0u8; 256];
    let mut i: usize = 0;
    while i < 256
        invariant
            i <= 256,
            forall|j: int| 0 <= j < i ==> #[trigger] table[j] == crc8_steps(j as u8, 8),
        decreases 256 - i,
    {
        let mut crc: u8 = i as u8;
        let mut bit: u32 = 0;
        while bit < 8
            invariant
                bit <= 8,
                crc == crc8_steps(i as u8, bit as nat),
            decreases 8 - bit,
        {
            crc = if crc & 0x80 != 0 {
                (crc << 1) ^ 0x07
            } else {
                crc << 1
            };
            bit = bit + 1;
        }
        table[i] = crc;
        i = i + 1;
    }
    table
}

/// The table of what eight division steps make of each high byte.
pub fn build_crc16_table() -> (table: [u16; 256])
    ensures
        forall|i: int| 0 <= i < 256 ==> #[trigger] table[i] == crc16_steps((i as u16) << 8, 8),
{
    let mut table = [0u16; 256];
    let mut i: usize = 0;
    while i < 256
        invariant
            i <= 256,
            forall|j: int| 0 <= j < i ==> #[trigger] table[j] == crc16_steps((j as u16) << 8, 8),
        decreases 256 - i,
    {
        let mut crc: u16 = (i as u16) << 8;
        let mut bit: u32 = 0;
        while bit < 8
            invariant
                bit <= 8,
                crc == crc16_steps((i as u16) << 8, bit as nat),
            decreases 8 - bit,
        {
            crc = if crc & 0x8000 != 0 {
                (crc << 1) ^ 0x8005
            } else {
                crc << 1
            };
            bit = bit + 1;
        }
        table[i] = crc;
        i = i + 1;
    }
    table
}

/// The CRC-8 of `data`.
pub fn crc8(data: &[u8]) -> (r: u8)
    ensures
        r == crc8_of(data@),
{
    let table = build_crc8_table();
    let mut crc: u8 = 0;
    let mut i: usize = 0;
    while i < data.len()
        invariant
            i <= data@.len(),
            crc == crc8_of(data@.take(i as int)),
            forall|j: int| 0 <= j < 256 ==> #[trigger] table[j] == crc8_steps(j as u8, 8),
        decreases data@.len() - i,
    {
        assert(data@.take(i + 1).drop_last() =~= data@.take(i as int));
        crc = table[(crc ^ data[i]) as usize];
        i = i + 1;
    }
    assert(data@.take(i as int) =~= data@);
    crc
}

/// The CRC-16 of `data`.
pub fn crc16(data: &[u8]) -> (r: u16)
    ensures
        r == crc16_of(data@),
{
    let table = build_crc16_table();
    let mut crc: u16 = 0;
    let mut i: usize = 0;
    while i < data.len()
        invariant
            i <= data@.len(),
            crc == crc16_of(data@.take(i as int)),
            forall|j: int| 0 <= j < 256 ==> #[trigger] table[j] == crc16_steps((j as u16) << 8, 8),
        decreases data@.len() - i,
    {
        assert(data@.take(i + 1).drop_last() =~= data@.take(i as int));
        let b: u16 = data[i] as u16;
        proof {
            lemma_crc16_byte(crc, data@[i as int]);
        }
        crc = (crc << 8) ^ table[((crc >> 8) ^ b) as usize];
        i = i + 1;
    }
    assert(data@.take(i as int) =~= data@);
    crc
}

/// Division is linear over exclusive or.
proof fn lemma_crc16_linear(a: u16, b: u16, n: nat)
    ensures
        crc16_steps(a ^ b, n) == crc16_steps(a, n) ^ crc16_steps(b, n),
    decreases n,
{
    if n > 0 {
        lemma_crc16_linear(a, b, (n - 1) as nat);
        let x = crc16_steps(a, (n - 1) as nat);
        let y = crc16_steps(b, (n - 1) as nat);
        assert(crc16_step(x ^ y) == crc16_step(x) ^ crc16_step(y)) by (bit_vector);
    }
}

/// Dividing a low byte only shifts it.
proof fn lemma_crc16_low(c: u16, n: u16)
    requires
        c < 0x100,
        n <= 8,
    ensures
        crc16_steps(c, n as nat) == c << n,
    decreases n,
{
    if n == 0 {
        assert(c << 0u16 == c) by (bit_vector);
    } else {
        let m = (n - 1) as u16;
        lemma_crc16_low(c, m);
        let x = c << m;
        assert(crc16_step(x) == c << n) by (bit_vector)
            requires
                c < 0x100,
                0 < n <= 8,
                m == n - 1,
                x == c << m,
        ;
    }
}

/// One table step is eight division steps.
proof fn lemma_crc16_byte(c: u16, b: u8)
    ensures
        (c >> 8) ^ (b as u16) < 256,
        (c << 8) ^ crc16_steps((((c >> 8) ^ (b as u16)) as u16) << 8, 8) == crc16_steps(
            c ^ ((b as u16) << 8),
            8,
        ),
{
    let t: u16 = (c >> 8) ^ (b as u16);
    let low: u16 = c & 0xff;
    assert(t < 256 && low < 0x100 && c ^ ((b as u16) << 8) == (t << 8) ^ low && low << 8 == c << 8)
        by (bit_vector)
        requires
            t == (c >> 8) ^ (b as u16),
            low == c & 0xff,
    ;
    lemma_crc16_linear(t << 8, low, 8);
    lemma_crc16_low(low, 8);
    let x = crc16_steps(t << 8, 8);
    let y = c << 8;
    assert(x ^ y == y ^ x) by (bit_vector);
}

/// Division loses nothing: different remainders stay different.
proof fn lemma_crc16_injective(a: u16, b: u16, n: nat)
    requires
        a != b,
    ensures
        crc16_steps(a, n) != crc16_steps(b, n),
    decreases n,
{
    if n > 0 {
        lemma_crc16_injective(a, b, (n - 1) as nat);
        let x = crc16_steps(a, (n - 1) as nat);
        let y = crc16_steps(b, (n - 1) as nat);
        assert(crc16_step(x) != crc16_step(y)) by (bit_vector)
            requires
                x != y,
        ;
    }
}

/// Data followed by its CRC-16, high byte first, divides without a remainder.
pub proof fn lemma_crc16_residue(data: Seq<u8>, hi: u8, lo: u8)
    requires
        crc16_of(data) == 256 * hi + lo,
    ensures
        crc16_of(data.push(hi).push(lo)) == 0,
{
    let c = crc16_of(data);
    let d = c ^ ((hi as u16) << 8);
    assert(d == lo && d < 0x100) by (bit_vector)
        requires
            c == 256 * hi + lo,
            d == c ^ ((hi as u16) << 8),
    ;
    assert(data.push(hi).drop_last() =~= data);
    assert(data.push(hi).push(lo).drop_last() =~= data.push(hi));
    lemma_crc16_low(d, 8);
    let e = crc16_of(data.push(hi));
    assert(e == d << 8u16);
    assert(e ^ ((lo as u16) << 8) == 0) by (bit_vector)
        requires
            d == lo,
            e == d << 8u16,
    ;
    lemma_crc16_low(0, 8);
    assert(0u16 << 8u16 == 0) by (bit_vector);
}

/// One wrong byte, wherever it stands, always shows in the CRC-16.
pub proof fn lemma_crc16_detects(a: Seq<u8>, b: Seq<u8>, i: int)
    requires
        a.len() == b.len(),
        0 <= i < a.len(),
        a[i] != b[i],
        forall|j: int| 0 <= j < a.len() && j != i ==> a[j] == b[j],
    ensures
        crc16_of(a) != crc16_of(b),
    decreases a.len(),
{
    let x = crc16_of(a.drop_last());
    let y = crc16_of(b.drop_last());
    let v = a.last();
    let w = b.last();
    if i == a.len() - 1 {
        assert(a.drop_last() =~= b.drop_last());
        assert(x ^ ((v as u16) << 8) != x ^ ((w as u16) << 8)) by (bit_vector)
            requires
                v != w,
        ;
    } else {
        lemma_crc16_detects(a.drop_last(), b.drop_last(), i);
        assert(x ^ ((v as u16) << 8) != y ^ ((v as u16) << 8)) by (bit_vector)
            requires
                x != y,
        ;
    }
    lemma_crc16_injective(x ^ ((v as u16) << 8), y ^ ((w as u16) << 8), 8);
}

/// What the checksums divide by: a step doubles the remainder, and takes the
/// polynomial off where the remainder reaches its degree. The polynomials are
/// x^8 + x^2 + x + 1 and x^16 + x^15 + x^2 + 1.
pub proof fn lemma_division_steps(c: u8, d: u16)
    ensures
        c < 0x80 ==> crc8_step(c) == 2 * c,
        c >= 0x80 ==> crc8_step(c) ^ 0x07 == 2 * (c - 0x80),
        d < 0x8000 ==> crc16_step(d) == 2 * d,
        d >= 0x8000 ==> crc16_step(d) ^ 0x8005 == 2 * (d - 0x8000),
{
    assert(c < 0x80 ==> c & 0x80 == 0 && c << 1 == 2 * c) by (bit_vector);
    assert(c >= 0x80 ==> c & 0x80 != 0 && ((c << 1) ^ 0x07) ^ 0x07 == 2 * (c - 0x80)) by (
        bit_vector);
    assert(d < 0x8000 ==> d & 0x8000 == 0 && d << 1 == 2 * d) by (bit_vector);
    assert(d >= 0x8000 ==> d & 0x8000 != 0 && ((d << 1) ^ 0x8005) ^ 0x8005 == 2 * (d - 0x8000)) by (
        bit_vector);
}

/// A checksum takes the bytes in order, eight steps for each: a byte is added
/// to the top of the remainder.
pub proof fn lemma_checksum_push(data: Seq<u8>, x: u8)
    ensures
        crc8_of(Seq::empty()) == 0,
        crc16_of(Seq::empty()) == 0,
        crc8_of(data.push(x)) == crc8_steps(crc8_of(data) ^ x, 8),
        crc16_of(data.push(x)) == crc16_steps(crc16_of(data) ^ (x as u16 * 0x100) as u16, 8),
{
    assert(data.push(x).drop_last() =~= data);
    assert((x as u16) << 8 == (x as u16 * 0x100) as u16) by (bit_vector);
}

} // verus!
