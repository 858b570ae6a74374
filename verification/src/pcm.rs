//! PCM layouts: interleaved samples, little-endian 16-bit integers, and
//! little-endian IEEE 754 single precision numbers quantized to a bit depth.
use crate::arith;
use crate::decode;
use crate::md5;
use crate::md5::Md5;
use vstd::arithmetic::div_mod::*;
use vstd::arithmetic::power2::*;
use vstd::prelude::*;

verus! {

// ---------------------------------------------------------------------------
// Interleaving
// ---------------------------------------------------------------------------
/// Channel `c` of interleaved samples of `ch` channels.
pub open spec fn channel_of(v: Seq<i32>, ch: nat, c: int) -> Seq<i32> {
    Seq::new(v.len() / ch, |i: int| v[i * ch + c])
}

/// All channels of interleaved samples.
pub open spec fn split(v: Seq<i32>, ch: nat) -> Seq<Seq<i32>> {
    Seq::new(ch, |c: int| channel_of(v, ch, c))
}

/// Channels of equal length, interleaved.
pub open spec fn interleaved(planes: Seq<Seq<i32>>) -> Seq<i32> {
    Seq::new(
        planes.len() * planes[0].len(),
        |j: int| planes[j % planes.len() as int][j / planes.len() as int],
    )
}

/// Splitting interleaved channels gives the channels back.
pub proof fn lemma_split_interleaved(planes: Seq<Seq<i32>>)
    requires
        planes.len() >= 1,
        forall|c: int| 0 <= c < planes.len() ==> (#[trigger] planes[c]).len() == planes[0].len(),
    ensures
        split(interleaved(planes), planes.len()) == planes,
{
    let ch = planes.len();
    let n = planes[0].len();
    let v = interleaved(planes);
    assert(v.len() / ch == n) by {
        lemma_div_multiples_vanish(n as int, ch as int);
    }
    assert forall|c: int| 0 <= c < ch implies #[trigger] channel_of(v, ch, c) == planes[c] by {
        assert(planes[c].len() == n);
        assert forall|i: int| 0 <= i < n implies channel_of(v, ch, c)[i] == planes[c][i] by {
            let j = i * ch + c;
            lemma_fundamental_div_mod_converse(j, ch as int, i, c);
            assert(0 <= j < ch * n) by (nonlinear_arith)
                requires
                    0 <= i < n,
                    0 <= c < ch,
                    j == i * ch + c,
            ;
        }
        assert(channel_of(v, ch, c) =~= planes[c]);
    }
    assert(split(v, ch) =~= planes);
}

/// The samples of channel `c`, `ch` apart from each other.
pub fn take_channel(v: &[i32], ch: usize, c: usize) -> (r: Vec<i32>)
    requires
        c < ch,
        v@.len() % (ch as nat) == 0,
    ensures
        r@ == channel_of(v@, ch as nat, c as int),
{
    let n: usize = v.len() / ch;
    let mut r: Vec<i32> = Vec::with_capacity(n);
    let mut i: usize = 0;
    let mut at: usize = c;
    proof {
        lemma_fundamental_div_mod(v@.len() as int, ch as int);
        assert(0 * ch == 0) by (nonlinear_arith);
    }
    while i < n
        invariant
            i <= n,
            c < ch,
            n == v@.len() as int / (ch as int),
            v@.len() == ch * n,
            i < n ==> at == i * ch + c,
            r@ == channel_of(v@, ch as nat, c as int).take(i as int),
        decreases n - i,
    {
        assert((i + 1) * ch == i * ch + ch && (i + 1 <= n ==> (i + 1) * ch <= ch * n)) by (
        nonlinear_arith);
        r.push(v[at]);
        i = i + 1;
        if i < n {
            assert((i + 1) * ch == i * ch + ch && (i + 1) * ch <= ch * n) by (nonlinear_arith)
                requires
                    i + 1 <= n,
            ;
            at = at + ch;
        }
        assert(r@ =~= channel_of(v@, ch as nat, c as int).take(i as int));
    }
    assert(r@ =~= channel_of(v@, ch as nat, c as int));
    r
}

// ---------------------------------------------------------------------------
// 16-bit integers
// ---------------------------------------------------------------------------
/// Two bytes, the low one first, as a two's complement number.
pub open spec fn s16_of(lo: u8, hi: u8) -> i32 {
    (if hi >= 128 {
        lo + 256 * hi - 0x1_0000
    } else {
        lo + 256 * hi
    }) as i32
}

/// The samples of little-endian 16-bit PCM.
pub open spec fn s16_samples(bytes: Seq<u8>) -> Seq<i32> {
    Seq::new(bytes.len() / 2, |i: int| s16_of(bytes[2 * i], bytes[2 * i + 1]))
}

/// Read little-endian 16-bit PCM.
pub fn read_s16le(bytes: &[u8]) -> (r: Vec<i32>)
    ensures
        r@ == s16_samples(bytes@),
{
    let len: usize = bytes.len();
    let n: usize = len / 2;
    let mut r: Vec<i32> = Vec::with_capacity(n);
    let mut i: usize = 0;
    while i < n
        invariant
            i <= n,
            len == bytes@.len(),
            n == len / 2,
            r@ == s16_samples(bytes@).take(i as int),
        decreases n - i,
    {
        let v: i32 = bytes[2 * i] as i32 + 256 * bytes[2 * i + 1] as i32;
        if bytes[2 * i + 1] >= 128 {
            r.push(v - 0x1_0000);
        } else {
            r.push(v);
        }
        i = i + 1;
        assert(r@ =~= s16_samples(bytes@).take(i as int));
    }
    assert(r@ =~= s16_samples(bytes@));
    r
}

// ---------------------------------------------------------------------------
// Single precision numbers
// ---------------------------------------------------------------------------
/// The exponent field of a single precision number.
pub open spec fn exponent(u: u32) -> nat {
    (u as nat / 0x80_0000) % 256
}

/// The fraction field of a single precision number.
pub open spec fn fraction(u: u32) -> nat {
    u as nat % 0x80_0000
}

/// The significand of a finite number, with its leading one where it has one.
pub open spec fn significand(u: u32) -> nat {
    if exponent(u) == 0 {
        fraction(u)
    } else {
        fraction(u) + 0x80_0000
    }
}

/// The size of a finite number is its significand times two to this power.
pub open spec fn power_of(u: u32) -> int {
    (if exponent(u) == 0 {
        1
    } else {
        exponent(u) as int
    }) - 150
}

/// `sig * 2^p`, rounded to the nearest integer, halves up.
pub open spec fn rounded(sig: nat, p: int) -> nat {
    if p >= 0 {
        sig * pow2(p as nat)
    } else {
        (2 * sig + pow2((-p) as nat)) / (2 * pow2((-p) as nat))
    }
}

/// A single precision number on the grid of `bps` bits: scaled by
/// `2^(bps - 1)`, rounded to the nearest integer with halves away from zero,
/// and clamped to the range of a sample; what is not a number is 0.
pub open spec fn quantized(u: u32, bps: nat) -> int {
    let top = pow2((bps - 1) as nat) as int;
    let infinite = exponent(u) == 255;
    let size = if infinite {
        top
    } else {
        rounded(significand(u), power_of(u) + bps - 1) as int
    };
    if infinite && fraction(u) != 0 {
        0
    } else if u < 0x8000_0000 {
        arith::min(size, top - 1)
    } else {
        -arith::min(size, top)
    }
}

/// Four bytes, the low one first.
pub open spec fn word_at(bytes: Seq<u8>, i: int) -> u32 {
    (bytes[i] + 0x100 * bytes[i + 1] + 0x1_0000 * bytes[i + 2] + 0x100_0000 * bytes[i + 3]) as u32
}

/// The samples of little-endian single precision PCM on the grid of `bps`
/// bits.
pub open spec fn f32_samples(bytes: Seq<u8>, bps: nat) -> Seq<i32> {
    Seq::new(bytes.len() / 4, |i: int| quantized(word_at(bytes, 4 * i), bps) as i32)
}

proof fn lemma_rounded_large(sig: nat, p: int)
    requires
        1 <= sig,
        p >= 24,
    ensures
        rounded(sig, p) >= 0x100_0000,
{
    lemma2_to64();
    arith::lemma_pow2_monotone(24, p as nat);
    assert(sig * pow2(p as nat) >= pow2(p as nat)) by (nonlinear_arith)
        requires
            sig >= 1,
    ;
}

proof fn lemma_rounded_small(sig: nat, p: int)
    requires
        sig < 0x100_0000,
        p <= -26,
    ensures
        rounded(sig, p) == 0,
{
    lemma2_to64();
    arith::lemma_pow2_monotone(26, (-p) as nat);
    let m = pow2((-p) as nat) as int;
    assert((2 * sig + m) / (2 * m) == 0) by (nonlinear_arith)
        requires
            2 * sig < m,
            m > 0,
    ;
}

/// `sig * 2^p`, rounded to the nearest integer with halves up, but no more
/// than 2^24.
fn round_scaled(sig: u64, p: i32) -> (r: u64)
    requires
        sig < 0x100_0000,
        -150 <= p <= 150,
    ensures
        r == rounded(sig as nat, p as int) || r == 0x100_0000 && rounded(sig as nat, p as int) >= r,
{
    proof {
        lemma2_to64();
        lemma2_to64_rest();
    }
    if p >= 24 {
        if sig == 0 {
            assert(0 * pow2(p as nat) == 0) by (nonlinear_arith);
            return 0;
        }
        proof {
            lemma_rounded_large(sig as nat, p as int);
        }
        return 0x100_0000;
    }
    if p >= 0 {
        proof {
            arith::lemma_pow2_monotone(p as nat, 23);
            assert(sig * pow2(p as nat) <= 0x100_0000 * 0x80_0000) by (nonlinear_arith)
                requires
                    sig <= 0x100_0000,
                    pow2(p as nat) <= 0x80_0000,
            ;
            vstd::bits::lemma_u64_shl_is_mul(sig, p as u64);
        }
        return sig << (p as u64);
    }
    if p <= -26 {
        proof {
            lemma_rounded_small(sig as nat, p as int);
        }
        return 0;
    }
    let q: u64 = (-p) as u64;
    proof {
        arith::lemma_pow2_monotone(q as nat, 25);
        lemma_pow2_pos(q as nat);
        vstd::bits::lemma_u64_shl_is_mul(1, q);
    }
    let half: u64 = 1u64 << q;
    (2 * sig + half) / (2 * half)
}

/// Quantize one single precision number, given as its bits.
pub fn quantize_f32(u: u32, bps: u32) -> (r: i32)
    requires
        1 <= bps <= 24,
    ensures
        r == quantized(u, bps as nat),
{
    proof {
        lemma2_to64();
        arith::lemma_pow2_monotone((bps - 1) as nat, 23);
        lemma_pow2_pos((bps - 1) as nat);
        vstd::bits::lemma_u64_shl_is_mul(1, (bps - 1) as u64);
    }
    let top: u64 = 1u64 << (bps - 1);
    let exp: u32 = (u / 0x80_0000) % 256;
    let frac: u32 = u % 0x80_0000;
    let negative: bool = u >= 0x8000_0000;
    if exp == 255 && frac != 0 {
        return 0;
    }
    let size: u64 = if exp == 255 {
        top
    } else if exp == 0 {
        round_scaled(frac as u64, bps as i32 - 150)
    } else {
        round_scaled(frac as u64 + 0x80_0000, exp as i32 + bps as i32 - 151)
    };
    if negative {
        if size < top {
            -(size as i32)
        } else {
            -(top as i32)
        }
    } else {
        if size < top {
            size as i32
        } else {
            (top - 1) as i32
        }
    }
}

/// Read little-endian single precision PCM onto the grid of `bps` bits.
pub fn read_f32le(bytes: &[u8], bps: u32) -> (r: Vec<i32>)
    requires
        1 <= bps <= 24,
    ensures
        r@ == f32_samples(bytes@, bps as nat),
{
    let len: usize = bytes.len();
    let n: usize = len / 4;
    let mut r: Vec<i32> = Vec::with_capacity(n);
    let mut i: usize = 0;
    while i < n
        invariant
            i <= n,
            1 <= bps <= 24,
            len == bytes@.len(),
            n == len / 4,
            r@ == f32_samples(bytes@, bps as nat).take(i as int),
        decreases n - i,
    {
        let word: u32 = bytes[4 * i] as u32 + 0x100 * bytes[4 * i + 1] as u32 + 0x1_0000
            * bytes[4 * i + 2] as u32 + 0x100_0000 * bytes[4 * i + 3] as u32;
        r.push(quantize_f32(word, bps));
        i = i + 1;
        assert(r@ =~= f32_samples(bytes@, bps as nat).take(i as int));
    }
    assert(r@ =~= f32_samples(bytes@, bps as nat));
    r
}

// ---------------------------------------------------------------------------
// The bytes that the signature covers
// ---------------------------------------------------------------------------
/// The first `c` samples of row `i`, little-endian, `w` bytes each.
pub open spec fn row_bytes(planes: Seq<Seq<i32>>, i: int, w: nat, c: nat) -> Seq<u8>
    decreases c,
{
    if c == 0 {
        Seq::empty()
    } else {
        row_bytes(planes, i, w, (c - 1) as nat) + md5::le_bytes(planes[c - 1][i] as int, w)
    }
}

/// The first `n` rows of interleaved little-endian PCM, `w` bytes a sample.
pub open spec fn pcm_bytes(planes: Seq<Seq<i32>>, w: nat, n: nat) -> Seq<u8>
    decreases n,
{
    if n == 0 {
        Seq::empty()
    } else {
        pcm_bytes(planes, w, (n - 1) as nat) + row_bytes(planes, n - 1, w, planes.len())
    }
}

/// Append the low `w` bytes of a sample, the lowest first.
fn push_le(buf: &mut Vec<u8>, v: i32, w: u32)
    requires
        w <= 4,
    ensures
        final(buf)@ == old(buf)@ + md5::le_bytes(v as int, w as nat),
{
    let ghost start = buf@;
    let mut rest: i32 = v;
    let mut j: u32 = 0;
    assert(buf@ + md5::le_bytes(v as int, w as nat) =~= start + md5::le_bytes(v as int, w as nat));
    while j < w
        invariant
            j <= w <= 4,
            buf@ + md5::le_bytes(rest as int, (w - j) as nat) == start + md5::le_bytes(
                v as int,
                w as nat,
            ),
        decreases w - j,
    {
        let low: i32 = rest & 0xff;
        let next: i32 = rest >> 8;
        assert(0 <= low < 256 && rest == 256 * next + low) by (bit_vector)
            requires
                low == rest & 0xff,
                next == rest >> 8,
        ;
        assert(rest as int % 256 == low && rest as int / 256 == next);
        let ghost now = buf@;
        buf.push(low as u8);
        assert(buf@ + md5::le_bytes(next as int, (w - j - 1) as nat) =~= now + md5::le_bytes(
            rest as int,
            (w - j) as nat,
        ));
        rest = next;
        j = j + 1;
    }
    assert(buf@ =~= start + md5::le_bytes(v as int, w as nat));
}

/// The MD5 of unencoded audio: interleaved samples, little-endian, `w` bytes
/// each.
pub fn pcm_md5(chans: &Vec<Vec<i32>>, w: u32, n: usize) -> (r: [u8; 16])
    requires
        w <= 4,
        forall|c: int| 0 <= c < chans@.len() ==> (#[trigger] chans@[c])@.len() == n,
    ensures
        r@ == md5::md5_of(pcm_bytes(decode::planes(chans@), w as nat, n as nat)),
{
    let ghost p = decode::planes(chans@);
    let mut md5: Md5 = Md5::new();
    let mut buf: Vec<u8> = Vec::new();
    let mut i: usize = 0;
    assert(md5@ + buf@ =~= pcm_bytes(p, w as nat, 0));
    while i < n
        invariant
            i <= n,
            w <= 4,
            p == decode::planes(chans@),
            forall|c: int| 0 <= c < chans@.len() ==> (#[trigger] chans@[c])@.len() == n,
            md5.wf(),
            md5@ + buf@ == pcm_bytes(p, w as nat, i as nat),
        decreases n - i,
    {
        let ghost before = pcm_bytes(p, w as nat, i as nat);
        let mut c: usize = 0;
        assert(md5@ + buf@ =~= before + row_bytes(p, i as int, w as nat, 0));
        while c < chans.len()
            invariant
                c <= chans@.len(),
                i < n,
                w <= 4,
                p == decode::planes(chans@),
                forall|c: int| 0 <= c < chans@.len() ==> (#[trigger] chans@[c])@.len() == n,
                md5@ + buf@ == before + row_bytes(p, i as int, w as nat, c as nat),
            decreases chans@.len() - c,
        {
            assert(chans@[c as int]@.len() == n);
            let v: i32 = chans[c][i];
            let ghost now = buf@;
            push_le(&mut buf, v, w);
            proof {
                let le = md5::le_bytes(v as int, w as nat);
                assert(p[c as int][i as int] == v);
                assert(md5@ + buf@ =~= (md5@ + now) + le);
                assert(before + row_bytes(p, i as int, w as nat, (c + 1) as nat) =~= (before
                    + row_bytes(p, i as int, w as nat, c as nat)) + le);
            }
            c = c + 1;
        }
        i = i + 1;
        // Hash a chunk of rows at a time.
        if buf.len() >= 65536 {
            md5.update(buf.as_slice());
            buf = Vec::new();
            assert(md5@ + buf@ =~= pcm_bytes(p, w as nat, i as nat));
        }
    }
    md5.update(buf.as_slice());
    md5.finalize()
}

/// A quantized number is always a sample of its bit depth.
pub proof fn lemma_quantized_in_range(u: u32, bps: nat)
    requires
        bps >= 1,
    ensures
        -pow2((bps - 1) as nat) <= quantized(u, bps) < pow2((bps - 1) as nat),
{
    let top = pow2((bps - 1) as nat);
    lemma_pow2_pos((bps - 1) as nat);
    let p = power_of(u) + bps - 1;
    let size = rounded(significand(u), p);
    if p < 0 {
        lemma_pow2_pos((-p) as nat);
    } else {
        lemma_pow2_pos(p as nat);
    }
    assert(size >= 0);
}

/// Samples of 16 bits read back from their little-endian bytes.
pub proof fn lemma_s16_round_trip(plane: Seq<i32>)
    requires
        forall|i: int| 0 <= i < plane.len() ==> -0x8000 <= #[trigger] plane[i] < 0x8000,
    ensures
        s16_samples(pcm_bytes(seq![plane], 2, plane.len())) == plane,
{
    let bytes = pcm_bytes(seq![plane], 2, plane.len());
    lemma_pcm_row(plane, plane.len());
    assert forall|i: int| 0 <= i < plane.len() implies s16_samples(bytes)[i] == plane[i] by {
        assert(-0x8000 <= plane[i] < 0x8000);
        lemma_pcm_row_at(plane, plane.len(), i);
    }
    assert(s16_samples(bytes) =~= plane);
}

proof fn lemma_le_pair(v: int)
    ensures
        md5::le_bytes(v, 2) == seq![(v % 256) as u8, (v / 256 % 256) as u8],
{
    reveal_with_fuel(md5::le_bytes, 3);
    assert(md5::le_bytes(v, 2) =~= seq![(v % 256) as u8, (v / 256 % 256) as u8]);
}

proof fn lemma_pcm_row(plane: Seq<i32>, n: nat)
    requires
        n <= plane.len(),
    ensures
        pcm_bytes(seq![plane], 2, n).len() == 2 * n,
    decreases n,
{
    if n > 0 {
        lemma_pcm_row(plane, (n - 1) as nat);
        lemma_le_pair(plane[n - 1] as int);
        reveal_with_fuel(row_bytes, 2);
    }
}

proof fn lemma_pcm_row_at(plane: Seq<i32>, n: nat, i: int)
    requires
        n <= plane.len(),
        0 <= i < n,
    ensures
        pcm_bytes(seq![plane], 2, n)[2 * i] == (plane[i] as int % 256) as u8,
        pcm_bytes(seq![plane], 2, n)[2 * i + 1] == (plane[i] as int / 256 % 256) as u8,
    decreases n,
{
    lemma_pcm_row(plane, (n - 1) as nat);
    lemma_le_pair(plane[n - 1] as int);
    reveal_with_fuel(row_bytes, 2);
    if i < n - 1 {
        lemma_pcm_row_at(plane, (n - 1) as nat, i);
    }
}

proof fn lemma_row_at(planes: Seq<Seq<i32>>, i: int, w: nat, m: nat, c: int, j: nat)
    requires
        j < w,
    ensures
        row_bytes(planes, i, w, m).len() == m * w,
        0 <= c < m ==> 0 <= c * w + j < m * w && row_bytes(planes, i, w, m)[c * w + j] == (
        planes[c][i] as int / (pow2(8 * j) as int)) % 256,
    decreases m,
{
    if m == 0 {
        assert(0 * w == 0) by (nonlinear_arith);
    } else {
        let k = (m - 1) as nat;
        lemma_row_at(planes, i, w, k, c, j);
        md5::lemma_le_bytes_len(planes[m - 1][i] as int, w);
        md5::lemma_le_byte(planes[m - 1][i] as int, w, j);
        assert(k * w + w == m * w) by (nonlinear_arith)
            requires
                k + 1 == m,
        ;
        if 0 <= c < m {
            assert(0 <= c * w + j < m * w) by (nonlinear_arith)
                requires
                    0 <= c < m,
                    j < w,
            ;
            assert(c == k ==> c * w == k * w);
        }
    }
}

/// The signature covers every sample: byte `j` of sample `i` of channel `c`
/// stands where interleaved little-endian PCM has it, and nothing else does.
pub proof fn lemma_pcm_at(planes: Seq<Seq<i32>>, w: nat, n: nat, i: int, c: int, j: nat)
    requires
        0 <= i < n,
        0 <= c < planes.len(),
        j < w,
    ensures
        pcm_bytes(planes, w, n).len() == n * (planes.len() * w),
        0 <= i * (planes.len() * w) + (c * w + j) < pcm_bytes(planes, w, n).len(),
        pcm_bytes(planes, w, n)[i * (planes.len() * w) + (c * w + j)] == (planes[c][i] as int / (
        pow2(8 * j) as int)) % 256,
    decreases n,
{
    let row = planes.len() * w;
    let k = (n - 1) as nat;
    lemma_row_at(planes, k as int, w, planes.len(), c, j);
    lemma_pcm_len(planes, w, k);
    lemma_pcm_len(planes, w, n);
    assert(k * row + row == n * row) by (nonlinear_arith)
        requires
            k + 1 == n,
    ;
    if i < k {
        lemma_pcm_at(planes, w, k, i, c, j);
    } else {
        assert(i * row == k * row);
    }
}

proof fn lemma_pcm_len(planes: Seq<Seq<i32>>, w: nat, n: nat)
    ensures
        pcm_bytes(planes, w, n).len() == n * (planes.len() * w),
    decreases n,
{
    let row = planes.len() * w;
    if n == 0 {
        assert(0 * row == 0) by (nonlinear_arith);
    } else {
        let k = (n - 1) as nat;
        lemma_pcm_len(planes, w, k);
        lemma_row_len(planes, k as int, w, planes.len());
        assert(k * row + row == n * row) by (nonlinear_arith)
            requires
                k + 1 == n,
        ;
    }
}

proof fn lemma_row_len(planes: Seq<Seq<i32>>, i: int, w: nat, m: nat)
    ensures
        row_bytes(planes, i, w, m).len() == m * w,
    decreases m,
{
    if m == 0 {
        assert(0 * w == 0) by (nonlinear_arith);
    } else {
        let k = (m - 1) as nat;
        lemma_row_len(planes, i, w, k);
        md5::lemma_le_bytes_len(planes[m - 1][i] as int, w);
        assert(k * w + w == m * w) by (nonlinear_arith)
            requires
                k + 1 == m,
        ;
    }
}

/// Where the samples of interleaved channels go: row by row, a sample of each
/// channel in turn.
pub proof fn lemma_split_at(v: Seq<i32>, ch: nat, c: int, i: int)
    requires
        ch >= 1,
        v.len() % ch == 0,
        0 <= c < ch,
        0 <= i < v.len() / ch,
    ensures
        split(v, ch).len() == ch,
        split(v, ch)[c].len() * ch == v.len(),
        split(v, ch)[c][i] == v[ch * i + c],
{
    vstd::arithmetic::div_mod::lemma_fundamental_div_mod(v.len() as int, ch as int);
    let n = v.len() / ch;
    assert(n * ch == ch * n) by (nonlinear_arith);
    assert(i * ch == ch * i) by (nonlinear_arith);
}

/// What a 16-bit sample is: two bytes, the low one first, modulo 2^16, in the
/// range of a signed number.
pub proof fn lemma_s16_at(bytes: Seq<u8>, i: int)
    requires
        0 <= 2 * i,
        2 * i + 1 < bytes.len(),
    ensures
        s16_samples(bytes).len() == bytes.len() / 2,
        -0x8000 <= s16_samples(bytes)[i] <= 0x7fff,
        (s16_samples(bytes)[i] - (bytes[2 * i] + 0x100 * bytes[2 * i + 1])) % 0x1_0000 == 0,
{
}

/// Quantization is to the nearest step, halves away from zero: a finite
/// positive number of significand `sig` and exponent field `f`, scaled by half
/// the range of `bps` bits, is no more than half a step from its sample, or the
/// sample is the highest one and the number is no lower than half a step below
/// it.
pub proof fn lemma_quantized_near(u: u32, bps: nat)
    requires
        0x80_0000 <= u < 0x7F80_0000,
        1 <= bps <= 32,
        u as int / 0x80_0000 + bps <= 150,
    ensures
        ({
            let sig = 0x80_0000 + u as int % 0x80_0000;
            let unit = pow2((151 - bps - u as int / 0x80_0000) as nat) as int;
            let top = pow2((bps - 1) as nat) as int;
            let q = quantized(u, bps);
            &&& 0 <= q < top
            &&& 2 * (q * unit) - 2 * sig <= unit
            &&& q < top - 1 ==> -unit < 2 * (q * unit) - 2 * sig
            &&& quantized((u + 0x8000_0000) as u32, bps) == -q || q == top - 1
        }),
{
    let f = u as nat / 0x80_0000;
    assert(exponent(u) == f);
    let sig = significand(u) as int;
    let p = power_of(u) + bps - 1;
    let unit = pow2((-p) as nat) as int;
    let top = pow2((bps - 1) as nat) as int;
    lemma_pow2_pos((-p) as nat);
    lemma_pow2_pos((bps - 1) as nat);
    let size = rounded(significand(u), p) as int;
    let n = 2 * sig + unit;
    vstd::arithmetic::div_mod::lemma_fundamental_div_mod(n, 2 * unit);
    assert(size == n / (2 * unit));
    assert(2 * (size * unit) <= n < 2 * (size * unit) + 2 * unit && size >= 0) by (nonlinear_arith)
        requires
            n == (2 * unit) * size + n % (2 * unit),
            0 <= n % (2 * unit) < 2 * unit,
            n >= 0,
            unit >= 1,
    ;
    let q = quantized(u, bps);
    let v = (u + 0x8000_0000) as u32;
    assert(v == u + 0x8000_0000);
    assert(fraction(v) == fraction(u)) by {
        assert(v as nat % 0x80_0000 == u as nat % 0x80_0000);
    }
    assert(exponent(v) == exponent(u)) by {
        assert(v as nat / 0x80_0000 == u as nat / 0x80_0000 + 256);
    }
    if size > top - 1 {
        assert(q == top - 1);
        assert(q * unit <= size * unit) by (nonlinear_arith)
            requires
                q <= size,
                unit >= 1,
        ;
    }
}

/// Quantization at the edges: numbers of 1 and more are the highest sample,
/// numbers of -1 and less the lowest, infinities among them; what is not a
/// number is 0, and so are the zeros and what is too small to have a leading
/// one.
pub proof fn lemma_quantized_edges(u: u32, bps: nat)
    requires
        bps == 8 || bps == 16 || bps == 24,
    ensures
        ({
            let top = pow2((bps - 1) as nat) as int;
            &&& 0x3F80_0000 <= u <= 0x7F80_0000 ==> quantized(u, bps) == top - 1
            &&& 0xBF80_0000 <= u <= 0xFF80_0000 ==> quantized(u, bps) == -top
            &&& 0x7F80_0000 < u < 0x8000_0000 ==> quantized(u, bps) == 0
            &&& 0xFF80_0000 < u ==> quantized(u, bps) == 0
            &&& u < 0x80_0000 ==> quantized(u, bps) == 0
            &&& 0x8000_0000 <= u < 0x8080_0000 ==> quantized(u, bps) == 0
        }),
{
    lemma2_to64();
    let top = pow2((bps - 1) as nat) as int;
    let p = power_of(u) + bps - 1;
    if exponent(u) == 0 {
        arith::lemma_pow2_monotone(32, (-p) as nat);
        let m = pow2((-p) as nat) as int;
        let sig = significand(u) as int;
        assert((2 * sig + m) / (2 * m) == 0) by (nonlinear_arith)
            requires
                0 <= sig < 0x80_0000,
                m >= 0x1_0000_0000,
        ;
    } else if 127 <= exponent(u) < 255 {
        lemma_rounded_reaches(significand(u), p, bps);
    }
}

/// A significand with its leading one, scaled from 1 on, reaches the range.
proof fn lemma_rounded_reaches(sig: nat, p: int, bps: nat)
    requires
        sig >= 0x80_0000,
        1 <= bps <= 24,
        p >= bps - 24,
    ensures
        rounded(sig, p) >= pow2((bps - 1) as nat),
{
    lemma2_to64();
    let top = pow2((bps - 1) as nat) as int;
    if p >= 0 {
        lemma_pow2_pos(p as nat);
        arith::lemma_pow2_monotone((bps - 1) as nat, 23);
        let m = pow2(p as nat) as int;
        assert(sig * m >= sig) by (nonlinear_arith)
            requires
                m >= 1,
                sig >= 0,
        ;
    } else {
        let k = (-p) as nat;
        lemma_pow2_adds((bps - 1) as nat, k);
        arith::lemma_pow2_monotone((bps - 1 + k) as nat, 23);
        lemma_pow2_pos(k);
        let m = pow2(k) as int;
        assert((2 * sig + m) / (2 * m) >= top) by (nonlinear_arith)
            requires
                sig >= top * m,
                m >= 1,
                top >= 0,
        ;
    }
}

/// A single precision sample is four bytes, the low one first.
pub proof fn lemma_f32_at(bytes: Seq<u8>, bps: nat, i: int, u: u32)
    requires
        0 <= 4 * i,
        4 * i + 3 < bytes.len(),
        1 <= bps <= 24,
        u == bytes[4 * i] + 0x100 * bytes[4 * i + 1] + 0x1_0000 * bytes[4 * i + 2] + 0x100_0000
            * bytes[4 * i + 3],
    ensures
        f32_samples(bytes, bps).len() == bytes.len() / 4,
        f32_samples(bytes, bps)[i] == quantized(u, bps),
{
    lemma_quantized_bound(u, bps);
}

/// The range of a sample.
proof fn lemma_quantized_bound(u: u32, bps: nat)
    requires
        1 <= bps <= 24,
    ensures
        i32::MIN <= quantized(u, bps) <= i32::MAX,
{
    lemma2_to64();
    arith::lemma_pow2_monotone((bps - 1) as nat, 23);
    lemma_pow2_pos((bps - 1) as nat);
}

/// Negative numbers above -1 are quantized to the nearest step too, halves away
/// from zero, down to the lowest sample.
pub proof fn lemma_quantized_negative(u: u32, bps: nat)
    requires
        0x8080_0000 <= u < 0xBF80_0000,
        1 <= bps <= 24,
    ensures
        ({
            let f = u as int / 0x80_0000 - 256;
            let sig = 0x80_0000 + u as int % 0x80_0000;
            let unit = pow2((151 - bps - f) as nat) as int;
            let q = quantized(u, bps);
            &&& -pow2((bps - 1) as nat) <= q <= 0
            &&& -unit < 2 * (-q * unit) - 2 * sig <= unit
        }),
{
    let f = (u as int / 0x80_0000 - 256) as nat;
    assert(exponent(u) == f);
    let sig = significand(u) as int;
    let p = power_of(u) + bps - 1;
    let k = (-p) as nat;
    let unit = pow2(k) as int;
    let top = pow2((bps - 1) as nat) as int;
    lemma2_to64();
    lemma_pow2_pos(k);
    lemma_pow2_pos((bps - 1) as nat);
    let size = rounded(significand(u), p) as int;
    let n = 2 * sig + unit;
    vstd::arithmetic::div_mod::lemma_fundamental_div_mod(n, 2 * unit);
    assert(size == n / (2 * unit));
    assert(2 * (size * unit) <= n < 2 * (size * unit) + 2 * unit && size >= 0) by (nonlinear_arith)
        requires
            n == (2 * unit) * size + n % (2 * unit),
            0 <= n % (2 * unit) < 2 * unit,
            n >= 0,
            unit >= 1,
    ;
    lemma_pow2_adds((bps - 1) as nat, k);
    arith::lemma_pow2_monotone(24, (bps - 1 + k) as nat);
    assert(size <= top) by (nonlinear_arith)
        requires
            2 * (size * unit) <= 2 * sig + unit,
            sig < 0x100_0000,
            top * unit >= 0x100_0000,
            unit >= 1,
    ;
    assert(quantized(u, bps) == -size);
}

} // verus!
