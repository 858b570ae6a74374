//! MD5, for the STREAMINFO audio signature.
use vstd::arithmetic::power2::*;
use vstd::prelude::*;

verus! {

/// The additive constants, one per step.
pub const SINES: [u32; 64] = [
    0xd76a_a478, 0xe8c7_b756, 0x2420_70db, 0xc1bd_ceee, 0xf57c_0faf, 0x4787_c62a,
    0xa830_4613, 0xfd46_9501, 0x6980_98d8, 0x8b44_f7af, 0xffff_5bb1, 0x895c_d7be,
    0x6b90_1122, 0xfd98_7193, 0xa679_438e, 0x49b4_0821, 0xf61e_2562, 0xc040_b340,
    0x265e_5a51, 0xe9b6_c7aa, 0xd62f_105d, 0x0244_1453, 0xd8a1_e681, 0xe7d3_fbc8,
    0x21e1_cde6, 0xc337_07d6, 0xf4d5_0d87, 0x455a_14ed, 0xa9e3_e905, 0xfcef_a3f8,
    0x676f_02d9, 0x8d2a_4c8a, 0xfffa_3942, 0x8771_f681, 0x6d9d_6122, 0xfde5_380c,
    0xa4be_ea44, 0x4bde_cfa9, 0xf6bb_4b60, 0xbebf_bc70, 0x289b_7ec6, 0xeaa1_27fa,
    0xd4ef_3085, 0x0488_1d05, 0xd9d4_d039, 0xe6db_99e5, 0x1fa2_7cf8, 0xc4ac_5665,
    0xf429_2244, 0x432a_ff97, 0xab94_23a7, 0xfc93_a039, 0x655b_59c3, 0x8f0c_cc92,
    0xffef_f47d, 0x8584_5dd1, 0x6fa8_7e4f, 0xfe2c_e6e0, 0xa301_4314, 0x4e08_11a1,
    0xf753_7e82, 0xbd3a_f235, 0x2ad7_d2bb, 0xeb86_d391,
];

/// The rotation amounts, one per step.
pub const TURNS: [u32; 64] = [
    7, 12, 17, 22, 7, 12, 17, 22, 7, 12, 17, 22, 7, 12, 17, 22,
    5, 9, 14, 20, 5, 9, 14, 20, 5, 9, 14, 20, 5, 9, 14, 20,
    4, 11, 16, 23, 4, 11, 16, 23, 4, 11, 16, 23, 4, 11, 16, 23,
    6, 10, 15, 21, 6, 10, 15, 21, 6, 10, 15, 21, 6, 10, 15, 21,
];

/// The four chaining words.
pub struct Words {
    pub a: u32,
    pub b: u32,
    pub c: u32,
    pub d: u32,
}

/// The chaining words that hashing starts from.
pub open spec fn initial() -> Words {
    Words { a: 0x6745_2301, b: 0xefcd_ab89, c: 0x98ba_dcfe, d: 0x1032_5476 }
}

/// Addition modulo 2^32.
#[verifier::opaque]
pub open spec fn plus(x: u32, y: u32) -> u32 {
    ((x + y) % 0x1_0000_0000) as u32
}

/// Rotation to the left.
#[verifier::opaque]
pub open spec fn turn(x: u32, s: u32) -> u32 {
    (x << s) | (x >> ((32 - s) as u32))
}

/// The auxiliary function of step `i`.
#[verifier::opaque]
pub open spec fn mix(i: int, b: u32, c: u32, d: u32) -> u32 {
    if i < 16 {
        (b & c) | (!b & d)
    } else if i < 32 {
        (d & b) | (!d & c)
    } else if i < 48 {
        b ^ c ^ d
    } else {
        c ^ (b | !d)
    }
}

/// The message word that step `i` takes.
pub open spec fn pick(i: int) -> int {
    if i < 16 {
        i
    } else if i < 32 {
        (5 * i + 1) % 16
    } else if i < 48 {
        (3 * i + 5) % 16
    } else {
        (7 * i) % 16
    }
}

/// Word `j` of a block, little-endian.
#[verifier::opaque]
pub open spec fn word(block: Seq<u8>, j: int) -> u32 {
    (block[4 * j] + 0x100 * block[4 * j + 1] + 0x1_0000 * block[4 * j + 2] + 0x100_0000 * block[4
        * j + 3]) as u32
}

/// The additive constant of step `i`.
#[verifier::opaque]
pub open spec fn sine(i: int) -> u32 {
    SINES[i]
}

/// The rotation of step `i`.
#[verifier::opaque]
pub open spec fn amount(i: int) -> u32 {
    TURNS[i]
}

/// One step.
#[verifier::opaque]
pub open spec fn step(w: Words, block: Seq<u8>, i: int) -> Words {
    let sum = plus(plus(plus(mix(i, w.b, w.c, w.d), w.a), sine(i)), word(block, pick(i)));
    Words { a: w.d, b: plus(w.b, turn(sum, amount(i))), c: w.b, d: w.c }
}

/// The first `n` steps.
pub open spec fn steps(w: Words, block: Seq<u8>, n: nat) -> Words
    decreases n,
{
    if n == 0 {
        w
    } else {
        step(steps(w, block, (n - 1) as nat), block, n - 1)
    }
}

/// A whole block folded into the chaining words.
#[verifier::opaque]
pub open spec fn compress(w: Words, block: Seq<u8>) -> Words {
    let t = steps(w, block, 64);
    Words { a: plus(w.a, t.a), b: plus(w.b, t.b), c: plus(w.c, t.c), d: plus(w.d, t.d) }
}

/// The chaining words after the first `n` blocks of `data`.
pub open spec fn absorb(data: Seq<u8>, n: nat) -> Words
    decreases n,
{
    if n == 0 {
        initial()
    } else {
        compress(absorb(data, (n - 1) as nat), data.subrange(64 * (n - 1), 64 * n as int))
    }
}

/// The `n` low bytes of `v`, least significant first.
pub open spec fn le_bytes(v: int, n: nat) -> Seq<u8>
    decreases n,
{
    if n == 0 {
        Seq::empty()
    } else {
        seq![(v % 256) as u8] + le_bytes(v / 256, (n - 1) as nat)
    }
}

/// The zero bytes between the end marker of a message of `n` bytes and its
/// length.
pub open spec fn filler(n: nat) -> Seq<u8> {
    Seq::new(((55 - n) % 64) as nat, |i: int| 0u8)
}

/// Eight bytes of a block are left exactly when all zeros are there.
proof fn lemma_filled(n: nat, j: nat)
    requires
        j <= filler(n).len(),
    ensures
        (n + 1 + j) % 64 == 56 <==> j == filler(n).len(),
{
}

/// A message with its padding and its length in bits, a multiple of 64 bytes.
pub open spec fn padded(msg: Seq<u8>) -> Seq<u8> {
    msg.push(0x80) + filler(msg.len()) + le_bytes(
        ((8 * msg.len()) % 0x1_0000_0000_0000_0000) as int,
        8,
    )
}

/// The MD5 digest of a message.
pub open spec fn md5_of(msg: Seq<u8>) -> Seq<u8> {
    let p = padded(msg);
    let w = absorb(p, p.len() / 64);
    le_bytes(w.a as int, 4) + le_bytes(w.b as int, 4) + le_bytes(w.c as int, 4) + le_bytes(
        w.d as int,
        4,
    )
}

pub broadcast proof fn lemma_le_bytes_len(v: int, n: nat)
    ensures
        #[trigger] le_bytes(v, n).len() == n,
    decreases n,
{
    if n > 0 {
        lemma_le_bytes_len(v / 256, (n - 1) as nat);
    }
}

/// The chaining words depend on the bytes absorbed alone.
proof fn lemma_absorb_prefix(a: Seq<u8>, b: Seq<u8>, n: nat)
    requires
        64 * n <= a.len(),
        64 * n <= b.len(),
        forall|i: int| 0 <= i < 64 * n ==> a[i] == b[i],
    ensures
        absorb(a, n) == absorb(b, n),
    decreases n,
{
    if n > 0 {
        lemma_absorb_prefix(a, b, (n - 1) as nat);
        assert(a.subrange(64 * (n - 1), 64 * n as int) =~= b.subrange(64 * (n - 1), 64 * n as int));
    }
}

/// A running hash. Its view is the message hashed so far.
pub struct Md5 {
    words: Words,
    /// The bytes that do not fill a block yet.
    pending: Vec<u8>,
    /// The length of the message modulo 2^64.
    len: u64,
    msg: Ghost<Seq<u8>>,
}

impl View for Md5 {
    type V = Seq<u8>;

    closed spec fn view(&self) -> Seq<u8> {
        self.msg@
    }
}

impl Md5 {
    /// The chaining words hold the whole blocks, `pending` the rest.
    pub closed spec fn wf(&self) -> bool {
        let m = self.msg@;
        let k = m.len() / 64;
        &&& self.words == absorb(m, k)
        &&& self.pending@ == m.subrange(64 * k as int, m.len() as int)
        &&& self.len == m.len() % 0x1_0000_0000_0000_0000
    }

    /// The hash of nothing so far.
    pub fn new() -> (r: Self)
        ensures
            r.wf(),
            r@ == Seq::<u8>::empty(),
    {
        let r = Md5 {
            words: Words { a: 0x6745_2301, b: 0xefcd_ab89, c: 0x98ba_dcfe, d: 0x1032_5476 },
            pending: Vec::with_capacity(64),
            len: 0,
            msg: Ghost(Seq::empty()),
        };
        assert(r.pending@ =~= r.msg@.subrange(0, 0));
        r
    }

    /// Hash one more byte.
    fn push(&mut self, byte: u8)
        requires
            old(self).wf(),
        ensures
            final(self).wf(),
            final(self)@ == old(self)@.push(byte),
    {
        let ghost before = self.msg@;
        let ghost after = before.push(byte);
        let ghost k = before.len() / 64;
        self.pending.push(byte);
        self.len = self.len.wrapping_add(1);
        self.msg = Ghost(after);
        proof {
            lemma_absorb_prefix(before, after, k);
        }
        if self.pending.len() == 64 {
            proof {
                assert(self.pending@ =~= after.subrange(64 * k as int, 64 * (k + 1) as int));
                assert(after.len() / 64 == k + 1);
            }
            self.words = compress_block(&self.words, &self.pending);
            self.pending.clear();
            assert(self.pending@ =~= after.subrange(64 * (k + 1) as int, after.len() as int));
        } else {
            assert(after.len() / 64 == k);
            assert(self.pending@ =~= after.subrange(64 * k as int, after.len() as int));
        }
    }

    /// Hash more bytes.
    pub fn update(&mut self, data: &[u8])
        requires
            old(self).wf(),
        ensures
            final(self).wf(),
            final(self)@ == old(self)@ + data@,
    {
        let ghost before = self@;
        let mut i: usize = 0;
        assert(self@ =~= before + data@.take(0));
        while i < data.len()
            invariant
                i <= data@.len(),
                self.wf(),
                self@ == before + data@.take(i as int),
            decreases data@.len() - i,
        {
            self.push(data[i]);
            i = i + 1;
            assert(self@ =~= before + data@.take(i as int));
        }
        assert(data@.take(i as int) =~= data@);
    }

    /// Hash the byte that ends a message and the zeros that follow it.
    fn push_marker(&mut self)
        requires
            old(self).wf(),
        ensures
            final(self).wf(),
            final(self)@ == old(self)@.push(0x80) + filler(old(self)@.len()),
    {
        let ghost head = self@.push(0x80);
        let ghost zeros = filler(self@.len());
        self.push(0x80);
        let ghost mut j: nat = 0;
        assert(self@ =~= head + zeros.take(0));
        while self.pending.len() != 56
            invariant
                self.wf(),
                head.len() >= 1,
                zeros == filler((head.len() - 1) as nat),
                j <= zeros.len(),
                self@ == head + zeros.take(j as int),
            decreases zeros.len() - j,
        {
            proof {
                lemma_filled((head.len() - 1) as nat, j);
                assert(self.pending@.len() == (head.len() + j) % 64);
            }
            self.push(0);
            assert(self@ =~= head + zeros.take((j + 1) as int));
            proof {
                j = j + 1;
            }
        }
        proof {
            lemma_filled((head.len() - 1) as nat, j);
            assert(self.pending@.len() == (head.len() + j) % 64);
            assert(zeros.take(j as int) =~= zeros);
        }
    }

    /// Hash a number as eight bytes, least significant first.
    fn push_le(&mut self, v: u64)
        requires
            old(self).wf(),
        ensures
            final(self).wf(),
            final(self)@ == old(self)@ + le_bytes(v as int, 8),
    {
        broadcast use lemma_le_bytes_len;

        let ghost goal = self@ + le_bytes(v as int, 8);
        let mut rest: u64 = v;
        let mut i: u32 = 0;
        while i < 8
            invariant
                i <= 8,
                self.wf(),
                self@ + le_bytes(rest as int, (8 - i) as nat) == goal,
            decreases 8 - i,
        {
            let ghost now = self@;
            let ghost tail = le_bytes(rest as int, (8 - i) as nat);
            self.push((rest % 256) as u8);
            assert(tail =~= seq![(rest % 256) as u8] + le_bytes(
                (rest / 256) as int,
                (8 - i - 1) as nat,
            ));
            assert(self@ + le_bytes((rest / 256) as int, (8 - i - 1) as nat) =~= now + tail);
            rest = rest / 256;
            i = i + 1;
        }
        assert(self@ =~= goal);
    }

    /// The digest of the whole message.
    pub fn finalize(self) -> (r: [u8; 16])
        requires
            self.wf(),
        ensures
            r@ == md5_of(self@),
    {
        broadcast use lemma_le_bytes_len;

        let ghost msg = self@;
        let mut h = self;
        let bit_len: u64 = h.len.wrapping_mul(8);
        assert(bit_len == (8 * msg.len()) % 0x1_0000_0000_0000_0000) by {
            vstd::arithmetic::div_mod::lemma_mul_mod_noop_left(
                msg.len() as int,
                8,
                0x1_0000_0000_0000_0000,
            );
        }
        h.push_marker();
        h.push_le(bit_len);
        assert(h@ == padded(msg));
        digest_bytes(&h.words)
    }
}

/// The chaining words, each least significant byte first.
fn digest_bytes(w: &Words) -> (out: [u8; 16])
    ensures
        out@ == le_bytes(w.a as int, 4) + le_bytes(w.b as int, 4) + le_bytes(w.c as int, 4)
            + le_bytes(w.d as int, 4),
{
    broadcast use lemma_le_bytes_len;

    let mut out = [0u8; 16];
    put_le(&mut out, 0, w.a);
    put_le(&mut out, 4, w.b);
    put_le(&mut out, 8, w.c);
    put_le(&mut out, 12, w.d);
    assert(out@ =~= le_bytes(w.a as int, 4) + le_bytes(w.b as int, 4) + le_bytes(w.c as int, 4)
        + le_bytes(w.d as int, 4));
    out
}

/// Write a word at `at`, least significant byte first.
fn put_le(out: &mut [u8; 16], at: usize, w: u32)
    requires
        at + 4 <= 16,
    ensures
        forall|i: int| 0 <= i < at || at + 4 <= i < 16 ==> #[trigger] final(out)[i] == old(out)[i],
        forall|i: int|
            at <= i < at + 4 ==> #[trigger] final(out)[i] == le_bytes(w as int, 4)[i - at],
{
    proof {
        reveal_with_fuel(le_bytes, 5);
    }
    out[at] = (w % 256) as u8;
    out[at + 1] = (w / 256 % 256) as u8;
    out[at + 2] = (w / 256 / 256 % 256) as u8;
    out[at + 3] = (w / 256 / 256 / 256 % 256) as u8;
}

/// Fold one block into the chaining words.
fn compress_block(w: &Words, block: &Vec<u8>) -> (r: Words)
    requires
        block@.len() == 64,
    ensures
        r == compress(*w, block@),
{
    let mut m = [0u32; 16];
    let mut j: usize = 0;
    while j < 16
        invariant
            j <= 16,
            block@.len() == 64,
            forall|i: int| 0 <= i < j ==> #[trigger] m[i] == word(block@, i),
        decreases 16 - j,
    {
        proof {
            reveal(word);
        }
        m[j] = block[4 * j] as u32 + 0x100 * (block[4 * j + 1] as u32) + 0x1_0000 * (block[4 * j
            + 2] as u32) + 0x100_0000 * (block[4 * j + 3] as u32);
        j = j + 1;
    }
    let mut t = Words { a: w.a, b: w.b, c: w.c, d: w.d };
    let mut i: usize = 0;
    while i < 64
        invariant
            i <= 64,
            forall|i: int| 0 <= i < 16 ==> #[trigger] m[i] == word(block@, i),
            t == steps(*w, block@, i as nat),
        decreases 64 - i,
    {
        t = run_step(&t, &m, i, Ghost(block@));
        i = i + 1;
    }
    proof {
        reveal(compress);
    }
    Words {
        a: add32(w.a, t.a),
        b: add32(w.b, t.b),
        c: add32(w.c, t.c),
        d: add32(w.d, t.d),
    }
}

/// Step `i` over the message words `m` of a block.
fn run_step(w: &Words, m: &[u32; 16], i: usize, block: Ghost<Seq<u8>>) -> (r: Words)
    requires
        i < 64,
        forall|j: int| 0 <= j < 16 ==> #[trigger] m[j] == word(block@, j),
    ensures
        r == step(*w, block@, i as int),
{
    let (f, g): (u32, usize) = if i < 16 {
        ((w.b & w.c) | (!w.b & w.d), i)
    } else if i < 32 {
        ((w.d & w.b) | (!w.d & w.c), (5 * i + 1) % 16)
    } else if i < 48 {
        (w.b ^ w.c ^ w.d, (3 * i + 5) % 16)
    } else {
        (w.c ^ (w.b | !w.d), (7 * i) % 16)
    };
    assert(f == mix(i as int, w.b, w.c, w.d)) by {
        reveal(mix);
    }
    assert(g == pick(i as int));
    proof {
        reveal(step);
    }
    let (k, s): (u32, u32) = constants(i);
    let sum: u32 = add32(add32(add32(f, w.a), k), m[g]);
    let turned: u32 = turn_left(sum, s);
    Words { a: w.d, b: add32(w.b, turned), c: w.b, d: w.c }
}

/// Addition modulo 2^32.
fn add32(x: u32, y: u32) -> (r: u32)
    ensures
        r == plus(x, y),
{
    proof {
        reveal(plus);
    }
    x.wrapping_add(y)
}

/// Rotation to the left.
fn turn_left(x: u32, s: u32) -> (r: u32)
    requires
        0 < s < 32,
    ensures
        r == turn(x, s),
{
    proof {
        reveal(turn);
    }
    (x << s) | (x >> (32 - s))
}

/// The constants of step `i`.
fn constants(i: usize) -> (r: (u32, u32))
    requires
        i < 64,
    ensures
        r.0 == sine(i as int),
        r.1 == amount(i as int),
        0 < r.1 < 32,
{
    proof {
        reveal(sine);
        reveal(amount);
    }
    (SINES[i], TURNS[i])
}

// ---------------------------------------------------------------------------
// What the digest covers
// ---------------------------------------------------------------------------
/// The number that bytes spell, least significant byte first.
pub open spec fn le_number(s: Seq<u8>) -> nat
    decreases s.len(),
{
    if s.len() == 0 {
        0
    } else {
        s[0] as nat + 256 * le_number(s.drop_first())
    }
}

/// A number of `n` bytes is spelled by its little-endian bytes.
pub proof fn lemma_le_number(v: int, n: nat)
    requires
        0 <= v < pow2(8 * n),
    ensures
        le_number(le_bytes(v, n)) == v,
    decreases n,
{
    lemma2_to64();
    if n > 0 {
        let rest = le_bytes(v / 256, (n - 1) as nat);
        lemma_pow2_adds(8, (8 * (n - 1)) as nat);
        let p = pow2((8 * (n - 1)) as nat) as int;
        assert(v / 256 < p) by (nonlinear_arith)
            requires
                0 <= v < 256 * p,
        ;
        lemma_le_number(v / 256, (n - 1) as nat);
        assert((seq![(v % 256) as u8] + rest).drop_first() =~= rest);
    }
}

/// Byte `j` of a number's little-endian bytes.
pub proof fn lemma_le_byte(v: int, n: nat, j: nat)
    requires
        j < n,
    ensures
        le_bytes(v, n)[j as int] == (v / (pow2(8 * j) as int)) % 256,
    decreases j,
{
    lemma2_to64();
    lemma_le_bytes_len(v / 256, (n - 1) as nat);
    if j == 0 {
        assert(v / 1 == v);
    } else {
        let i = (j - 1) as nat;
        lemma_le_byte(v / 256, (n - 1) as nat, i);
        lemma_pow2_adds(8, 8 * i);
        lemma_pow2_pos(8 * i);
        crate::arith::lemma_div_div(v, 256, pow2(8 * i) as int);
    }
}

/// A message is padded in three parts: the message itself, a byte of one
/// bit, as few zeros as make whole blocks, and in the last eight bytes the
/// message's length in bits.
pub proof fn lemma_padding(msg: Seq<u8>)
    requires
        msg.len() < 0x2000_0000_0000_0000,
    ensures
        ({
            let p = padded(msg);
            let n = p.len();
            &&& n % 64 == 0
            &&& msg.len() + 9 <= n < msg.len() + 73
            &&& p.take(msg.len() as int) == msg
            &&& p[msg.len() as int] == 0x80
            &&& forall|i: int| msg.len() < i < n - 8 ==> #[trigger] p[i] == 0
            &&& le_number(p.skip(n - 8)) == 8 * msg.len()
        }),
{
    broadcast use lemma_le_bytes_len;

    lemma2_to64();
    lemma2_to64_rest();
    let p = padded(msg);
    let tail = le_bytes(8 * msg.len() as int, 8);
    lemma_le_number(8 * msg.len() as int, 8);
    assert(p.take(msg.len() as int) =~= msg);
    assert(p.skip(p.len() - 8) =~= tail);
}

/// Messages of different lengths never share the last eight bytes of their
/// padding, and no two messages are padded alike.
pub proof fn lemma_padding_injective(a: Seq<u8>, b: Seq<u8>)
    requires
        a.len() < 0x2000_0000_0000_0000,
        b.len() < 0x2000_0000_0000_0000,
        a != b,
    ensures
        padded(a) != padded(b),
        a.len() != b.len() ==> padded(a).skip(padded(a).len() - 8) != padded(b).skip(
            padded(b).len() - 8,
        ),
{
    lemma_padding(a);
    lemma_padding(b);
}

/// Blocks are folded in one by one, each one whole, from the four first
/// words on.
pub proof fn lemma_chain(data: Seq<u8>, n: nat)
    requires
        64 * (n + 1) <= data.len(),
    ensures
        absorb(data, 0).a == 0x6745_2301,
        absorb(data, 0).b == 0xefcd_ab89,
        absorb(data, 0).c == 0x98ba_dcfe,
        absorb(data, 0).d == 0x1032_5476,
        absorb(data, n + 1) == compress(
            absorb(data, n),
            data.subrange(64 * n as int, 64 * (n + 1) as int),
        ),
{
}

/// The digest is the four words behind every block of the padded message, each
/// least significant byte first.
pub proof fn lemma_digest(msg: Seq<u8>)
    ensures
        ({
            let r = md5_of(msg);
            let w = absorb(padded(msg), padded(msg).len() / 64);
            &&& r.len() == 16
            &&& le_number(r.subrange(0, 4)) == w.a
            &&& le_number(r.subrange(4, 8)) == w.b
            &&& le_number(r.subrange(8, 12)) == w.c
            &&& le_number(r.subrange(12, 16)) == w.d
        }),
{
    broadcast use lemma_le_bytes_len;

    lemma2_to64();
    let r = md5_of(msg);
    let w = absorb(padded(msg), padded(msg).len() / 64);
    lemma_le_number(w.a as int, 4);
    lemma_le_number(w.b as int, 4);
    lemma_le_number(w.c as int, 4);
    lemma_le_number(w.d as int, 4);
    assert(r.subrange(0, 4) =~= le_bytes(w.a as int, 4));
    assert(r.subrange(4, 8) =~= le_bytes(w.b as int, 4));
    assert(r.subrange(8, 12) =~= le_bytes(w.c as int, 4));
    assert(r.subrange(12, 16) =~= le_bytes(w.d as int, 4));
}

} // verus!
