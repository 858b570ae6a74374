//! MSB-first bit I/O — the order FLAC packs bits.
//!
//! The writer drains whole bytes out of a 64-bit accumulator, so that
//! `write_bits(v, n)` costs O(bytes emitted) and not O(n) single-bit steps.
//! The reader mirrors it with a left-aligned 64-bit window.
use crate::arith;
use crate::bits;
use vstd::arithmetic::div_mod::*;
use vstd::arithmetic::mul::*;
use vstd::arithmetic::power2::*;
use vstd::bits::*;
use vstd::prelude::*;
use vstd::std_specs::bits::*;

verus! {

// ---------------------------------------------------------------------------
// Writer
// ---------------------------------------------------------------------------
/// An MSB-first bit writer. Its view is the sequence of the bits written.
pub struct BitWriter {
    buf: Vec<u8>,
    /// The bits of the unfinished byte.
    acc: u64,
    /// How many bits `acc` holds (kept < 8 between calls).
    nbits: u32,
}

impl View for BitWriter {
    type V = Seq<bool>;

    closed spec fn view(&self) -> Seq<bool> {
        bits::byte_bits(self.buf@) + bits::field(self.acc as int, self.nbits as nat)
    }
}

impl BitWriter {
    /// The accumulator holds less than a byte, and nothing above its bits.
    pub closed spec fn wf(&self) -> bool {
        self.nbits < 8 && self.acc < pow2(self.nbits as nat)
    }

    /// An empty writer.
    pub fn new() -> (w: Self)
        ensures
            w.wf(),
            w@ == Seq::<bool>::empty(),
    {
        Self::with_capacity(0)
    }

    /// An empty writer with room for `bytes` bytes.
    pub fn with_capacity(bytes: usize) -> (w: Self)
        ensures
            w.wf(),
            w@ == Seq::<bool>::empty(),
    {
        proof {
            lemma2_to64();
        }
        let w = BitWriter { buf: Vec::with_capacity(bytes), acc: 0, nbits: 0 };
        assert(w@ =~= Seq::<bool>::empty());
        w
    }

    /// Write the low `n` bits of `val`, most significant bit first. `n <= 56`.
    pub fn write_bits(&mut self, val: u64, n: u32)
        requires
            old(self).wf(),
            n <= 56,
        ensures
            final(self).wf(),
            final(self)@ == old(self)@ + bits::field(val as int, n as nat),
    {
        broadcast use bits::group_bits_len;

        let ghost before = self@;
        proof {
            lemma2_to64();
            arith::lemma_u64_mask(val, n as u64);
            lemma_pow2_pos(n as nat);
            lemma_mod_bound(val as int, pow2(n as nat) as int);
            lemma_append(self.buf@, self.acc as nat, self.nbits as nat, val as nat, n as nat);
            lemma_u64_pow2_no_overflow((self.nbits + n) as nat);
            lemma_u64_shl_is_mul(self.acc, n as u64);
        }
        let masked: u64 = val & ((1u64 << n) - 1);
        let mut acc: u64 = (self.acc << n) + masked;
        let mut left: u32 = self.nbits + n;
        while left >= 8
            invariant
                left <= 63,
                acc < pow2(left as nat),
                bits::byte_bits(self.buf@) + bits::field(acc as int, left as nat) == before
                    + bits::field(val as int, n as nat),
            decreases left,
        {
            let ghost whole = acc;
            let ghost bytes = self.buf@;
            left -= 8;
            proof {
                lemma_u64_shr_is_div(acc, left as u64);
                arith::lemma_u64_mask(acc, left as u64);
                lemma_drain(bytes, acc as nat, left as nat);
            }
            let byte: u8 = (acc >> left) as u8;
            self.buf.push(byte);
            acc = acc & ((1u64 << left) - 1);
        }
        self.acc = acc;
        self.nbits = left;
    }

    /// Write `val` as an `n`-bit two's complement field. `n <= 56`.
    pub fn write_signed(&mut self, val: i64, n: u32)
        requires
            old(self).wf(),
            n <= 56,
        ensures
            final(self).wf(),
            final(self)@ == old(self)@ + bits::field(val as int, n as nat),
    {
        proof {
            let u = val as u64;
            assert(u == val || u == val + 0x1_0000_0000_0000_0000) by (bit_vector)
                requires
                    u == val as u64,
            ;
            lemma2_to64();
            lemma2_to64_rest();
            lemma_pow2_pos(n as nat);
            lemma_pow2_adds(n as nat, (64 - n) as nat);
            let p = pow2(n as nat) as int;
            let q = pow2((64 - n) as nat) as int;
            lemma_mul_is_commutative(p, q);
            lemma_mod_multiples_vanish(q, val as int, p);
            bits::lemma_field_congruent(u as int, val as int, n as nat);
        }
        self.write_bits(val as u64, n);
    }

    /// Write `q` zero bits — safe for large `q` (a unary Rice quotient).
    pub fn write_zeros(&mut self, q: u32)
        requires
            old(self).wf(),
        ensures
            final(self).wf(),
            final(self)@ == old(self)@ + bits::zeros(q as nat),
    {
        broadcast use bits::group_bits_len;

        let ghost before = self@;
        let mut rest: u32 = q;
        if self.nbits != 0 {
            let room: u32 = 8 - self.nbits;
            let take: u32 = if room < rest {
                room
            } else {
                rest
            };
            proof {
                bits::lemma_field_zero(take as nat);
            }
            self.write_bits(0, take);
            rest = rest - take;
            assert(self@ =~= before + bits::zeros((q - rest) as nat));
        }
        assert(self@ =~= before + bits::zeros((q - rest) as nat));
        // Whole zero bytes need no accumulator.
        if self.nbits == 0 {
            while rest >= 8
                invariant
                    rest <= q,
                    self.nbits == 0,
                    self.wf(),
                    self@ == before + bits::zeros((q - rest) as nat),
                decreases rest,
            {
                proof {
                    bits::lemma_field_zero(8);
                    bits::lemma_byte_bits_push(self.buf@, 0);
                }
                let ghost now = self@;
                self.buf.push(0);
                assert(self@ =~= now + bits::zeros(8));
                rest = rest - 8;
                assert(self@ =~= before + bits::zeros((q - rest) as nat));
            }
        }
        if rest > 0 {
            proof {
                bits::lemma_field_zero(rest as nat);
            }
            let ghost now = self@;
            self.write_bits(0, rest);
            assert(self@ =~= before + bits::zeros(q as nat));
        }
    }

    /// Pad the unfinished byte with zero bits so that the stream is byte-aligned.
    pub fn align_to_byte(&mut self)
        requires
            old(self).wf(),
        ensures
            final(self).wf(),
            final(self)@ == old(self)@ + bits::zeros(bits::padding(old(self)@.len())),
            final(self)@.len() % 8 == 0,
    {
        broadcast use bits::group_bits_len;

        let ghost before = self@;
        if self.nbits != 0 {
            let pad: u32 = 8 - self.nbits;
            proof {
                bits::lemma_field_zero(pad as nat);
            }
            self.write_bits(0, pad);
        }
        assert(self@ =~= before + bits::zeros(bits::padding(before.len())));
    }

    /// The bytes written so far. Only for a byte-aligned writer (it serves to
    /// checksum a header or frame that has just been aligned).
    pub fn bytes(&self) -> (r: &[u8])
        requires
            self.wf(),
            self@.len() % 8 == 0,
        ensures
            bits::byte_bits(r@) == self@,
    {
        broadcast use bits::group_bits_len;

        assert(self.nbits == 0);
        assert(bits::byte_bits(self.buf@) =~= self@);
        self.buf.as_slice()
    }

    /// The bytes written, the last one padded with zero bits.
    pub fn into_bytes(self) -> (r: Vec<u8>)
        requires
            self.wf(),
        ensures
            bits::byte_bits(r@) == self@ + bits::zeros(bits::padding(self@.len())),
    {
        broadcast use bits::group_bits_len;

        let mut w = self;
        w.align_to_byte();
        assert(w.nbits == 0);
        assert(bits::byte_bits(w.buf@) =~= w@);
        w.buf
    }
}

/// Appending a field to `nbits` held bits gives the two side by side.
proof fn lemma_append(bytes: Seq<u8>, acc: nat, nbits: nat, val: nat, n: nat)
    requires
        acc < pow2(nbits),
        nbits + n < 64,
    ensures
        acc * pow2(n) <= acc * pow2(n) + val % pow2(n) < pow2(nbits + n),
        bits::byte_bits(bytes) + bits::field((acc * pow2(n) + val % pow2(n)) as int, nbits + n) == (
        bits::byte_bits(bytes) + bits::field(acc as int, nbits)) + bits::field(val as int, n),
{
    let p = pow2(n) as int;
    lemma_pow2_pos(n);
    lemma_pow2_adds(nbits, n);
    let low = (val % pow2(n)) as int;
    lemma_mod_bound(val as int, p);
    assert(acc * p + low < pow2(nbits) * p) by (nonlinear_arith)
        requires
            acc + 1 <= pow2(nbits),
            low < p,
            p > 0,
    ;
    bits::lemma_field_join(acc as int, low, nbits, n);
    lemma_mod_twice(val as int, p);
    bits::lemma_field_congruent(val as int, low, n);
    assert(bits::byte_bits(bytes) + bits::field((acc * pow2(n) + val % pow2(n)) as int, nbits + n)
        =~= (bits::byte_bits(bytes) + bits::field(acc as int, nbits)) + bits::field(val as int, n));
}

/// Moving the topmost eight held bits out as a byte keeps the bit sequence.
proof fn lemma_drain(bytes: Seq<u8>, acc: nat, left: nat)
    requires
        acc < pow2(left + 8),
    ensures
        acc / pow2(left) < 256,
        acc % pow2(left) < pow2(left),
        bits::byte_bits(bytes.push((acc / pow2(left)) as u8)) + bits::field(
            (acc % pow2(left)) as int,
            left,
        ) == bits::byte_bits(bytes) + bits::field(acc as int, left + 8),
{
    lemma2_to64();
    lemma_pow2_pos(left);
    lemma_pow2_adds(left, 8);
    let p = pow2(left) as int;
    lemma_mod_bound(acc as int, p);
    lemma_multiply_divide_lt(acc as int, p, 256);
    let top = (acc / pow2(left)) as u8;
    bits::lemma_byte_bits_push(bytes, top);
    bits::lemma_field_split(acc as int, 8, left);
    lemma_mod_twice(acc as int, p);
    bits::lemma_field_congruent(acc as int, (acc % pow2(left)) as int, left);
    assert(8 + left == left + 8);
    assert(bits::byte_bits(bytes.push(top)) + bits::field((acc % pow2(left)) as int, left)
        =~= bits::byte_bits(bytes) + bits::field(acc as int, left + 8));
}

// ---------------------------------------------------------------------------
// Reader
// ---------------------------------------------------------------------------
/// MSB-first bit reader over a byte slice, with a left-aligned 64-bit window.
/// Reads past the end return `None`.
pub struct BitReader<'a> {
    data: &'a [u8],
    /// Next byte that is not in the window yet.
    pos: usize,
    /// The next unread bits, left-aligned (bit 63 is the next bit).
    bitbuf: u64,
    /// Valid bits in `bitbuf`.
    nbits: u32,
}

/// `x << n`, where a shift by the whole width leaves nothing.
fn shift_out(x: u64, n: u32) -> (r: u64)
    requires
        n <= 64,
    ensures
        r as int == (x * pow2(n as nat)) % (pow2(64) as int),
{
    proof {
        lemma2_to64();
        lemma2_to64_rest();
    }
    if n >= 64 {
        proof {
            lemma_mod_multiples_basic(x as int, pow2(64) as int);
        }
        0
    } else {
        proof {
            arith::lemma_u64_shl(x, n as u64);
        }
        x << n
    }
}

impl<'a> BitReader<'a> {
    /// All bits of the data, those already read included.
    pub closed spec fn bits(&self) -> Seq<bool> {
        bits::byte_bits(self.data@)
    }

    /// The position of the next unread bit.
    pub closed spec fn bit_pos(&self) -> int {
        8 * self.pos - self.nbits
    }

    /// The unread bits that the window holds.
    closed spec fn window(&self) -> Seq<bool> {
        self.bits().subrange(8 * self.pos - self.nbits, 8 * self.pos)
    }

    /// The window holds the `nbits` bits before byte `pos`, and zeros below.
    pub closed spec fn wf(&self) -> bool {
        &&& self.pos <= self.data@.len()
        &&& self.nbits <= 64
        &&& self.nbits <= 8 * self.pos
        &&& self.bitbuf == bits::value(self.window()) * pow2((64 - self.nbits) as nat)
    }

    /// The next unread bit lies within the data.
    pub proof fn lemma_pos_bound(&self)
        requires
            self.wf(),
        ensures
            0 <= self.bit_pos() <= self.bits().len(),
            self.bits().len() % 8 == 0,
    {
        broadcast use bits::group_bits_len;

    }

    /// A reader at the first bit of `data`.
    pub fn new(data: &'a [u8]) -> (r: Self)
        ensures
            r.wf(),
            r.bits() == bits::byte_bits(data@),
            r.bit_pos() == 0,
    {
        let r = BitReader { data, pos: 0, bitbuf: 0, nbits: 0 };
        proof {
            assert(r.window() =~= Seq::<bool>::empty());
            assert(0 * pow2(64) == 0);
        }
        r
    }

    /// Byte offset of the first byte of which no bit is consumed.
    pub fn byte_pos(&self) -> (r: usize)
        requires
            self.wf(),
        ensures
            r as int == (self.bit_pos() + 7) / 8,
            8 * r <= self.bits().len(),
    {
        broadcast use bits::group_bits_len;

        self.pos - (self.nbits as usize) / 8
    }

    /// No byte is partly consumed.
    pub fn is_byte_aligned(&self) -> (r: bool)
        requires
            self.wf(),
        ensures
            r == (self.bit_pos() % 8 == 0),
    {
        self.nbits % 8 == 0
    }

    /// Top the window up with whole bytes.
    fn refill(&mut self)
        requires
            old(self).wf(),
        ensures
            final(self).wf(),
            final(self).data@ == old(self).data@,
            final(self).bit_pos() == old(self).bit_pos(),
            final(self).nbits >= old(self).nbits,
            final(self).nbits > 56 || final(self).pos == final(self).data@.len(),
    {
        broadcast use bits::group_bits_len;

        let ghost data = self.data@;
        let ghost at = self.bit_pos();
        while self.nbits <= 56 && self.pos < self.data.len()
            invariant
                self.wf(),
                self.data@ == data,
                self.bit_pos() == at,
                self.nbits >= old(self).nbits,
            decreases self.data@.len() - self.pos,
        {
            let byte: u8 = self.data[self.pos];
            let ghost w = self.window();
            proof {
                lemma_window_push(self.bits(), data, self.pos as int, self.nbits as nat, self.bitbuf);
                lemma_u64_shl_is_mul(byte as u64, (56 - self.nbits) as u64);
            }
            self.bitbuf = self.bitbuf + ((byte as u64) << (56 - self.nbits));
            self.pos = self.pos + 1;
            self.nbits = self.nbits + 8;
        }
    }

    /// Move `n` bits on, all of them in the window.
    fn skip(&mut self, n: u32)
        requires
            old(self).wf(),
            n <= old(self).nbits,
        ensures
            final(self).wf(),
            final(self).data@ == old(self).data@,
            final(self).pos == old(self).pos,
            final(self).nbits == old(self).nbits - n,
    {
        broadcast use bits::group_bits_len;

        proof {
            let w = self.window();
            bits::lemma_window_split(w, self.bitbuf as int, n as nat);
            assert(w.subrange(n as int, w.len() as int) =~= self.bits().subrange(
                8 * self.pos - (self.nbits - n),
                8 * self.pos as int,
            ));
        }
        self.bitbuf = shift_out(self.bitbuf, n);
        self.nbits = self.nbits - n;
    }

    /// Read `n` bits (`n <= 32`) MSB-first. `None` past the end of the stream.
    pub fn read_bits(&mut self, n: u32) -> (r: Option<u32>)
        requires
            old(self).wf(),
            n <= 32,
        ensures
            final(self).wf(),
            final(self).bits() == old(self).bits(),
            match r {
                Some(v) => bits::read_uint(old(self).bits(), old(self).bit_pos(), n as nat) == Some(
                    (v as nat, final(self).bit_pos()),
                ),
                None => bits::read_uint(old(self).bits(), old(self).bit_pos(), n as nat) is None
                    && final(self).bit_pos() == old(self).bit_pos(),
            },
    {
        broadcast use bits::group_bits_len;

        if self.nbits < n {
            self.refill();
            if self.nbits < n {
                return None;
            }
        }
        if n == 0 {
            assert(bits::value(self.bits().subrange(self.bit_pos(), self.bit_pos())) == 0);
            return Some(0);
        }
        proof {
            let w = self.window();
            bits::lemma_window_split(w, self.bitbuf as int, n as nat);
            assert(w.subrange(0, n as int) =~= self.bits().subrange(
                self.bit_pos(),
                self.bit_pos() + n,
            ));
            lemma_u64_shr_is_div(self.bitbuf, (64 - n) as u64);
            bits::lemma_value_bound(w.subrange(0, n as int));
            lemma2_to64();
            arith::lemma_pow2_monotone(n as nat, 32);
        }
        let v: u32 = (self.bitbuf >> (64 - n)) as u32;
        self.skip(n);
        Some(v)
    }

    /// Read an `n`-bit two's complement number (`1 <= n <= 32`).
    pub fn read_signed(&mut self, n: u32) -> (r: Option<i32>)
        requires
            old(self).wf(),
            1 <= n <= 32,
        ensures
            final(self).wf(),
            final(self).bits() == old(self).bits(),
            match r {
                Some(v) => bits::read_int(old(self).bits(), old(self).bit_pos(), n as nat) == Some(
                    (v as int, final(self).bit_pos()),
                ),
                None => bits::read_int(old(self).bits(), old(self).bit_pos(), n as nat) is None
                    && final(self).bit_pos() == old(self).bit_pos(),
            },
    {
        let ghost b = self.bits();
        let ghost p = self.bit_pos();
        match self.read_bits(n) {
            None => None,
            Some(v) => {
                // Sign-extend from bit n-1.
                let shift: u32 = 32 - n;
                proof {
                    lemma_sign_extend(b.subrange(p, p + n), v, n);
                }
                Some(((v << shift) as i32) >> shift)
            },
        }
    }

    /// Read a unary quantity: the count of 0 bits before the next 1, kept to
    /// 32 bits.
    pub fn read_unary(&mut self) -> (r: Option<u32>)
        requires
            old(self).wf(),
        ensures
            final(self).wf(),
            final(self).bits() == old(self).bits(),
            match r {
                Some(q) => bits::read_zeros(old(self).bits(), old(self).bit_pos()) matches Some(
                    (z, p),
                ) && q == arith::low32(z as int) && p == final(self).bit_pos(),
                None => {
                    &&& bits::read_zeros(old(self).bits(), old(self).bit_pos()) is None
                    &&& final(self).bit_pos() == old(self).bits().len()
                },
            },
    {
        broadcast use bits::group_bits_len;

        let ghost b = self.bits();
        let ghost start = self.bit_pos();
        let mut q: u32 = 0;
        loop
            invariant
                self.wf(),
                self.bits() == b,
                b == old(self).bits(),
                start == old(self).bit_pos(),
                0 <= start <= self.bit_pos(),
                bits::first_one(b, start) == bits::first_one(b, self.bit_pos()),
                q == arith::low32(self.bit_pos() - start),
            decreases b.len() - self.bit_pos(),
        {
            if self.nbits == 0 {
                self.refill();
                if self.nbits == 0 {
                    proof {
                        bits::lemma_byte_bits_len(self.data@);
                    }
                    return None;
                }
            }
            let ghost at = self.bit_pos();
            let ghost w = self.window();
            let lead: u32 = self.bitbuf.leading_zeros();
            proof {
                bits::lemma_byte_bits_len(self.data@);
                lemma_lead(self.bitbuf);
                bits::lemma_window_lead(w, self.bitbuf as int, lead as nat);
                assert forall|i: int| 0 <= i < w.len() implies w[i] == b[at + i] by {}
            }
            if lead >= self.nbits {
                // Only zero bits in the window: consume them and go on.
                let n: u32 = self.nbits;
                proof {
                    assert forall|i: int| at <= i < at + n implies !b[i] by {
                        assert(!w[i - at]);
                    }
                    bits::lemma_first_one_skip(b, at, at + n);
                    lemma_low32_add(at - start, n as int);
                }
                q = q.wrapping_add(n);
                self.skip(n);
            } else {
                proof {
                    assert forall|i: int| at <= i < at + lead implies !b[i] by {
                        assert(!w[i - at]);
                    }
                    bits::lemma_first_one_skip(b, at, at + lead);
                    lemma_low32_add(at - start, lead as int);
                }
                q = q.wrapping_add(lead);
                self.skip(lead + 1);
                return Some(q);
            }
        }
    }

    /// Skip to the next byte boundary.
    pub fn align_to_byte(&mut self)
        requires
            old(self).wf(),
        ensures
            final(self).wf(),
            final(self).bits() == old(self).bits(),
            final(self).bit_pos() == old(self).bit_pos() + bits::padding(
                old(self).bit_pos() as nat,
            ),
            final(self).bit_pos() % 8 == 0,
    {
        let n: u32 = self.nbits % 8;
        self.skip(n);
    }

    /// Read one Rice code (unary quotient, then `k` low bits), in one step
    /// where the whole code lies in the window. `k <= 30`.
    pub fn read_rice(&mut self, k: u32) -> (r: Option<u32>)
        requires
            old(self).wf(),
            k <= 30,
        ensures
            final(self).wf(),
            final(self).bits() == old(self).bits(),
            match r {
                Some(v) => bits::read_rice(old(self).bits(), old(self).bit_pos(), k as nat) == Some(
                    (v, final(self).bit_pos()),
                ),
                None => bits::read_rice(old(self).bits(), old(self).bit_pos(), k as nat) is None
                    && final(self).bit_pos() == match bits::read_zeros(
                    old(self).bits(),
                    old(self).bit_pos(),
                ) {
                    Some((z, p)) => p,
                    None => old(self).bits().len() as int,
                },
            },
    {
        broadcast use bits::group_bits_len;

        let ghost b = self.bits();
        let ghost at = self.bit_pos();
        if self.nbits < 48 {
            self.refill();
        }
        let lead: u32 = self.bitbuf.leading_zeros();
        proof {
            lemma_lead(self.bitbuf);
        }
        if lead + 1 + k <= self.nbits {
            let ghost w = self.window();
            proof {
                bits::lemma_window_lead(w, self.bitbuf as int, lead as nat);
                assert forall|i: int| 0 <= i < w.len() implies w[i] == b[at + i] by {}
                assert forall|i: int| at <= i < at + lead implies !b[i] by {
                    assert(!w[i - at]);
                }
                bits::lemma_first_one_skip(b, at, at + lead);
                assert(bits::read_zeros(b, at) == Some((lead as nat, at + lead + 1)));
            }
            self.skip(lead + 1);
            let low: u32 = match self.read_bits(k) {
                Some(v) => v,
                None => 0,
            };
            proof {
                lemma_rice_join(b.subrange(at + lead + 1, at + lead + 1 + k), lead, low, k);
            }
            return Some((((lead as u64) << k) as u32) | low);
        }
        match self.read_unary() {
            None => None,
            Some(q) => match self.read_bits(k) {
                None => None,
                Some(low) => {
                    proof {
                        let z = bits::read_zeros(b, at).unwrap();
                        let ghost s = b.subrange(z.1, z.1 + k);
                        lemma_rice_join(s, q, low, k);
                        lemma_low32_scale(z.0 as int, pow2(k as nat) as int, low as int);
                    }
                    Some((((q as u64) << k) as u32) | low)
                },
            },
        }
    }
}

/// The topmost one bit of a word, bounded by powers of two.
proof fn lemma_lead(x: u64)
    ensures
        u64_leading_zeros(x) <= 64,
        x < pow2((64 - u64_leading_zeros(x)) as nat),
        u64_leading_zeros(x) < 64 ==> pow2((63 - u64_leading_zeros(x)) as nat) <= x,
{
    axiom_u64_leading_zeros(x);
    lemma2_to64();
    let lead = u64_leading_zeros(x);
    if lead < 64 {
        let k = (63 - lead) as u64;
        lemma_u64_shr_is_div(x, k);
        lemma_pow2_pos(k as nat);
        let y = x >> k;
        assert(y & 1u64 != 0 ==> y != 0) by (bit_vector);
        if x < pow2(k as nat) {
            lemma_basic_div(x as int, pow2(k as nat) as int);
        }
        if lead > 0 {
            let j = (64 - lead) as u64;
            lemma_u64_shr_is_div(x, j);
            lemma_pow2_pos(j as nat);
            lemma_small_div_converse(x as int, pow2(j as nat) as int);
        } else {
            lemma2_to64_rest();
        }
    } else {
        assert(x == 0);
    }
}

/// A byte joins the window below its valid bits.
proof fn lemma_window_push(b: Seq<bool>, data: Seq<u8>, pos: int, nbits: nat, buf: u64)
    requires
        b == bits::byte_bits(data),
        0 <= pos < data.len(),
        nbits <= 56,
        nbits <= 8 * pos,
        buf == bits::value(b.subrange(8 * pos - nbits, 8 * pos)) * pow2((64 - nbits) as nat),
    ensures
        data[pos] * pow2((56 - nbits) as nat) <= u64::MAX,
        buf + data[pos] * pow2((56 - nbits) as nat) <= u64::MAX,
        buf + data[pos] * pow2((56 - nbits) as nat) == bits::value(
            b.subrange(8 * pos - nbits, 8 * pos + 8),
        ) * pow2((56 - nbits) as nat),
{
    broadcast use bits::group_bits_len;

    let w = b.subrange(8 * pos - nbits, 8 * pos);
    let f = b.subrange(8 * pos, 8 * pos + 8);
    let wf = b.subrange(8 * pos - nbits, 8 * pos + 8);
    assert(wf =~= w + f);
    bits::lemma_byte_at(data, pos);
    bits::lemma_value_concat(w, f);
    bits::lemma_value_field(data[pos] as int, 8);
    lemma2_to64();
    lemma2_to64_rest();
    lemma_small_mod(data[pos] as nat, 256);
    lemma_pow2_adds((56 - nbits) as nat, 8);
    let p = pow2((56 - nbits) as nat) as int;
    let v = bits::value(w) as int;
    let byte = data[pos] as int;
    assert((v * 256 + byte) * p == v * (p * 256) + byte * p) by (nonlinear_arith);
    bits::lemma_value_bound(wf);
    lemma_pow2_adds((nbits + 8) as nat, (56 - nbits) as nat);
    lemma_pow2_pos((56 - nbits) as nat);
    let all = bits::value(wf) as int;
    let lim = pow2((nbits + 8) as nat) as int;
    assert(all * p <= lim * p - p) by (nonlinear_arith)
        requires
            all + 1 <= lim,
            p > 0,
    ;
    assert(0 <= v * (p * 256) && 0 <= byte * p) by (nonlinear_arith)
        requires
            v >= 0,
            p > 0,
            byte >= 0,
    ;
}

/// Shifting up and arithmetically down again sign-extends.
proof fn lemma_sign_extend(s: Seq<bool>, v: u32, n: u32)
    requires
        1 <= n <= 32,
        s.len() == n,
        v == bits::value(s),
    ensures
        (((v << ((32 - n) as u32)) as i32) >> ((32 - n) as u32)) as int == bits::signed_value(s),
{
    let k = (n - 1) as nat;
    lemma2_to64();
    let hi = s.subrange(0, 1);
    let lo = s.subrange(1, n as int);
    assert(s =~= hi + lo);
    bits::lemma_value_concat(hi, lo);
    bits::lemma_value_bound(lo);
    bits::lemma_value_bound(s);
    lemma_pow2_unfold(n as nat);
    reveal_with_fuel(bits::value, 2);
    assert(hi.drop_last() =~= Seq::<bool>::empty());
    assert(bits::value(hi) == bits::bit_val(s[0]));
    assert(1 * pow2(k) == pow2(k) && 0 * pow2(k) == 0);
    let m: u32 = (n - 1) as u32;
    let top: u64 = 1u64 << m;
    lemma_u64_pow2_no_overflow(k);
    lemma_u64_shl_is_mul(1, m as u64);
    assert(top == pow2(k));
    let sh: u32 = (32 - n) as u32;
    let r: i32 = ((v << sh) as i32) >> sh;
    assert((v < top ==> r == v) && (v >= top ==> r == v - 2 * top)) by (bit_vector)
        requires
            1 <= n <= 32,
            sh == 32 - n,
            m == n - 1,
            top == 1u64 << m,
            v < 2 * top,
            r == ((v << sh) as i32) >> sh,
    ;
}

proof fn lemma_low32_add(x: int, n: int)
    requires
        0 <= n <= 64,
    ensures
        arith::low32(x).wrapping_add(n as u32) == arith::low32(x + n),
{
}

proof fn lemma_low32_scale(z: int, m: int, low: int)
    requires
        z >= 0,
    ensures
        arith::low32((z % 0x1_0000_0000) * m + low) == arith::low32(z * m + low),
{
    let big: int = 0x1_0000_0000;
    lemma_mul_mod_noop_left(z, m, big);
    lemma_add_mod_noop((z % big) * m, low, big);
    lemma_add_mod_noop(z * m, low, big);
}

/// Quotient and low bits of a Rice code put together.
proof fn lemma_rice_join(s: Seq<bool>, q: u32, low: u32, k: u32)
    requires
        k <= 30,
        s.len() == k,
        low == bits::value(s),
    ensures
        ((((q as u64) << k) as u32) | low) == arith::low32(q * pow2(k as nat) + low),
{
    bits::lemma_value_bound(s);
    lemma2_to64();
    lemma_u64_pow2_no_overflow(k as nat);
    lemma_u64_shl_is_mul(1, k as u64);
    arith::lemma_pow2_monotone(k as nat, 30);
    assert(q * pow2(k as nat) <= 0xffff_ffff * 0x4000_0000) by (nonlinear_arith)
        requires
            q <= 0xffff_ffff,
            pow2(k as nat) <= 0x4000_0000,
    ;
    lemma_u64_shl_is_mul(q as u64, k as u64);
    let m: u64 = (q as u64) << k;
    let one: u64 = 1u64 << k;
    let r: u32 = (m as u32) | low;
    assert(r as u64 == (m + low) % 0x1_0000_0000) by (bit_vector)
        requires
            k <= 30,
            m == (q as u64) << k,
            one == 1u64 << k,
            (low as u64) < one,
            r == (m as u32) | low,
    ;
}

} // verus!
