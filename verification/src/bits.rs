//! Bit sequences, most significant bit first: the mathematical model that the
//! bit writer, the bit reader and the whole stream format are stated over.
use vstd::arithmetic::div_mod::*;
use vstd::arithmetic::mul::*;
use vstd::arithmetic::power2::*;
use vstd::prelude::*;

verus! {

/// A bit as a number.
pub open spec fn bit_val(b: bool) -> nat {
    if b {
        1
    } else {
        0
    }
}

/// The low `n` bits of `v`, most significant first. For a negative `v` these
/// are the bits of its two's complement.
pub open spec fn field(v: int, n: nat) -> Seq<bool>
    decreases n,
{
    if n == 0 {
        Seq::empty()
    } else {
        field(v / 2, (n - 1) as nat).push(v % 2 == 1)
    }
}

/// The number that a bit sequence spells, most significant bit first.
pub open spec fn value(s: Seq<bool>) -> nat
    decreases s.len(),
{
    if s.len() == 0 {
        0
    } else {
        2 * value(s.drop_last()) + bit_val(s.last())
    }
}

/// The number that a bit sequence spells as two's complement.
pub open spec fn signed_value(s: Seq<bool>) -> int {
    if s.len() > 0 && s[0] {
        value(s) - pow2(s.len())
    } else {
        value(s) as int
    }
}

/// The bits of a byte sequence.
pub open spec fn byte_bits(data: Seq<u8>) -> Seq<bool>
    decreases data.len(),
{
    if data.len() == 0 {
        Seq::empty()
    } else {
        byte_bits(data.drop_last()) + field(data.last() as int, 8)
    }
}

/// The bytes that a bit sequence fills.
pub open spec fn pack(b: Seq<bool>) -> Seq<u8> {
    Seq::new(b.len() / 8, |i: int| value(b.subrange(8 * i, 8 * i + 8)) as u8)
}

/// `n` zero bits.
pub open spec fn zeros(n: nat) -> Seq<bool> {
    Seq::new(n, |i: int| false)
}

/// How many bits are missing to the next byte boundary.
pub open spec fn padding(n: nat) -> nat {
    ((8 - n % 8) % 8) as nat
}

/// The word `w` stands in `b` at bit position `p`.
pub open spec fn stands_at(b: Seq<bool>, p: int, w: Seq<bool>) -> bool {
    &&& 0 <= p
    &&& p + w.len() <= b.len()
    &&& b.subrange(p, p + w.len()) == w
}

/// The position of the first one bit of `b` at or after `p`; the length of
/// `b` where none is left.
pub open spec fn first_one(b: Seq<bool>, p: int) -> int
    decreases b.len() - p,
{
    if p < 0 || p >= b.len() {
        b.len() as int
    } else if b[p] {
        p
    } else {
        first_one(b, p + 1)
    }
}

/// An `n`-bit number read at `p`, with the position behind it.
pub open spec fn read_uint(b: Seq<bool>, p: int, n: nat) -> Option<(nat, int)> {
    if p + n <= b.len() {
        Some((value(b.subrange(p, p + n)), p + n))
    } else {
        None
    }
}

/// An `n`-bit two's complement number read at `p`, with the position behind it.
pub open spec fn read_int(b: Seq<bool>, p: int, n: nat) -> Option<(int, int)> {
    if p + n <= b.len() {
        Some((signed_value(b.subrange(p, p + n)), p + n))
    } else {
        None
    }
}

/// The count of zero bits before the next one bit, with the position behind
/// that one bit.
pub open spec fn read_zeros(b: Seq<bool>, p: int) -> Option<(nat, int)> {
    let q = first_one(b, p);
    if q < b.len() {
        Some(((q - p) as nat, q + 1))
    } else {
        None
    }
}

/// A Rice code with parameter `k` read at `p`: a unary quotient and `k` low
/// bits, kept to 32 bits, with the position behind the code.
pub open spec fn read_rice(b: Seq<bool>, p: int, k: nat) -> Option<(u32, int)> {
    match read_zeros(b, p) {
        None => None,
        Some((q, p1)) => match read_uint(b, p1, k) {
            None => None,
            Some((low, p2)) => Some((crate::arith::low32((q * pow2(k) + low) as int), p2)),
        },
    }
}

pub broadcast proof fn lemma_field_len(v: int, n: nat)
    ensures
        #[trigger] field(v, n).len() == n,
    decreases n,
{
    if n > 0 {
        lemma_field_len(v / 2, (n - 1) as nat);
    }
}

pub broadcast proof fn lemma_byte_bits_len(data: Seq<u8>)
    ensures
        #[trigger] byte_bits(data).len() == 8 * data.len(),
    decreases data.len(),
{
    if data.len() > 0 {
        lemma_byte_bits_len(data.drop_last());
        lemma_field_len(data.last() as int, 8);
    }
}

pub broadcast group group_bits_len {
    lemma_field_len,
    lemma_byte_bits_len,
}

pub proof fn lemma_field_zero(n: nat)
    ensures
        field(0, n) == zeros(n),
    decreases n,
{
    if n > 0 {
        lemma_field_zero((n - 1) as nat);
    }
    assert(field(0, n) =~= zeros(n));
}

pub proof fn lemma_value_bound(s: Seq<bool>)
    ensures
        value(s) < pow2(s.len()),
    decreases s.len(),
{
    lemma2_to64();
    if s.len() > 0 {
        lemma_value_bound(s.drop_last());
        lemma_pow2_unfold(s.len());
    }
}

/// Reading a field back gives the value modulo the field's range.
pub proof fn lemma_value_field(v: int, n: nat)
    ensures
        value(field(v, n)) == v % (pow2(n) as int),
    decreases n,
{
    lemma2_to64();
    lemma_pow2_pos(n);
    if n > 0 {
        let m = (n - 1) as nat;
        lemma_value_field(v / 2, m);
        lemma_field_len(v / 2, m);
        let f = field(v, n);
        assert(f.drop_last() =~= field(v / 2, m));
        lemma_pow2_unfold(n);
        lemma_pow2_pos(m);
        let p = pow2(m) as int;
        let q = (v / 2) / p;
        let r = (v / 2) % p;
        lemma_fundamental_div_mod(v / 2, p);
        lemma_mod_bound(v / 2, p);
        assert(v == (2 * p) * q + (2 * r + v % 2)) by (nonlinear_arith)
            requires
                v / 2 == p * q + r,
                v == 2 * (v / 2) + v % 2,
        ;
        assert(v % 2 == 0 || v % 2 == 1);
        lemma_fundamental_div_mod_converse(v, 2 * p, q, 2 * r + v % 2);
    }
}

/// Writing a value into as many bits as it was read from gives the bits back.
pub proof fn lemma_field_value(s: Seq<bool>)
    ensures
        field(value(s) as int, s.len()) == s,
    decreases s.len(),
{
    if s.len() > 0 {
        lemma_field_value(s.drop_last());
        let v = value(s) as int;
        assert(v / 2 == value(s.drop_last()));
        assert((v % 2 == 1) == s.last());
        assert(field(v, s.len()) =~= s);
    } else {
        assert(field(0, 0) =~= s);
    }
}

pub proof fn lemma_value_concat(a: Seq<bool>, b: Seq<bool>)
    ensures
        value(a + b) == value(a) * pow2(b.len()) + value(b),
    decreases b.len(),
{
    lemma2_to64();
    if b.len() == 0 {
        assert(a + b =~= a);
    } else {
        let c = b.drop_last();
        lemma_value_concat(a, c);
        assert((a + b).drop_last() =~= a + c);
        assert((a + b).last() == b.last());
        lemma_pow2_unfold(b.len());
        let x = value(a) as int;
        let p = pow2(c.len()) as int;
        assert(x * (2 * p) == 2 * (x * p)) by (nonlinear_arith);
    }
}

/// A wide field is its high part followed by its low part.
pub proof fn lemma_field_split(v: int, m: nat, n: nat)
    ensures
        field(v, m + n) == field(v / (pow2(n) as int), m) + field(v, n),
    decreases n,
{
    broadcast use group_bits_len;
    lemma2_to64();
    if n == 0 {
        assert(v / 1 == v);
        assert(field(v, m + n) =~= field(v / 1, m) + field(v, 0));
    } else {
        let k = (n - 1) as nat;
        lemma_field_split(v / 2, m, k);
        lemma_pow2_unfold(n);
        lemma_pow2_pos(k);
        crate::arith::lemma_div_div(v, 2, pow2(k) as int);
        assert(field(v, m + n) =~= field(v / (pow2(n) as int), m) + field(v, n));
    }
}

/// Only the low `n` bits of a value show in an `n`-bit field.
pub proof fn lemma_field_congruent(v: int, w: int, n: nat)
    requires
        v % (pow2(n) as int) == w % (pow2(n) as int),
    ensures
        field(v, n) == field(w, n),
{
    broadcast use group_bits_len;
    lemma_value_field(v, n);
    lemma_value_field(w, n);
    lemma_field_value(field(v, n));
    lemma_field_value(field(w, n));
}

/// High and low parts, each in range, side by side.
pub proof fn lemma_field_join(a: int, b: int, m: nat, n: nat)
    requires
        0 <= b < pow2(n),
    ensures
        field(a * pow2(n) + b, m + n) == field(a, m) + field(b, n),
{
    let p = pow2(n) as int;
    let v = a * p + b;
    lemma_pow2_pos(n);
    lemma_field_split(v, m, n);
    lemma_fundamental_div_mod_converse(v, p, a, b);
    lemma_small_mod(b as nat, p as nat);
    lemma_field_congruent(v, b, n);
}

/// A number in the range of an `n`-bit two's complement field comes back.
pub proof fn lemma_signed_field(v: int, n: nat)
    requires
        n >= 1,
        -pow2((n - 1) as nat) <= v < pow2((n - 1) as nat),
    ensures
        signed_value(field(v, n)) == v,
{
    broadcast use group_bits_len;
    let k = (n - 1) as nat;
    lemma_value_field(v, n);
    lemma_field_split(v, 1, k);
    lemma_pow2_unfold(n);
    lemma_pow2_pos(k);
    let p = pow2(k) as int;
    let f = field(v, n);
    reveal_with_fuel(field, 2);
    assert(f[0] == field(v / p, 1)[0]);
    if v >= 0 {
        lemma_small_mod(v as nat, (2 * p) as nat);
        lemma_basic_div(v, p);
        assert(f[0] == false);
    } else {
        lemma_fundamental_div_mod_converse(v, 2 * p, -1, v + 2 * p);
        lemma_fundamental_div_mod_converse(v, p, -1, v + p);
        assert(f[0] == true);
    }
}

/// What a two's complement field of `n` bits can hold.
pub proof fn lemma_signed_value_bound(s: Seq<bool>)
    requires
        s.len() >= 1,
    ensures
        -pow2((s.len() - 1) as nat) <= signed_value(s) < pow2((s.len() - 1) as nat),
{
    let n = s.len();
    let k = (n - 1) as nat;
    let hi = s.subrange(0, 1);
    let lo = s.subrange(1, n as int);
    assert(s =~= hi + lo);
    lemma_value_concat(hi, lo);
    lemma_value_bound(lo);
    lemma_pow2_unfold(n);
    reveal_with_fuel(value, 2);
    assert(hi.drop_last() =~= Seq::<bool>::empty());
    assert(value(hi) == bit_val(s[0]));
    let p = pow2(k) as int;
    assert(1 * p == p && 0 * p == 0);
}

pub proof fn lemma_byte_bits_concat(a: Seq<u8>, b: Seq<u8>)
    ensures
        byte_bits(a + b) == byte_bits(a) + byte_bits(b),
    decreases b.len(),
{
    if b.len() == 0 {
        assert(a + b =~= a);
        assert(byte_bits(a) + byte_bits(b) =~= byte_bits(a));
    } else {
        lemma_byte_bits_concat(a, b.drop_last());
        assert((a + b).drop_last() =~= a + b.drop_last());
        assert(byte_bits(a + b) =~= byte_bits(a) + byte_bits(b));
    }
}

pub proof fn lemma_byte_bits_push(a: Seq<u8>, x: u8)
    ensures
        byte_bits(a.push(x)) == byte_bits(a) + field(x as int, 8),
{
    assert(a.push(x).drop_last() =~= a);
}

/// The bits of a run of bytes are a run of the bits.
pub proof fn lemma_byte_bits_subrange(data: Seq<u8>, i: int, j: int)
    requires
        0 <= i <= j <= data.len(),
    ensures
        byte_bits(data.subrange(i, j)) == byte_bits(data).subrange(8 * i, 8 * j),
{
    broadcast use group_bits_len;
    let a = data.subrange(0, i);
    let m = data.subrange(i, j);
    let c = data.subrange(j, data.len() as int);
    assert(data =~= (a + m) + c);
    lemma_byte_bits_concat(a + m, c);
    lemma_byte_bits_concat(a, m);
    assert(byte_bits(m) =~= byte_bits(data).subrange(8 * i, 8 * j));
}

/// Each byte shows as its eight bits.
pub proof fn lemma_byte_at(data: Seq<u8>, i: int)
    requires
        0 <= i < data.len(),
    ensures
        byte_bits(data).subrange(8 * i, 8 * i + 8) == field(data[i] as int, 8),
{
    lemma_byte_bits_subrange(data, i, i + 1);
    let one = data.subrange(i, i + 1);
    assert(one =~= Seq::<u8>::empty().push(data[i]));
    lemma_byte_bits_push(Seq::empty(), data[i]);
    assert(byte_bits(Seq::<u8>::empty()) + field(data[i] as int, 8) =~= field(data[i] as int, 8));
}

/// A word made of two parts stands where its parts stand in turn.
pub proof fn lemma_stands_split(b: Seq<bool>, p: int, x: Seq<bool>, y: Seq<bool>)
    requires
        stands_at(b, p, x + y),
    ensures
        stands_at(b, p, x),
        stands_at(b, p + x.len(), y),
{
    let w = b.subrange(p, p + (x + y).len());
    assert(b.subrange(p, p + x.len()) =~= w.subrange(0, x.len() as int));
    assert((x + y).subrange(0, x.len() as int) =~= x);
    assert(b.subrange(p + x.len(), p + x.len() + y.len()) =~= w.subrange(
        x.len() as int,
        (x + y).len() as int,
    ));
    assert((x + y).subrange(x.len() as int, (x + y).len() as int) =~= y);
}

/// Zero bits before `q` do not hold the search up.
pub proof fn lemma_first_one_skip(b: Seq<bool>, p: int, q: int)
    requires
        0 <= p <= q <= b.len(),
        forall|i: int| p <= i < q ==> !b[i],
    ensures
        first_one(b, p) == first_one(b, q),
    decreases q - p,
{
    if p < q {
        lemma_first_one_skip(b, p + 1, q);
    }
}

pub proof fn lemma_first_one_bound(b: Seq<bool>, p: int)
    requires
        0 <= p <= b.len(),
    ensures
        p <= first_one(b, p) <= b.len(),
    decreases b.len() - p,
{
    if p < b.len() && !b[p] {
        lemma_first_one_bound(b, p + 1);
    }
}

/// A sequence that spells zero holds zero bits only.
pub proof fn lemma_value_zero(s: Seq<bool>)
    requires
        value(s) == 0,
    ensures
        forall|i: int| 0 <= i < s.len() ==> !s[i],
    decreases s.len(),
{
    if s.len() > 0 {
        lemma_value_zero(s.drop_last());
        assert forall|i: int| 0 <= i < s.len() implies !s[i] by {
            if i < s.len() - 1 {
                assert(s[i] == s.drop_last()[i]);
            }
        }
    }
}

/// How a left-aligned 64-bit window over the bits `w` splits after `n` bits.
pub proof fn lemma_window_split(w: Seq<bool>, buf: int, n: nat)
    requires
        n <= w.len() <= 64,
        buf == value(w) * pow2((64 - w.len()) as nat),
    ensures
        buf / (pow2((64 - n) as nat) as int) == value(w.subrange(0, n as int)),
        (buf * pow2(n)) % (pow2(64) as int) == value(w.subrange(n as int, w.len() as int)) * pow2(
            (64 - (w.len() - n)) as nat,
        ),
        0 <= buf < pow2(64),
{
    let hi = w.subrange(0, n as int);
    let lo = w.subrange(n as int, w.len() as int);
    assert(w =~= hi + lo);
    lemma_value_concat(hi, lo);
    lemma_value_bound(hi);
    lemma_value_bound(lo);
    let a = value(hi) as int;
    let b = value(lo) as int;
    let m = lo.len();
    let r = (64 - w.len()) as nat;
    let pm = pow2(m) as int;
    let pr = pow2(r) as int;
    let pn = pow2(n) as int;
    lemma_pow2_pos(m);
    lemma_pow2_pos(r);
    lemma_pow2_pos(n);
    lemma_pow2_adds(m, r);
    lemma_pow2_adds(r, n);
    lemma_pow2_adds(n, m + r);
    let big = pow2(64) as int;
    assert(buf == a * (pm * pr) + b * pr && 0 <= b * pr < pm * pr) by (nonlinear_arith)
        requires
            buf == (a * pm + b) * pr,
            0 <= b < pm,
            pr > 0,
    ;
    lemma_fundamental_div_mod_converse(buf, pm * pr, a, b * pr);
    assert(buf * pn == a * (pn * (pm * pr)) + b * (pr * pn) && 0 <= b * (pr * pn) < pn * (pm * pr))
        by (nonlinear_arith)
        requires
            buf == a * (pm * pr) + b * pr,
            0 <= b < pm,
            pr > 0,
            pn > 0,
    ;
    lemma_fundamental_div_mod_converse(buf * pn, big, a, b * (pr * pn));
    assert(buf < big) by (nonlinear_arith)
        requires
            buf == a * (pm * pr) + b * pr,
            0 <= b * pr < pm * pr,
            a + 1 <= pn,
            big == pn * (pm * pr),
    ;
    assert(0 <= buf) by (nonlinear_arith)
        requires
            buf == a * (pm * pr) + b * pr,
            0 <= b * pr,
            0 <= a,
            pm > 0,
            pr > 0,
    ;
}

/// A window whose topmost one bit is bit `63 - lead` starts with `lead` zero
/// bits and then a one, or holds zero bits only where it is shorter than that.
pub proof fn lemma_window_lead(w: Seq<bool>, buf: int, lead: nat)
    requires
        w.len() <= 64,
        lead <= 64,
        buf == value(w) * pow2((64 - w.len()) as nat),
        buf < pow2((64 - lead) as nat),
        lead < 64 ==> pow2((63 - lead) as nat) <= buf,
    ensures
        lead >= w.len() ==> forall|i: int| 0 <= i < w.len() ==> !w[i],
        lead < w.len() ==> w[lead as int] && forall|i: int| 0 <= i < lead ==> !w[i],
{
    lemma2_to64();
    if lead >= w.len() {
        lemma_window_split(w, buf, w.len());
        assert(w.subrange(0, w.len() as int) =~= w);
        crate::arith::lemma_pow2_monotone((64 - lead) as nat, (64 - w.len()) as nat);
        lemma_basic_div(buf, pow2((64 - w.len()) as nat) as int);
        lemma_value_zero(w);
    } else {
        lemma_window_split(w, buf, lead);
        lemma_window_split(w, buf, lead + 1);
        let z = w.subrange(0, lead as int);
        let o = w.subrange(0, (lead + 1) as int);
        lemma_basic_div(buf, pow2((64 - lead) as nat) as int);
        lemma_value_zero(z);
        let p = pow2((63 - lead) as nat) as int;
        lemma_pow2_unfold((64 - lead) as nat);
        lemma_fundamental_div_mod_converse(buf, p, 1, buf - p);
        assert(o.drop_last() =~= z);
        assert forall|i: int| 0 <= i < lead implies !w[i] by {
            assert(w[i] == z[i]);
        }
    }
}

/// Packing the bits of bytes gives the bytes back.
pub proof fn lemma_pack_byte_bits(data: Seq<u8>)
    ensures
        pack(byte_bits(data)) == data,
{
    broadcast use group_bits_len;

    let b = byte_bits(data);
    assert forall|i: int| 0 <= i < data.len() implies pack(b)[i] == data[i] by {
        lemma_byte_at(data, i);
        lemma_value_field(data[i] as int, 8);
        lemma2_to64();
        lemma_small_mod(data[i] as nat, 256);
    }
    assert(pack(b) =~= data);
}

/// The bytes that a whole number of bytes' bits fill have those bits.
pub proof fn lemma_byte_bits_pack(b: Seq<bool>)
    requires
        b.len() % 8 == 0,
    ensures
        byte_bits(pack(b)) == b,
    decreases b.len(),
{
    broadcast use group_bits_len;

    if b.len() == 0 {
        assert(pack(b) =~= Seq::<u8>::empty());
        assert(b =~= Seq::<bool>::empty());
    } else {
        let n = b.len();
        let c = b.subrange(0, n - 8);
        let last = b.subrange(n - 8, n as int);
        lemma_byte_bits_pack(c);
        let d = pack(b);
        assert forall|i: int| 0 <= i < d.drop_last().len() implies d.drop_last()[i]
            == pack(c)[i] by {
            assert(b.subrange(8 * i, 8 * i + 8) =~= c.subrange(8 * i, 8 * i + 8));
        }
        assert(d.drop_last() =~= pack(c));
        lemma_value_bound(last);
        lemma2_to64();
        lemma_field_value(last);
        assert(8 * (d.len() - 1) == n - 8);
        assert(d.last() == value(last) as u8);
        assert(byte_bits(d) =~= c + last);
        assert(c + last =~= b);
    }
}

} // verus!
