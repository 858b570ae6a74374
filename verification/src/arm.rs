//! What a subframe codes: a block of samples with the zero bits that all of
//! them end in shifted out.
use crate::arith;
use vstd::arithmetic::div_mod::*;
use vstd::arithmetic::power2::*;
use vstd::prelude::*;

verus! {

/// Every sample is zero.
pub open spec fn silent(s: Seq<i32>) -> bool {
    forall|i: int| 0 <= i < s.len() ==> s[i] == 0
}

/// Every sample ends in `w` zero bits.
pub open spec fn divisible(s: Seq<i32>, w: nat) -> bool {
    forall|i: int| 0 <= i < s.len() ==> #[trigger] s[i] as int % (pow2(w) as int) == 0
}

/// The largest count, up to `top`, of zero bits that all samples end in.
pub open spec fn widest(s: Seq<i32>, top: nat) -> nat
    decreases top,
{
    if top == 0 || divisible(s, top) {
        top
    } else {
        widest(s, (top - 1) as nat)
    }
}

/// The trailing zero bits common to every sample of a block, fewer than a
/// sample has; none for silence.
pub open spec fn wasted_of(s: Seq<i32>, bps: nat) -> nat {
    if silent(s) {
        0
    } else {
        widest(s, (bps - 1) as nat)
    }
}

/// The samples that a subframe codes, their depth, and the zero bits that were
/// shifted out of them.
#[verifier::ext_equal]
pub struct ArmModel {
    pub samples: Seq<i32>,
    pub depth: nat,
    pub wasted: nat,
}

/// Samples with their `w` low bits shifted out.
pub open spec fn shifted_down(s: Seq<i32>, w: nat) -> Seq<i32> {
    Seq::new(s.len(), |i: int| (s[i] as int / (pow2(w) as int)) as i32)
}

/// The arm of a block of `bps`-bit samples.
pub open spec fn arm_of(s: Seq<i32>, bps: nat) -> ArmModel {
    let w = wasted_of(s, bps);
    ArmModel { samples: shifted_down(s, w), depth: (bps - w) as nat, wasted: w }
}

pub proof fn lemma_divisible_push(s: Seq<i32>, v: i32, w: nat)
    ensures
        divisible(s.push(v), w) == (divisible(s, w) && v as int % (pow2(w) as int) == 0),
{
    let t = s.push(v);
    if divisible(t, w) {
        assert(t[s.len() as int] == v);
        assert forall|i: int| 0 <= i < s.len() implies #[trigger] s[i] as int % (pow2(w) as int)
            == 0 by {
            assert(t[i] == s[i]);
        }
    }
}

/// What ends in more zero bits ends in fewer too.
pub proof fn lemma_divisible_fewer(s: Seq<i32>, v: nat, w: nat)
    requires
        v <= w,
        divisible(s, w),
    ensures
        divisible(s, v),
{
    assert forall|i: int| 0 <= i < s.len() implies #[trigger] s[i] as int % (pow2(v) as int)
        == 0 by {
        lemma_pow2_adds(v, (w - v) as nat);
        lemma_pow2_pos(v);
        lemma_pow2_pos((w - v) as nat);
        lemma_mod_mod(s[i] as int, pow2(v) as int, pow2((w - v) as nat) as int);
        assert(s[i] as int % (pow2(w) as int) == 0);
        lemma_small_mod(0, pow2(v));
    }
}

/// The one count that is common and cannot be exceeded is the widest.
pub proof fn lemma_widest_unique(s: Seq<i32>, top: nat, w: nat)
    requires
        w <= top,
        w == 0 || divisible(s, w),
        forall|u: nat| w < u <= top ==> !#[trigger] divisible(s, u),
    ensures
        widest(s, top) == w,
    decreases top,
{
    if w < top {
        assert(!divisible(s, top));
        lemma_widest_unique(s, (top - 1) as nat, w);
    }
}

/// The widest count is common, and none above it is.
pub proof fn lemma_widest(s: Seq<i32>, top: nat)
    ensures
        widest(s, top) <= top,
        divisible(s, widest(s, top)),
        forall|u: nat| widest(s, top) < u <= top ==> !#[trigger] divisible(s, u),
    decreases top,
{
    lemma2_to64();
    if top == 0 {
        assert forall|i: int| 0 <= i < s.len() implies #[trigger] s[i] as int % (pow2(0) as int)
            == 0 by {}
    } else if !divisible(s, top) {
        lemma_widest(s, (top - 1) as nat);
    }
}

/// One sample more can only narrow the widest count.
proof fn lemma_widest_push(s: Seq<i32>, v: i32, top: nat, w: nat)
    requires
        w <= widest(s, top),
        w == 0 || v as int % (pow2(w) as int) == 0,
        forall|u: nat|
            w < u <= widest(s, top) ==> v as int % (#[trigger] pow2(u) as int) != 0,
    ensures
        widest(s.push(v), top) == w,
{
    let t = s.push(v);
    lemma_widest(s, top);
    lemma2_to64();
    lemma_divisible_fewer(s, w, widest(s, top));
    lemma_divisible_push(s, v, w);
    assert forall|u: nat| w < u <= top implies !#[trigger] divisible(t, u) by {
        lemma_divisible_push(s, v, u);
        if u <= widest(s, top) {
            assert(v as int % (pow2(u) as int) != 0);
        }
    }
    lemma_widest_unique(t, top, w);
}

/// Trailing zero bits common to every sample of the block (0 for all-zero
/// input). This is what makes 16-bit content in a 24-bit container as small as
/// it is in a 16-bit one.
pub fn detect_wasted(samples: &[i32], bps: u32) -> (r: u32)
    requires
        1 <= bps <= 32,
    ensures
        r == wasted_of(samples@, bps as nat),
        r < bps,
{
    let ghost top = (bps - 1) as nat;
    let mut w: u32 = bps - 1;
    let mut quiet: bool = true;
    let mut i: usize = 0;
    assert(samples@.take(0) =~= Seq::<i32>::empty());
    proof {
        lemma_widest_unique(samples@.take(0), top, top);
    }
    while i < samples.len()
        invariant
            i <= samples@.len(),
            w <= top,
            top == bps - 1 < 32,
            w == widest(samples@.take(i as int), top),
            quiet == silent(samples@.take(i as int)),
        decreases samples@.len() - i,
    {
        let v: i64 = samples[i] as i64;
        let ghost before = samples@.take(i as int);
        let ghost w0 = w as nat;
        assert(samples@.take(i + 1) =~= before.push(samples@[i as int]));
        let mut fits: bool = false;
        while !fits
            invariant
                w <= w0 < 32,
                i32::MIN <= v <= i32::MAX,
                fits ==> w == 0 || v as int % (pow2(w as nat) as int) == 0,
                forall|u: nat| w < u <= w0 ==> v as int % (#[trigger] pow2(u) as int) != 0,
            decreases (if fits {
                0
            } else {
                w + 1int
            }),
        {
            proof {
                lemma2_to64();
                arith::lemma_pow2_monotone(w as nat, 31);
                lemma_pow2_pos(w as nat);
                vstd::bits::lemma_u64_shl_is_mul(1, w as u64);
            }
            let unit: i64 = (1u64 << w) as i64;
            let part: i64 = v >> w;
            proof {
                arith::lemma_i64_shr(v, w);
                lemma_fundamental_div_mod(v as int, unit as int);
                lemma_mod_bound(v as int, unit as int);
                assert(part * unit == unit * part) by (nonlinear_arith);
            }
            if part * unit == v || w == 0 {
                fits = true;
            } else {
                w = w - 1;
            }
        }
        proof {
            lemma_widest_push(before, samples@[i as int], top, w as nat);
            let now = samples@.take(i + 1);
            if silent(now) {
                assert forall|j: int| 0 <= j < before.len() implies before[j] == 0 by {
                    assert(now[j] == before[j]);
                }
                assert(now[i as int] == 0);
            }
        }
        if v != 0 {
            quiet = false;
            if w == 0 {
                // A sample that ends in a one bit leaves nothing to shift out.
                proof {
                    lemma_widest(samples@, top);
                    if widest(samples@, top) > 0 {
                        let now = samples@.take(i + 1);
                        assert(divisible(now, widest(samples@, top))) by {
                            assert forall|j: int| 0 <= j < now.len() implies #[trigger] now[j]
                                as int % (pow2(widest(samples@, top)) as int) == 0 by {
                                assert(now[j] == samples@[j]);
                            }
                        }
                        lemma_widest(now, top);
                    }
                }
                return 0;
            }
        }
        i = i + 1;
    }
    assert(samples@.take(i as int) =~= samples@);
    if quiet {
        0
    } else {
        w
    }
}

/// One arm's analysis input: samples with any wasted bits already shifted out,
/// the effective bit depth, and the wasted count for the header.
#[derive(Debug, Clone)]
pub struct ArmInput {
    pub samples: Vec<i32>,
    /// Effective coded depth: nominal bits per sample minus the wasted ones.
    pub ebps: u32,
    pub wasted: u32,
}

impl View for ArmInput {
    type V = ArmModel;

    open spec fn view(&self) -> ArmModel {
        ArmModel {
            samples: self.samples@,
            depth: self.ebps as nat,
            wasted: self.wasted as nat,
        }
    }
}

impl ArmInput {
    /// Detect trailing-zero (wasted) bits and shift them out.
    pub fn prepare(samples: &[i32], bps: u32) -> (r: ArmInput)
        requires
            1 <= bps <= 32,
        ensures
            r@ == arm_of(samples@, bps as nat),
            r.ebps >= 1,
            r.ebps + r.wasted == bps,
    {
        let wasted: u32 = detect_wasted(samples, bps);
        let mut down: Vec<i32> = Vec::with_capacity(samples.len());
        let mut i: usize = 0;
        while i < samples.len()
            invariant
                i <= samples@.len(),
                wasted < 32,
                down@ == shifted_down(samples@.take(i as int), wasted as nat),
            decreases samples@.len() - i,
        {
            proof {
                arith::lemma_i32_shr(samples@[i as int], wasted);
            }
            down.push(samples[i] >> wasted);
            i = i + 1;
            assert(down@ =~= shifted_down(samples@.take(i as int), wasted as nat));
        }
        assert(samples@.take(i as int) =~= samples@);
        ArmInput { samples: down, ebps: bps - wasted, wasted }
    }
}

/// The sample that a whole block repeats, if it does.
pub open spec fn constant_of(s: Seq<i32>) -> Option<i32> {
    let first = s[0];
    if forall|i: int| 0 <= i < s.len() ==> #[trigger] s[i] == first {
        Some(first)
    } else {
        None
    }
}

/// The sample that a whole block repeats, if it does.
pub fn constant_sample(samples: &[i32]) -> (r: Option<i32>)
    requires
        samples@.len() > 0,
    ensures
        r == constant_of(samples@),
{
    let first: i32 = samples[0];
    let mut i: usize = 1;
    while i < samples.len()
        invariant
            1 <= i <= samples@.len(),
            first == samples@[0],
            forall|j: int| 0 <= j < i ==> #[trigger] samples@[j] == first,
        decreases samples@.len() - i,
    {
        if samples[i] != first {
            return None;
        }
        i = i + 1;
    }
    Some(first)
}

/// Wasted bits cost nothing but their count: a block shifted up by `k` zero
/// bits, in a container `k` bits deeper, is coded as the same arm.
pub proof fn lemma_shifted_arm(s: Seq<i32>, bps: nat, k: nat)
    requires
        bps >= 1,
        !silent(s),
        forall|i: int| 0 <= i < s.len() ==> i32::MIN <= #[trigger] s[i] * pow2(k) <= i32::MAX,
    ensures
        ({
            let t = Seq::new(s.len(), |i: int| (s[i] * pow2(k)) as i32);
            arm_of(t, bps + k) == (ArmModel {
                wasted: arm_of(s, bps).wasted + k,
                ..arm_of(s, bps)
            })
        }),
{
    let t = Seq::new(s.len(), |i: int| (s[i] * pow2(k)) as i32);
    let m = pow2(k) as int;
    lemma_pow2_pos(k);
    let w = wasted_of(s, bps);
    lemma_widest(s, (bps - 1) as nat);
    assert(!silent(t)) by {
        let i = choose|i: int| 0 <= i < s.len() && s[i] != 0;
        assert(s[i] * m != 0) by (nonlinear_arith)
            requires
                s[i] != 0,
                m > 0,
        ;
        assert(t[i] != 0);
    }
    assert forall|u: nat| u >= k implies #[trigger] divisible(t, u) == divisible(
        s,
        (u - k) as nat,
    ) by {
        lemma_divisible_scaled(s, t, (u - k) as nat, k);
    }
    let top = (bps + k - 1) as nat;
    assert(divisible(t, w + k));
    assert forall|u: nat| w + k < u <= top implies !#[trigger] divisible(t, u) by {
        assert(!divisible(s, (u - k) as nat));
    }
    lemma_widest_unique(t, top, w + k);
    lemma_pow2_adds(w, k);
    lemma_pow2_pos(w);
    assert forall|i: int| 0 <= i < s.len() implies shifted_down(t, w + k)[i] == shifted_down(
        s,
        w,
    )[i] by {
        let v = s[i] as int;
        let p = pow2(w) as int;
        assert(pow2(w + k) == p * m);
        assert(t[i] == v * m);
        arith::lemma_scaled_div_mod(v, p, m);
    }
    assert(shifted_down(t, w + k) =~= shifted_down(s, w));
}

proof fn lemma_divisible_scaled(s: Seq<i32>, t: Seq<i32>, u: nat, k: nat)
    requires
        s.len() == t.len(),
        forall|i: int| 0 <= i < s.len() ==> #[trigger] t[i] == s[i] * pow2(k),
    ensures
        divisible(t, u + k) == divisible(s, u),
{
    let m = pow2(k) as int;
    let p = pow2(u) as int;
    lemma_pow2_pos(k);
    lemma_pow2_pos(u);
    lemma_pow2_adds(u, k);
    assert forall|i: int| 0 <= i < s.len() implies (#[trigger] s[i] as int % p == 0) == (t[i] as int
        % (pow2(u + k) as int) == 0) by {
        let v = s[i] as int;
        assert(t[i] == v * m);
        arith::lemma_scaled_div_mod(v, p, m);
        let r = v % p;
        assert(r * m == 0 <==> r == 0) by (nonlinear_arith)
            requires
                m > 0,
        ;
    }
    if divisible(s, u) {
        assert forall|i: int| 0 <= i < t.len() implies #[trigger] t[i] as int % (pow2(u + k) as int)
            == 0 by {
            assert(s[i] as int % p == 0);
        }
    }
    if divisible(t, u + k) {
        assert forall|i: int| 0 <= i < s.len() implies #[trigger] s[i] as int % p == 0 by {
            assert(t[i] as int % (pow2(u + k) as int) == 0);
        }
    }
}

/// What an arm is: the block divided by a power of two that divides every
/// sample, as deep as that leaves it. No higher power would do, but for the
/// depth of the block itself; silence is not divided at all.
pub proof fn lemma_arm(s: Seq<i32>, bps: nat)
    requires
        bps >= 1,
    ensures
        ({
            let a = arm_of(s, bps);
            &&& a.wasted < bps
            &&& a.depth + a.wasted == bps
            &&& a.samples.len() == s.len()
            &&& forall|i: int| 0 <= i < s.len() ==> #[trigger] a.samples[i] * pow2(a.wasted) == s[i]
            &&& silent(s) ==> a.wasted == 0
            &&& !silent(s) && a.wasted + 1 < bps ==> exists|i: int|
                0 <= i < s.len() && #[trigger] s[i] as int % (pow2(a.wasted + 1) as int) != 0
        }),
{
    let a = arm_of(s, bps);
    let w = a.wasted;
    lemma2_to64();
    lemma_pow2_pos(w);
    lemma_widest(s, (bps - 1) as nat);
    assert(divisible(s, w)) by {
        if silent(s) {
            assert forall|i: int| 0 <= i < s.len() implies #[trigger] s[i] as int % (pow2(w) as int)
                == 0 by {}
        }
    }
    assert forall|i: int| 0 <= i < s.len() implies #[trigger] a.samples[i] * pow2(w) == s[i] by {
        let m = pow2(w) as int;
        let v = s[i] as int;
        assert(v % m == 0);
        lemma_fundamental_div_mod(v, m);
        let q = v / m;
        assert(-0x8000_0000 <= q <= 0x7fff_ffff) by (nonlinear_arith)
            requires
                v == m * q,
                m >= 1,
                -0x8000_0000 <= v <= 0x7fff_ffff,
        ;
        assert(q * m == m * q) by (nonlinear_arith);
    }
    if !silent(s) && w + 1 < bps {
        assert(!divisible(s, w + 1));
    }
}

} // verus!
