//! Partitioned residuals: the planner that picks a partition order and one
//! Rice parameter per partition at exact cost, and the body that is written.
use crate::arith;
use crate::bitio::BitWriter;
use crate::bits;
use crate::rice;
use vstd::arithmetic::div_mod::*;
use vstd::arithmetic::mul::*;
use vstd::arithmetic::power2::*;
use vstd::prelude::*;

verus! {

/// The `i`-th of the `2^po` partitions of the residual of a `bs`-sample block
/// with `p` warm-up samples: the first one is short by the warm-up.
pub open spec fn partition(res: Seq<i32>, bs: nat, p: nat, po: nat, i: int) -> Seq<i32> {
    let size = bs / pow2(po);
    res.subrange(
        if i == 0 {
            0
        } else {
            i * size - p
        },
        (i + 1) * size - p,
    )
}

/// The parameter that a partition gets under a method.
pub open spec fn partition_k(
    res: Seq<i32>,
    bs: nat,
    p: nat,
    po: nat,
    method: nat,
    i: int,
) -> nat {
    rice::best_k(partition(res, bs, p, po, i), rice::kmax_of(method))
}

/// The bits of the first `n` partitions of a level, each with its parameter
/// field and its best parameter.
pub open spec fn level_bits(
    res: Seq<i32>,
    bs: nat,
    p: nat,
    po: nat,
    method: nat,
    n: nat,
) -> nat
    decreases n,
{
    if n == 0 {
        0
    } else {
        level_bits(res, bs, p, po, method, (n - 1) as nat) + 4 + method + rice::rice_cost(
            partition(res, bs, p, po, n - 1),
            partition_k(res, bs, p, po, method, n - 1),
        )
    }
}

/// The bits of a whole level under a method.
pub open spec fn level_total(res: Seq<i32>, bs: nat, p: nat, po: nat, method: nat) -> nat {
    level_bits(res, bs, p, po, method, pow2(po))
}

/// The cheaper method for a level, method 0 on ties.
pub open spec fn level_method(res: Seq<i32>, bs: nat, p: nat, po: nat) -> nat {
    if level_total(res, bs, p, po, 1) < level_total(res, bs, p, po, 0) {
        1
    } else {
        0
    }
}

/// The bits of a level under its cheaper method.
pub open spec fn level_cost(res: Seq<i32>, bs: nat, p: nat, po: nat) -> nat {
    level_total(res, bs, p, po, level_method(res, bs, p, po))
}

/// The cheapest partition order from `lo` to `hi`, the lowest one on ties.
pub open spec fn best_order(res: Seq<i32>, bs: nat, p: nat, lo: nat, hi: nat) -> nat
    decreases hi - lo,
{
    if lo >= hi {
        hi
    } else {
        let b = best_order(res, bs, p, lo + 1, hi);
        if level_cost(res, bs, p, lo) <= level_cost(res, bs, p, b) {
            lo
        } else {
            b
        }
    }
}

/// A `bs`-sample block with `p` warm-up samples splits into `2^po` partitions,
/// none of them empty.
pub open spec fn splits(bs: nat, p: nat, po: nat) -> bool {
    bs % pow2(po) == 0 && bs / pow2(po) > p
}

/// The largest partition order from `po` on, up to 8, such that the block
/// splits at every step.
pub open spec fn max_order_from(bs: nat, p: nat, po: nat) -> nat
    decreases 8 - po,
{
    if po < 8 && splits(bs, p, po + 1) {
        max_order_from(bs, p, po + 1)
    } else {
        po
    }
}

/// The largest usable partition order of a block.
pub open spec fn max_order(bs: nat, p: nat) -> nat {
    max_order_from(bs, p, 0)
}

/// A plan for a residual body: coding method, partition order, one parameter
/// per partition, and the bits of the body.
#[verifier::ext_equal]
pub struct PlanModel {
    pub method: nat,
    pub order: nat,
    pub ks: Seq<u32>,
    pub bits: nat,
}

/// The plan for the residual `res` of a `bs`-sample block with `p` warm-up
/// samples.
pub open spec fn plan_of(res: Seq<i32>, bs: nat, p: nat) -> PlanModel {
    let po = best_order(res, bs, p, 0, max_order(bs, p));
    let method = level_method(res, bs, p, po);
    PlanModel {
        method,
        order: po,
        ks: Seq::new(pow2(po), |i: int| partition_k(res, bs, p, po, method, i) as u32),
        bits: level_total(res, bs, p, po, method),
    }
}

/// A plan fits a residual: its partitions tile the block and its parameters
/// are none of the escape codes.
pub open spec fn fits(plan: PlanModel, n: nat, bs: nat, p: nat) -> bool {
    &&& plan.method <= 1
    &&& plan.order <= 15
    &&& plan.ks.len() == pow2(plan.order)
    &&& forall|i: int| 0 <= i < plan.ks.len() ==> #[trigger] plan.ks[i] <= rice::kmax_of(plan.method)
    &&& bs % pow2(plan.order) == 0
    &&& p <= bs / pow2(plan.order)
    &&& n + p == bs
}

/// The first `n` partitions of a residual body: parameter, then Rice codes.
pub open spec fn body_bits(res: Seq<i32>, bs: nat, p: nat, plan: PlanModel, n: nat) -> Seq<bool>
    decreases n,
{
    if n == 0 {
        Seq::empty()
    } else {
        body_bits(res, bs, p, plan, (n - 1) as nat) + bits::field(
            plan.ks[n - 1] as int,
            4 + plan.method,
        ) + rice::rice_codes(partition(res, bs, p, plan.order, n - 1), plan.ks[n - 1] as nat)
    }
}

/// A residual coding plan: the coding method (0 = 4-bit Rice parameters, 1 =
/// Rice2 with 5-bit parameters), the partition order, one parameter per
/// partition, and the bits of the body.
pub struct ResidualPlan {
    pub method: u32,
    pub partition_order: u32,
    pub ks: Vec<u32>,
    pub bits: u64,
}

impl View for ResidualPlan {
    type V = PlanModel;

    open spec fn view(&self) -> PlanModel {
        PlanModel {
            method: self.method as nat,
            order: self.partition_order as nat,
            ks: self.ks@,
            bits: self.bits as nat,
        }
    }
}

// ---------------------------------------------------------------------------
// Geometry
// ---------------------------------------------------------------------------
/// Where the partitions of a residual lie.
pub proof fn lemma_partition_range(n: nat, bs: nat, p: nat, po: nat, i: int)
    requires
        n + p == bs,
        bs % pow2(po) == 0,
        p <= bs / pow2(po),
        0 <= i < pow2(po),
    ensures
        bs == pow2(po) * (bs / pow2(po)),
        0 <= (if i == 0 {
            0
        } else {
            i * (bs / pow2(po)) - p
        }) <= (i + 1) * (bs / pow2(po)) - p <= n,
        i * (bs / pow2(po)) + bs / pow2(po) == (i + 1) * (bs / pow2(po)),
{
    lemma_pow2_pos(po);
    let parts = pow2(po) as int;
    let size = bs as int / parts;
    lemma_fundamental_div_mod(bs as int, parts);
    assert((i + 1) * size <= parts * size && i * size + size == (i + 1) * size && (i > 0 ==> i
        * size >= size)) by (nonlinear_arith)
        requires
            0 <= i < parts,
            size >= 0,
    ;
}

pub proof fn lemma_partition_len(res: Seq<i32>, bs: nat, p: nat, po: nat, i: int)
    requires
        res.len() + p == bs,
        bs % pow2(po) == 0,
        p <= bs / pow2(po),
        0 <= i < pow2(po),
    ensures
        partition(res, bs, p, po, i).len() == (if i == 0 {
            bs / pow2(po) - p
        } else {
            (bs / pow2(po)) as int
        }),
        partition(res, bs, p, po, i).len() <= bs,
{
    lemma_partition_range(res.len(), bs, p, po, i);
    lemma_pow2_pos(po);
    assert(0 * (bs as int / pow2(po) as int) == 0);
}

/// A partition is the two partitions of the next finer level put together.
proof fn lemma_partition_merge(res: Seq<i32>, bs: nat, p: nat, po: nat, i: int)
    requires
        res.len() + p == bs,
        bs % pow2(po + 1) == 0,
        p <= bs / pow2(po + 1),
        0 <= i < pow2(po),
    ensures
        pow2(po + 1) == 2 * pow2(po),
        bs % pow2(po) == 0,
        p <= bs / pow2(po),
        partition(res, bs, p, po, i) == partition(res, bs, p, po + 1, 2 * i) + partition(
            res,
            bs,
            p,
            po + 1,
            2 * i + 1,
        ),
{
    lemma_pow2_pos(po);
    lemma_pow2_unfold(po + 1);
    let parts = pow2(po) as int;
    lemma_partition_range(res.len(), bs, p, po + 1, 2 * i);
    lemma_partition_range(res.len(), bs, p, po + 1, 2 * i + 1);
    let fine = bs as int / pow2(po + 1) as int;
    assert(bs == (2 * fine) * parts + 0) by (nonlinear_arith)
        requires
            bs == (2 * parts) * fine,
    ;
    lemma_fundamental_div_mod_converse(bs as int, parts, 2 * fine, 0);
    lemma_partition_range(res.len(), bs, p, po, i);
    let coarse = bs as int / parts;
    assert(i * coarse == (2 * i) * fine && (i + 1) * coarse == (2 * i + 2) * fine)
        by (nonlinear_arith)
        requires
            coarse == 2 * fine,
    ;
    assert(partition(res, bs, p, po, i) =~= partition(res, bs, p, po + 1, 2 * i) + partition(
        res,
        bs,
        p,
        po + 1,
        2 * i + 1,
    ));
}

/// A block that splits also splits into half as many partitions.
proof fn lemma_splits_down(bs: nat, p: nat, po: nat)
    requires
        splits(bs, p, po + 1),
    ensures
        splits(bs, p, po),
{
    lemma_pow2_pos(po);
    lemma_pow2_unfold(po + 1);
    let parts = pow2(po) as int;
    let fine = bs as int / pow2(po + 1) as int;
    lemma_fundamental_div_mod(bs as int, pow2(po + 1) as int);
    assert(bs == (2 * fine) * parts + 0) by (nonlinear_arith)
        requires
            bs == (2 * parts) * fine,
    ;
    lemma_fundamental_div_mod_converse(bs as int, parts, 2 * fine, 0);
}

/// `max_order` is the largest partition order up to 8 at which the block
/// splits (0 always is one).
pub proof fn lemma_max_order(bs: nat, p: nat, po: nat)
    requires
        po <= 8,
        splits(bs, p, po),
    ensures
        po <= max_order(bs, p),
{
    lemma_max_order_from(bs, p, po, 0);
}

proof fn lemma_max_order_from(bs: nat, p: nat, po: nat, from: nat)
    requires
        from <= po <= 8,
        splits(bs, p, po),
    ensures
        po <= max_order_from(bs, p, from),
    decreases po - from,
{
    if from < po {
        lemma_splits_between(bs, p, from + 1, po);
        lemma_max_order_from(bs, p, po, from + 1);
    } else {
        lemma_max_order_shape(bs, p, from);
    }
}

proof fn lemma_splits_between(bs: nat, p: nat, lo: nat, hi: nat)
    requires
        lo <= hi,
        splits(bs, p, hi),
    ensures
        splits(bs, p, lo),
    decreases hi - lo,
{
    if lo < hi {
        lemma_splits_between(bs, p, lo + 1, hi);
        lemma_splits_down(bs, p, lo);
    }
}

/// The largest order is at most 8, and 0 or one at which the block splits.
pub proof fn lemma_max_order_shape(bs: nat, p: nat, from: nat)
    requires
        from <= 8,
    ensures
        from <= max_order_from(bs, p, from) <= 8,
        max_order_from(bs, p, from) == from || splits(bs, p, max_order_from(bs, p, from)),
    decreases 8 - from,
{
    if from < 8 && splits(bs, p, from + 1) {
        lemma_max_order_shape(bs, p, from + 1);
    }
}

/// Every order up to the largest one tiles the block.
pub proof fn lemma_order_tiles(bs: nat, p: nat, po: nat)
    requires
        p <= bs,
        po <= max_order(bs, p),
    ensures
        bs % pow2(po) == 0,
        p <= bs / pow2(po),
        po <= 8,
{
    lemma2_to64();
    lemma_max_order_shape(bs, p, 0);
    if po > 0 {
        lemma_splits_between(bs, p, po, max_order(bs, p));
    }
}

/// The block splits into `2^po` partitions.
fn can_split(bs: usize, p: usize, po: u32) -> (r: bool)
    requires
        po <= 15,
    ensures
        r == splits(bs as nat, p as nat, po as nat),
{
    proof {
        lemma_pow2_pos(po as nat);
    }
    bs % arith::power(po) == 0 && arith::halve(bs, po) > p
}

/// Largest usable partition order for a `bs`-sample block with `p` warm-up
/// samples, capped at 8 (256 partitions).
pub fn max_partition_order(bs: usize, p: usize) -> (po: u32)
    ensures
        po == max_order(bs as nat, p as nat),
        po <= 8,
{
    let mut po: u32 = 0;
    while po < 8 && can_split(bs, p, po + 1)
        invariant
            po <= 8,
            max_order(bs as nat, p as nat) == max_order_from(bs as nat, p as nat, po as nat),
        decreases 8 - po,
    {
        po = po + 1;
    }
    po
}

// ---------------------------------------------------------------------------
// Planning
// ---------------------------------------------------------------------------
/// The quotient sums of every partition of a level.
spec fn sums_of_level(
    sums: Seq<[u64; 31]>,
    res: Seq<i32>,
    bs: nat,
    p: nat,
    po: nat,
) -> bool {
    &&& sums.len() == pow2(po)
    &&& forall|i: int, k: int|
        0 <= i < pow2(po) && 0 <= k < 31 ==> #[trigger] sums[i][k] == rice::rice_sum(
            partition(res, bs, p, po, i),
            k as nat,
        )
}

/// Cost one level from the quotient sums of its partitions, under both
/// methods (method 0 pays 4 bits per parameter but caps it at 14; Rice2 pays
/// 5 for parameters up to 30).
fn cost_level(
    sums: &Vec<[u64; 31]>,
    bs: usize,
    p: usize,
    po: u32,
    res: Ghost<Seq<i32>>,
) -> (plan: ResidualPlan)
    requires
        po <= 8,
        bs <= 0x1_0000,
        res@.len() + p == bs,
        bs as nat % pow2(po as nat) == 0,
        p <= bs as nat / pow2(po as nat),
        sums_of_level(sums@, res@, bs as nat, p as nat, po as nat),
    ensures
        plan.partition_order == po,
        plan.method == level_method(res@, bs as nat, p as nat, po as nat),
        plan.bits == level_cost(res@, bs as nat, p as nat, po as nat),
        plan.ks@ == Seq::new(
            pow2(po as nat),
            |i: int|
                partition_k(res@, bs as nat, p as nat, po as nat, plan.method as nat, i) as u32,
        ),
{
    let size: usize = arith::halve(bs, po);
    let n: usize = arith::power(po);
    let mut ks0: Vec<u32> = Vec::with_capacity(n);
    let mut ks1: Vec<u32> = Vec::with_capacity(n);
    let mut bits0: u64 = 0;
    let mut bits1: u64 = 0;
    let mut i: usize = 0;
    let ghost r = res@;
    let ghost b = bs as nat;
    let ghost q = p as nat;
    let ghost o = po as nat;
    proof {
        lemma2_to64();
        arith::lemma_pow2_monotone(o, 8);
    }
    while i < n
        invariant
            i <= n <= 256,
            n == pow2(o),
            size == b / pow2(o),
            b == bs,
            q == p,
            bs <= 0x1_0000,
            r.len() + q == b,
            b % pow2(o) == 0,
            q <= b / pow2(o),
            sums_of_level(sums@, r, b, q, o),
            bits0 == level_bits(r, b, q, o, 0, i as nat),
            bits1 == level_bits(r, b, q, o, 1, i as nat),
            bits0 <= i * 0x4_0000_0000_0000,
            bits1 <= i * 0x4_0000_0000_0000,
            ks0@ == Seq::new(i as nat, |j: int| partition_k(r, b, q, o, 0, j) as u32),
            ks1@ == Seq::new(i as nat, |j: int| partition_k(r, b, q, o, 1, j) as u32),
        decreases n - i,
    {
        let cnt: u64 = (if i == 0 {
            size - p
        } else {
            size
        }) as u64;
        let ghost part = partition(r, b, q, o, i as int);
        proof {
            lemma_partition_len(r, b, q, o, i as int);
            assert forall|k: int| 0 <= k < 31 implies #[trigger] sums[i as int][k]
                == rice::rice_sum(part, k as nat) by {
                assert(sums@[i as int][k] == rice::rice_sum(part, k as nat));
            }
            rice::lemma_sums_of_run(sums[i as int], part, 30);
            rice::lemma_sums_of_run(sums[i as int], part, 14);
        }
        let (k1, kb1): (u32, u64) = rice::best_k_from_sums(&sums[i], cnt, rice::RICE_KMAX);
        let (k0, kb0): (u32, u64) = if k1 as usize <= rice::RICE_KMAX_M0 {
            proof {
                rice::lemma_best_k_small(part, 14, 30);
            }
            (k1, kb1)
        } else {
            rice::best_k_from_sums(&sums[i], cnt, rice::RICE_KMAX_M0)
        };
        proof {
            lemma_cost_bound(part, k0 as nat);
            lemma_cost_bound(part, k1 as nat);
        }
        ks0.push(k0);
        ks1.push(k1);
        bits0 = bits0 + 4 + kb0;
        bits1 = bits1 + 5 + kb1;
        i = i + 1;
        assert(ks0@ =~= Seq::new(i as nat, |j: int| partition_k(r, b, q, o, 0, j) as u32));
        assert(ks1@ =~= Seq::new(i as nat, |j: int| partition_k(r, b, q, o, 1, j) as u32));
    }
    if bits1 < bits0 {
        ResidualPlan { method: 1, partition_order: po, ks: ks1, bits: bits1 }
    } else {
        ResidualPlan { method: 0, partition_order: po, ks: ks0, bits: bits0 }
    }
}

proof fn lemma_cost_bound(res: Seq<i32>, k: nat)
    requires
        res.len() <= 0x1_0000,
        k <= 30,
    ensures
        rice::rice_cost(res, k) + 5 <= 0x4_0000_0000_0000,
{
    rice::lemma_rice_sum_bound(res, k);
    assert(res.len() * (1 + k) <= 0x1_0000 * 31) by (nonlinear_arith)
        requires
            res.len() <= 0x1_0000,
            k <= 30,
    ;
}

/// The quotient sums of the finest level.
fn finest_sums(res: &[i32], bs: usize, p: usize, po: u32) -> (sums: Vec<[u64; 31]>)
    requires
        po <= 8,
        bs <= 0x1_0000,
        res@.len() + p == bs,
        bs as nat % pow2(po as nat) == 0,
        p <= bs as nat / pow2(po as nat),
    ensures
        sums_of_level(sums@, res@, bs as nat, p as nat, po as nat),
{
    let size: usize = arith::halve(bs, po);
    let n: usize = arith::power(po);
    let mut sums: Vec<[u64; 31]> = Vec::with_capacity(n);
    let mut at: usize = 0;
    let mut i: usize = 0;
    let ghost r = res@;
    let ghost b = bs as nat;
    let ghost q = p as nat;
    let ghost o = po as nat;
    while i < n
        invariant
            i <= n,
            n == pow2(o),
            size == b / pow2(o),
            b == bs,
            q == p,
            r == res@,
            bs <= 0x1_0000,
            r.len() + q == b,
            b % pow2(o) == 0,
            q <= b / pow2(o),
            at == (if i == 0 {
                0
            } else {
                i * size - p
            }),
            sums@.len() == i,
            forall|j: int, k: int|
                0 <= j < i && 0 <= k < 31 ==> #[trigger] sums@[j][k] == rice::rice_sum(
                    partition(r, b, q, o, j),
                    k as nat,
                ),
        decreases n - i,
    {
        let cnt: usize = if i == 0 {
            size - p
        } else {
            size
        };
        proof {
            lemma_partition_range(r.len(), b, q, o, i as int);
            lemma_partition_len(r, b, q, o, i as int);
            assert(0 * size == 0);
        }
        let part: &[i32] = &res[at..at + cnt];
        assert(part@ =~= partition(r, b, q, o, i as int));
        proof {
            rice::lemma_rice_sum_bound(part@, 0);
        }
        sums.push(rice::rice_sums(part));
        at = at + cnt;
        i = i + 1;
    }
    sums
}

/// The quotient sums of the next coarser level: neighbours added up.
fn coarser_sums(
    fine: &Vec<[u64; 31]>,
    bs: usize,
    p: usize,
    po: u32,
    res: Ghost<Seq<i32>>,
) -> (sums: Vec<[u64; 31]>)
    requires
        po <= 7,
        bs <= 0x1_0000,
        res@.len() + p == bs,
        bs as nat % pow2((po + 1) as nat) == 0,
        p <= bs as nat / pow2((po + 1) as nat),
        sums_of_level(fine@, res@, bs as nat, p as nat, (po + 1) as nat),
    ensures
        sums_of_level(sums@, res@, bs as nat, p as nat, po as nat),
{
    let n: usize = arith::power(po);
    let mut sums: Vec<[u64; 31]> = Vec::with_capacity(n);
    let mut i: usize = 0;
    let ghost r = res@;
    let ghost b = bs as nat;
    let ghost q = p as nat;
    let ghost o = po as nat;
    proof {
        lemma_pow2_unfold(o + 1);
    }
    while i < n
        invariant
            i <= n <= 0x8000,
            n == pow2(o),
            pow2(o + 1) == 2 * pow2(o),
            b == bs,
            q == p,
            bs <= 0x1_0000,
            r.len() + q == b,
            b % pow2(o + 1) == 0,
            q <= b / pow2(o + 1),
            sums_of_level(fine@, r, b, q, o + 1),
            sums@.len() == i,
            forall|j: int, k: int|
                0 <= j < i && 0 <= k < 31 ==> #[trigger] sums@[j][k] == rice::rice_sum(
                    partition(r, b, q, o, j),
                    k as nat,
                ),
        decreases n - i,
    {
        let ghost x = partition(r, b, q, o + 1, 2 * i as int);
        let ghost y = partition(r, b, q, o + 1, 2 * i + 1);
        proof {
            lemma_partition_merge(r, b, q, o, i as int);
            lemma_partition_len(r, b, q, o + 1, 2 * i as int);
            lemma_partition_len(r, b, q, o + 1, 2 * i + 1);
            assert forall|k: int| 0 <= k < 31 implies #[trigger] fine[2 * i as int][k] + fine[2 * i
                + 1][k] <= u64::MAX by {
                assert(fine@[2 * i as int][k] == rice::rice_sum(x, k as nat));
                assert(fine@[2 * i + 1][k] == rice::rice_sum(y, k as nat));
                rice::lemma_rice_sum_bound(x, k as nat);
                rice::lemma_rice_sum_bound(y, k as nat);
            }
        }
        let both: [u64; 31] = rice::merge_sums(&fine[2 * i], &fine[2 * i + 1]);
        proof {
            assert forall|k: int| 0 <= k < 31 implies #[trigger] both[k] == rice::rice_sum(
                partition(r, b, q, o, i as int),
                k as nat,
            ) by {
                assert(fine@[2 * i as int][k] == rice::rice_sum(x, k as nat));
                assert(fine@[2 * i + 1][k] == rice::rice_sum(y, k as nat));
                rice::lemma_rice_sum_concat(x, y, k as nat);
            }
        }
        sums.push(both);
        i = i + 1;
    }
    sums
}

/// Choose the cheapest partition order and per-partition Rice parameters. All
/// orders are costed exactly from one pass over the residual: quotient sums
/// per finest partition, merged pairwise upward.
pub fn plan_partitions(res: &[i32], bs: usize, p: usize) -> (plan: ResidualPlan)
    requires
        bs <= 0x1_0000,
        res@.len() + p == bs,
    ensures
        plan@ == plan_of(res@, bs as nat, p as nat),
        fits(plan@, res@.len(), bs as nat, p as nat),
        plan.partition_order <= 8,
{
    let max_po: u32 = max_partition_order(bs, p);
    let ghost r = res@;
    let ghost b = bs as nat;
    let ghost q = p as nat;
    proof {
        lemma_order_tiles(b, q, max_po as nat);
    }
    let mut sums: Vec<[u64; 31]> = finest_sums(res, bs, p, max_po);
    let mut best: ResidualPlan = cost_level(&sums, bs, p, max_po, Ghost(r));
    let mut po: u32 = max_po;
    while po > 0
        invariant
            bs <= 0x1_0000,
            b == bs,
            q == p,
            r.len() + q == b,
            po <= max_po == max_order(b, q),
            max_po <= 8,
            sums_of_level(sums@, r, b, q, po as nat),
            best.partition_order == best_order(r, b, q, po as nat, max_po as nat),
            po <= best.partition_order <= max_po,
            best.method == level_method(r, b, q, best.partition_order as nat),
            best.bits == level_cost(r, b, q, best.partition_order as nat),
            best.ks@ == Seq::new(
                pow2(best.partition_order as nat),
                |i: int|
                    partition_k(
                        r,
                        b,
                        q,
                        best.partition_order as nat,
                        best.method as nat,
                        i,
                    ) as u32,
            ),
        decreases po,
    {
        let coarse: u32 = po - 1;
        proof {
            lemma_order_tiles(b, q, po as nat);
            lemma_order_tiles(b, q, coarse as nat);
            assert(coarse as nat + 1 == po as nat);
        }
        sums = coarser_sums(&sums, bs, p, coarse, Ghost(r));
        let level: ResidualPlan = cost_level(&sums, bs, p, coarse, Ghost(r));
        // Going down, ties go to the coarser level: the lowest order wins.
        if level.bits <= best.bits {
            best = level;
        }
        po = coarse;
    }
    proof {
        lemma_plan_fits(r, b, q);
        assert(best@ =~= plan_of(r, b, q));
    }
    best
}

pub proof fn lemma_best_order(res: Seq<i32>, bs: nat, p: nat, lo: nat, hi: nat)
    requires
        lo <= hi,
    ensures
        lo <= best_order(res, bs, p, lo, hi) <= hi,
        forall|po: nat|
            lo <= po <= hi ==> level_cost(res, bs, p, best_order(res, bs, p, lo, hi))
                <= #[trigger] level_cost(res, bs, p, po),
        forall|po: nat|
            lo <= po < best_order(res, bs, p, lo, hi) ==> level_cost(
                res,
                bs,
                p,
                best_order(res, bs, p, lo, hi),
            ) < #[trigger] level_cost(res, bs, p, po),
    decreases hi - lo,
{
    if lo < hi {
        lemma_best_order(res, bs, p, lo + 1, hi);
    }
}

/// The planner's plan fits its residual.
pub proof fn lemma_plan_fits(res: Seq<i32>, bs: nat, p: nat)
    requires
        res.len() + p == bs,
    ensures
        fits(plan_of(res, bs, p), res.len(), bs, p),
        plan_of(res, bs, p).order <= 8,
{
    let plan = plan_of(res, bs, p);
    lemma_best_order(res, bs, p, 0, max_order(bs, p));
    lemma_order_tiles(bs, p, plan.order);
    assert forall|i: int| 0 <= i < plan.ks.len() implies #[trigger] plan.ks[i] <= rice::kmax_of(
        plan.method,
    ) by {
        rice::lemma_best_k(partition(res, bs, p, plan.order, i), rice::kmax_of(plan.method), 0);
    }
}

// ---------------------------------------------------------------------------
// The body
// ---------------------------------------------------------------------------
/// Write a partitioned Rice residual body.
pub fn write_partitioned_residual(
    bw: &mut BitWriter,
    res: &[i32],
    bs: usize,
    p: usize,
    plan: &ResidualPlan,
)
    requires
        old(bw).wf(),
        fits(plan@, res@.len(), bs as nat, p as nat),
    ensures
        final(bw).wf(),
        final(bw)@ == old(bw)@ + body_bits(
            res@,
            bs as nat,
            p as nat,
            plan@,
            pow2(plan.partition_order as nat),
        ),
{
    let po: u32 = plan.partition_order;
    let size: usize = arith::halve(bs, po);
    let n: usize = arith::power(po);
    let param_bits: u32 = 4 + plan.method;
    let ghost start = bw@;
    let ghost r = res@;
    let ghost b = bs as nat;
    let ghost q = p as nat;
    let ghost o = po as nat;
    let ghost m = plan@;
    let mut at: usize = 0;
    let mut i: usize = 0;
    assert(bw@ =~= start + body_bits(r, b, q, m, 0));
    while i < n
        invariant
            i <= n,
            n == pow2(o),
            size == b / pow2(o),
            b == bs,
            q == p,
            r == res@,
            m == plan@,
            o == m.order,
            param_bits == 4 + m.method,
            fits(m, r.len(), b, q),
            at == (if i == 0 {
                0
            } else {
                i * size - p
            }),
            bw.wf(),
            bw@ == start + body_bits(r, b, q, m, i as nat),
        decreases n - i,
    {
        let cnt: usize = if i == 0 {
            size - p
        } else {
            size
        };
        let k: u32 = plan.ks[i];
        let ghost part = partition(r, b, q, o, i as int);
        let ghost before = bw@;
        proof {
            lemma_partition_range(r.len(), b, q, o, i as int);
            assert(0 * size == 0);
            assert(m.ks[i as int] <= rice::kmax_of(m.method));
        }
        bw.write_bits(k as u64, param_bits);
        let ghost head = bw@;
        let end: usize = at + cnt;
        let ghost from = at;
        assert(part.len() == cnt);
        assert(bw@ =~= head + rice::rice_codes(part.take(0), k as nat));
        while at < end
            invariant
                from <= at <= end <= r.len(),
                r == res@,
                k <= 30,
                part == r.subrange(from as int, end as int),
                bw.wf(),
                bw@ == head + rice::rice_codes(part.take(at - from), k as nat),
            decreases end - at,
        {
            let ghost now = bw@;
            rice::write_rice(bw, res[at], k);
            at = at + 1;
            proof {
                assert(part.take(at - from).drop_last() =~= part.take(at - 1 - from));
                assert(part.take(at - from).last() == r[at - 1]);
                assert(bw@ =~= head + rice::rice_codes(part.take(at - from), k as nat));
            }
        }
        proof {
            assert(part.take(cnt as int) =~= part);
            assert(bw@ =~= start + body_bits(r, b, q, m, (i + 1) as nat));
        }
        i = i + 1;
    }
}

/// The body of a plan takes exactly the bits that the partitions cost.
proof fn lemma_body_len(res: Seq<i32>, bs: nat, p: nat, plan: PlanModel, n: nat)
    requires
        fits(plan, res.len(), bs, p),
        n <= pow2(plan.order),
        forall|i: int|
            0 <= i < plan.ks.len() ==> #[trigger] plan.ks[i] == partition_k(
                res,
                bs,
                p,
                plan.order,
                plan.method,
                i,
            ),
    ensures
        body_bits(res, bs, p, plan, n).len() == level_bits(
            res,
            bs,
            p,
            plan.order,
            plan.method,
            n,
        ),
    decreases n,
{
    broadcast use bits::group_bits_len;

    if n > 0 {
        lemma_body_len(res, bs, p, plan, (n - 1) as nat);
        assert(plan.ks[n - 1] == partition_k(res, bs, p, plan.order, plan.method, n - 1));
        rice::lemma_rice_cost_exact(
            partition(res, bs, p, plan.order, n - 1),
            plan.ks[n - 1] as nat,
        );
    }
}

/// The planner's cost is exact: the body that is written for its plan takes
/// the bits that the plan says.
pub proof fn lemma_plan_bits_exact(res: Seq<i32>, bs: nat, p: nat)
    requires
        res.len() + p == bs,
    ensures
        body_bits(res, bs, p, plan_of(res, bs, p), pow2(plan_of(res, bs, p).order)).len()
            == plan_of(res, bs, p).bits,
{
    let plan = plan_of(res, bs, p);
    lemma_plan_fits(res, bs, p);
    assert forall|i: int| 0 <= i < plan.ks.len() implies #[trigger] plan.ks[i] == partition_k(
        res,
        bs,
        p,
        plan.order,
        plan.method,
        i,
    ) by {
        rice::lemma_best_k(partition(res, bs, p, plan.order, i), rice::kmax_of(plan.method), 0);
    }
    lemma_body_len(res, bs, p, plan, pow2(plan.order));
}

/// No body of a level is shorter than the level's own choice of parameters.
proof fn lemma_level_bits_least(res: Seq<i32>, bs: nat, p: nat, plan: PlanModel, n: nat)
    requires
        fits(plan, res.len(), bs, p),
        n <= pow2(plan.order),
    ensures
        level_bits(res, bs, p, plan.order, plan.method, n) <= body_bits(res, bs, p, plan, n).len(),
    decreases n,
{
    broadcast use bits::group_bits_len;

    if n > 0 {
        lemma_level_bits_least(res, bs, p, plan, (n - 1) as nat);
        let part = partition(res, bs, p, plan.order, n - 1);
        let k = plan.ks[n - 1] as nat;
        assert(plan.ks[n - 1] <= rice::kmax_of(plan.method));
        rice::lemma_rice_cost_exact(part, k);
        rice::lemma_best_k(part, rice::kmax_of(plan.method), k);
    }
}

/// The planner is exhaustive: no method, partition order up to the largest one
/// and choice of parameters gives a shorter body than its plan.
pub proof fn lemma_plan_optimal(res: Seq<i32>, bs: nat, p: nat, other: PlanModel)
    requires
        res.len() + p == bs,
        fits(other, res.len(), bs, p),
        other.order <= max_order(bs, p),
    ensures
        plan_of(res, bs, p).bits <= body_bits(res, bs, p, other, pow2(other.order)).len(),
{
    lemma_best_order(res, bs, p, 0, max_order(bs, p));
    lemma_level_bits_least(res, bs, p, other, pow2(other.order));
    assert(level_cost(res, bs, p, other.order) <= level_total(
        res,
        bs,
        p,
        other.order,
        other.method,
    ));
}

/// A plan's bits stay far from the limits of a machine word.
pub proof fn lemma_plan_bits_bound(res: Seq<i32>, bs: nat, p: nat)
    requires
        res.len() + p == bs,
    ensures
        plan_of(res, bs, p).bits <= 4 + res.len() * 0x1_0000_0000,
{
    broadcast use bits::group_bits_len;

    lemma2_to64();
    let plain = PlanModel { method: 0, order: 0, ks: seq![0u32], bits: 0 };
    assert(bs / 1 == bs);
    lemma_plan_optimal(res, bs, p, plain);
    let part = partition(res, bs, p, 0, 0);
    lemma_partition_len(res, bs, p, 0, 0);
    rice::lemma_rice_cost_exact(part, 0);
    rice::lemma_rice_sum_bound(part, 0);
    assert(body_bits(res, bs, p, plain, 0) =~= Seq::<bool>::empty());
    assert(body_bits(res, bs, p, plain, 1).len() == 4 + rice::rice_cost(part, 0));
    assert(part.len() == res.len());
    assert(part.len() * (1 + 0nat) == part.len()) by (nonlinear_arith);
}

/// On ties the planner takes the lowest partition order, four-bit parameters,
/// and the lowest parameters: a lower order, four-bit parameters where it takes
/// five-bit ones, or a lower parameter would cost more.
pub proof fn lemma_plan_ties(res: Seq<i32>, bs: nat, p: nat, other: PlanModel, i: int, k: nat)
    requires
        res.len() + p == bs,
        fits(other, res.len(), bs, p),
    ensures
        ({
            let plan = plan_of(res, bs, p);
            let len = body_bits(res, bs, p, other, pow2(other.order)).len();
            &&& other.order < plan.order ==> plan.bits < len
            &&& other.order == plan.order && other.method == 0 && plan.method == 1 ==> plan.bits
                < len
            &&& 0 <= i < plan.ks.len() && k < plan.ks[i] ==> rice::rice_cost(
                partition(res, bs, p, plan.order, i),
                plan.ks[i] as nat,
            ) < rice::rice_cost(partition(res, bs, p, plan.order, i), k)
        }),
{
    let plan = plan_of(res, bs, p);
    lemma_best_order(res, bs, p, 0, max_order(bs, p));
    lemma_level_bits_least(res, bs, p, other, pow2(other.order));
    if other.order < plan.order {
        assert(level_cost(res, bs, p, plan.order) < level_cost(res, bs, p, other.order));
        assert(level_cost(res, bs, p, other.order) <= level_total(
            res,
            bs,
            p,
            other.order,
            other.method,
        ));
    }
    if 0 <= i < plan.ks.len() && k < plan.ks[i] {
        let part = partition(res, bs, p, plan.order, i);
        let f = |k: int| rice::rice_cost(part, k as nat) as int;
        arith::lemma_argmin(f, rice::kmax_of(plan.method));
        assert(f(plan.ks[i] as int) < f(k as int));
    }
}

} // verus!
