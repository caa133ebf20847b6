//! Roll simulation and keep/drop selection.
//!
//! A roll draws one value per die into a pool (growing it after each maximum
//! value when exploding is on), selects the kept dice with the keep rule,
//! and totals them. Randomness enters only through [`draw_in_range`]; all
//! the logic around it is verified for every value a draw can yield.

use crate::notation::{DieSides, DieSpec};
use crate::sorting::{
    lemma_sorted_asc_unique, lemma_sorted_desc_unique, sort_asc, sort_desc, sorted_asc,
    sorted_desc,
};
use rand::Rng;
use vstd::multiset::Multiset;
use vstd::prelude::*;

verus! {

/// No explosion extends a pool past this length; a machine bound (a pool of
/// this many dice already holds gigabytes) far beyond any physical run.
pub const POOL_CAP: usize = 0x2000_0000;

/// The longest pool [`evaluate`] accepts; totals of longer pools could
/// outgrow the machine's integers.
pub const MAX_POOL_LEN: usize = 0x4000_0000;

/// A bound on the magnitude of a single die value: a standard die shows at
/// most its sides, a `u32`, and a Fudge die at most one.
pub const MAX_DIE_VALUE: i64 = 0x1_0000_0000;

/// The keep/drop selection rule of a roll. The variants are mutually
/// exclusive by construction; `All` keeps the whole pool.
#[derive(Clone, Copy, PartialEq, Eq, Structural, Debug)]
pub enum KeepRule {
    All,
    Highest(usize),
    Lowest(usize),
    DropHighest(usize),
    DropLowest(usize),
}

/// The options that shape one roll.
#[derive(Clone, Copy, PartialEq, Eq, Structural, Debug)]
pub struct RollOptions {
    pub exploding: bool,
    pub keep: KeepRule,
}

/// The outcome of one roll: the full pool, the kept dice, and the total of
/// the kept dice plus the modifier.
pub struct RollResult {
    pub pool: Vec<i64>,
    pub kept: Vec<i64>,
    pub total: i64,
}

impl RollResult {
    /// The kept dice are always drawn from the pool: never more of them, and
    /// never a value more often than the pool holds it.
    pub open spec fn wf(self) -> bool {
        &&& self.kept@.len() <= self.pool@.len()
        &&& forall|x: i64|
            self.kept@.to_multiset().count(x) <= #[trigger] self.pool@.to_multiset().count(x)
    }
}

/// The smallest value a die can show.
pub open spec fn die_min(die: DieSides) -> int {
    match die {
        DieSides::Standard(_) => 1,
        DieSides::Fudge => -1,
    }
}

/// The largest value a die can show.
pub open spec fn die_max(die: DieSides) -> int {
    match die {
        DieSides::Standard(s) => s as int,
        DieSides::Fudge => 1,
    }
}

/// Whether rolls of this die explode: exploding must be asked for, and a
/// one-sided standard die never explodes (every face is its maximum).
pub open spec fn spec_explodes(die: DieSides, exploding: bool) -> bool {
    exploding && match die {
        DieSides::Standard(s) => s > 1,
        DieSides::Fudge => true,
    }
}

/// How many values of the pool show the die's maximum.
pub open spec fn count_max(s: Seq<i64>, die: DieSides) -> int
    decreases s.len(),
{
    if s.len() == 0 {
        0
    } else {
        count_max(s.drop_last(), die) + if s.last() as int == die_max(die) {
            1int
        } else {
            0int
        }
    }
}

/// The sum of the values of a pool.
pub open spec fn sum_of(s: Seq<i64>) -> int
    decreases s.len(),
{
    if s.len() == 0 {
        0
    } else {
        sum_of(s.drop_last()) + s.last()
    }
}

/// How many dice a keep rule retains out of a pool of `n`: drop rules
/// subtract from the pool, saturating at zero.
pub open spec fn keep_count_of(keep: KeepRule, n: int) -> int {
    match keep {
        KeepRule::All => n,
        KeepRule::Highest(k) => k as int,
        KeepRule::Lowest(k) => k as int,
        KeepRule::DropHighest(k) => if n >= k {
            n - k
        } else {
            0
        },
        KeepRule::DropLowest(k) => if n >= k {
            n - k
        } else {
            0
        },
    }
}

/// Whether a keep rule retains the largest values (so selection sorts the
/// pool into descending order) rather than the smallest.
pub open spec fn keeps_highest(keep: KeepRule) -> bool {
    match keep {
        KeepRule::All => true,
        KeepRule::Highest(_) => true,
        KeepRule::Lowest(_) => false,
        KeepRule::DropHighest(_) => false,
        KeepRule::DropLowest(_) => true,
    }
}

/// How a finished result relates to its own pool: when the keep count falls
/// short of the pool, the pool stands sorted (descending for keep-highest
/// rules, ascending otherwise) and the kept dice are its first keep-count
/// values; otherwise the kept dice are the whole pool in rolled order. The
/// total is the sum of the kept dice plus the modifier.
pub open spec fn selection_ok(
    keep: KeepRule,
    rpool: Seq<i64>,
    rkept: Seq<i64>,
    rtotal: int,
    modifier: int,
) -> bool {
    let kc = keep_count_of(keep, rpool.len() as int);
    &&& (if kc < rpool.len() {
        &&& (if keeps_highest(keep) {
            sorted_desc(rpool)
        } else {
            sorted_asc(rpool)
        })
        &&& rkept == rpool.subrange(0, kc)
    } else {
        rkept == rpool
    })
    &&& rtotal == sum_of(rkept) + modifier
}

/// What evaluating `pool` must yield: the result's pool is `pool` itself
/// when nothing is filtered, and a reordering of it otherwise, and the
/// selection facts of [`selection_ok`] hold. Together with the sorted-
/// rearrangement uniqueness of [`lemma_eval_deterministic`] this pins the
/// result down completely.
pub open spec fn valid_eval(
    pool: Seq<i64>,
    keep: KeepRule,
    modifier: int,
    rpool: Seq<i64>,
    rkept: Seq<i64>,
    rtotal: int,
) -> bool {
    &&& rpool.len() == pool.len()
    &&& (if keep_count_of(keep, pool.len() as int) < pool.len() {
        rpool.to_multiset() == pool.to_multiset()
    } else {
        rpool == pool
    })
    &&& selection_ok(keep, rpool, rkept, rtotal, modifier)
}

/// Bounded values give a bounded sum.
pub proof fn lemma_sum_bound(s: Seq<i64>, b: int)
    requires
        b >= 0,
        forall|k: int| 0 <= k < s.len() ==> -b <= #[trigger] s[k] <= b,
    ensures
        -(s.len() * b) <= sum_of(s) <= s.len() * b,
    decreases s.len(),
{
    if s.len() > 0 {
        lemma_sum_bound(s.drop_last(), b);
        assert((s.len() - 1) * b + b == s.len() * b) by (nonlinear_arith);
    }
}

proof fn lemma_count_max_push(s: Seq<i64>, x: i64, die: DieSides)
    ensures
        count_max(s.push(x), die) == count_max(s, die) + if x as int == die_max(die) {
            1int
        } else {
            0int
        },
{
    assert(s.push(x).drop_last() =~= s);
    assert(s.push(x).last() == x);
}

/// The number of maximum values depends only on which values the pool holds,
/// not on their order.
pub proof fn lemma_count_max_is_count(s: Seq<i64>, die: DieSides)
    requires
        -0x8000_0000_0000_0000 <= die_max(die) < 0x8000_0000_0000_0000,
    ensures
        count_max(s, die) == s.to_multiset().count(die_max(die) as i64),
    decreases s.len(),
{
    broadcast use vstd::multiset::group_multiset_axioms;

    if s.len() == 0 {
        s.to_multiset_ensures();
        assert(s =~= Seq::<i64>::empty());
        assert(s.to_multiset() =~= Multiset::<i64>::empty());
    } else {
        let t = s.drop_last();
        lemma_count_max_is_count(t, die);
        t.to_multiset_ensures();
        assert(t.push(s.last()) =~= s);
        assert(s.to_multiset() == t.to_multiset().insert(s.last()));
    }
}

/// Everything a finished roll promises of its result: the kept dice come
/// from the pool, the selection facts of [`selection_ok`] hold, every pool
/// value lies within the die's faces, and the pool's length is the die
/// count — grown, when the roll explodes, by one value per maximum shown
/// (up to the machine bound [`POOL_CAP`]).
pub open spec fn roll_outcome_ok(dspec: DieSpec, opts: RollOptions, r: RollResult) -> bool {
    &&& r.wf()
    &&& selection_ok(opts.keep, r.pool@, r.kept@, r.total as int, dspec.modifier as int)
    &&& forall|k: int|
        0 <= k < r.pool@.len() ==> die_min(dspec.sides) <= #[trigger] r.pool@[k] as int <= die_max(
            dspec.sides,
        )
    &&& (!spec_explodes(dspec.sides, opts.exploding) ==> r.pool@.len() == dspec.count as int)
    &&& (spec_explodes(dspec.sides, opts.exploding) ==> {
        &&& dspec.count as int <= r.pool@.len() <= POOL_CAP as int + dspec.count as int
        &&& (r.pool@.len() == dspec.count as int + count_max(r.pool@, dspec.sides)
            || r.pool@.len() >= POOL_CAP as int)
    })
}

/// Relies on rand's `thread_rng` and `Rng::gen_range`: a draw from the
/// nonempty inclusive range `low..=high` lies in that range. Nothing more is
/// assumed; every call may yield any value the range admits.
#[verifier::external_body]
fn draw_in_range(low: i64, high: i64) -> (r: i64)
    requires
        low <= high,
    ensures
        low <= r <= high,
{
    rand::thread_rng().gen_range(low..=high)
}

/// Draw the pool of one roll: one value per die, and, when the die explodes,
/// one more value after each maximum shown, chaining while the maximum
/// recurs — up to the machine bound [`POOL_CAP`], past which no chain is
/// extended. Short of that bound the pool holds exactly one extra value per
/// maximum shown.
pub fn make_pool(count: u32, die: DieSides, exploding: bool) -> (pool: Vec<i64>)
    requires
        count as int <= POOL_CAP as int,
        match die {
            DieSides::Standard(s) => s >= 1,
            DieSides::Fudge => true,
        },
    ensures
        forall|k: int|
            0 <= k < pool@.len() ==> die_min(die) <= #[trigger] pool@[k] as int <= die_max(die),
        !spec_explodes(die, exploding) ==> pool@.len() == count as int,
        spec_explodes(die, exploding) ==> {
            &&& count as int <= pool@.len() <= POOL_CAP as int + count as int
            &&& (pool@.len() == count as int + count_max(pool@, die) || pool@.len()
                >= POOL_CAP as int)
        },
{
    let explode = exploding && (match die {
        DieSides::Standard(s) => s > 1,
        DieSides::Fudge => true,
    });
    let (lo, hi): (i64, i64) = match die {
        DieSides::Standard(s) => (1, s as i64),
        DieSides::Fudge => (-1, 1),
    };
    let mut pool: Vec<i64> = Vec::new();
    let mut i: u32 = 0;
    while i < count
        invariant
            i <= count,
            count as int <= POOL_CAP as int,
            lo as int == die_min(die),
            hi as int == die_max(die),
            lo <= hi,
            explode == spec_explodes(die, exploding),
            forall|k: int| 0 <= k < pool@.len() ==> lo <= #[trigger] pool@[k] <= hi,
            !explode ==> pool@.len() == i as int,
            explode ==> i as int <= pool@.len() <= POOL_CAP as int + i as int,
            explode ==> (pool@.len() == i as int + count_max(pool@, die) || pool@.len()
                >= POOL_CAP as int),
        decreases count - i,
    {
        let mut r = draw_in_range(lo, hi);
        proof {
            lemma_count_max_push(pool@, r, die);
        }
        pool.push(r);
        if explode {
            while r == hi && pool.len() < POOL_CAP
                invariant
                    lo as int == die_min(die),
                    hi as int == die_max(die),
                    lo <= hi,
                    explode == spec_explodes(die, exploding),
                    explode,
                    i < count,
                    count as int <= POOL_CAP as int,
                    forall|k: int| 0 <= k < pool@.len() ==> lo <= #[trigger] pool@[k] <= hi,
                    pool@.len() >= i as int + 1,
                    pool@.last() == r,
                    pool@.len() <= POOL_CAP as int + i as int + 1,
                    (pool@.len() + (if r as int == die_max(die) {
                        1int
                    } else {
                        0int
                    }) == i as int + 1 + count_max(pool@, die)) || pool@.len() >= POOL_CAP as int,
                decreases POOL_CAP - pool@.len(),
            {
                r = draw_in_range(lo, hi);
                proof {
                    lemma_count_max_push(pool@, r, die);
                }
                pool.push(r);
            }
        }
        i = i + 1;
    }
    pool
}

/// The total of a pool's values.
fn sum_values(v: &Vec<i64>) -> (s: i64)
    requires
        v@.len() <= MAX_POOL_LEN as int,
        forall|k: int|
            0 <= k < v@.len() ==> -(MAX_DIE_VALUE as int) <= #[trigger] v@[k] <= MAX_DIE_VALUE
                as int,
    ensures
        s as int == sum_of(v@),
        -(MAX_POOL_LEN as int * MAX_DIE_VALUE as int) <= s as int <= MAX_POOL_LEN as int
            * MAX_DIE_VALUE as int,
{
    let mut acc: i64 = 0;
    let mut k: usize = 0;
    proof {
        assert(v@.take(0) =~= Seq::<i64>::empty());
    }
    while k < v.len()
        invariant
            k <= v@.len(),
            v@.len() <= MAX_POOL_LEN as int,
            forall|j: int|
                0 <= j < v@.len() ==> -(MAX_DIE_VALUE as int) <= #[trigger] v@[j] <= MAX_DIE_VALUE
                    as int,
            acc as int == sum_of(v@.take(k as int)),
        decreases v@.len() - k,
    {
        proof {
            lemma_sum_bound(v@.take(k as int), MAX_DIE_VALUE as int);
            assert(k as int * MAX_DIE_VALUE as int <= MAX_POOL_LEN as int * MAX_DIE_VALUE as int)
                by (nonlinear_arith)
                requires
                    0 <= k as int <= MAX_POOL_LEN as int,
            ;
            assert(v@.take(k as int + 1).drop_last() =~= v@.take(k as int));
        }
        acc = acc + v[k];
        k = k + 1;
    }
    proof {
        assert(v@.take(k as int) =~= v@);
        lemma_sum_bound(v@, MAX_DIE_VALUE as int);
        assert(v@.len() * MAX_DIE_VALUE as int <= MAX_POOL_LEN as int * MAX_DIE_VALUE as int)
            by (nonlinear_arith)
            requires
                0 <= v@.len() <= MAX_POOL_LEN as int,
        ;
    }
    acc
}

/// The first `k` values of `v`, in order.
fn copy_prefix(v: &Vec<i64>, k: usize) -> (r: Vec<i64>)
    requires
        k <= v@.len(),
    ensures
        r@ == v@.subrange(0, k as int),
{
    let mut r: Vec<i64> = Vec::new();
    let mut t: usize = 0;
    while t < k
        invariant
            t <= k <= v@.len(),
            r@ == v@.subrange(0, t as int),
        decreases k - t,
    {
        r.push(v[t]);
        proof {
            assert(v@.subrange(0, t as int + 1) =~= v@.subrange(0, t as int).push(v@[t as int]));
        }
        t = t + 1;
    }
    r
}

/// Apply a keep rule to a pool and total the kept dice. When the keep count
/// falls short of the pool, the pool comes back sorted (descending for
/// keep-highest rules, ascending otherwise) with the kept dice as its
/// prefix; otherwise pool and kept are the input in its original order.
pub fn evaluate(pool: Vec<i64>, keep: KeepRule, modifier: i32) -> (r: RollResult)
    requires
        pool@.len() <= MAX_POOL_LEN as int,
        forall|k: int|
            0 <= k < pool@.len() ==> -(MAX_DIE_VALUE as int) <= #[trigger] pool@[k]
                <= MAX_DIE_VALUE as int,
    ensures
        valid_eval(pool@, keep, modifier as int, r.pool@, r.kept@, r.total as int),
        r.wf(),
{
    broadcast use vstd::multiset::group_multiset_axioms;

    let n = pool.len();
    let kc: usize = match keep {
        KeepRule::All => n,
        KeepRule::Highest(k) => k,
        KeepRule::Lowest(k) => k,
        KeepRule::DropHighest(k) => if n >= k {
            n - k
        } else {
            0
        },
        KeepRule::DropLowest(k) => if n >= k {
            n - k
        } else {
            0
        },
    };
    let high: bool = match keep {
        KeepRule::All => true,
        KeepRule::Highest(_) => true,
        KeepRule::Lowest(_) => false,
        KeepRule::DropHighest(_) => false,
        KeepRule::DropLowest(_) => true,
    };
    if kc < n {
        let sorted = if high {
            sort_desc(&pool)
        } else {
            sort_asc(&pool)
        };
        proof {
            sorted@.to_multiset_ensures();
            pool@.to_multiset_ensures();
            assert forall|k: int| 0 <= k < sorted@.len() implies -(MAX_DIE_VALUE as int)
                <= #[trigger] sorted@[k] <= MAX_DIE_VALUE as int by {
                assert(sorted@.contains(sorted@[k]));
                assert(sorted@.to_multiset().count(sorted@[k]) > 0);
                assert(pool@.contains(sorted@[k]));
            }
        }
        let kept = copy_prefix(&sorted, kc);
        let s = sum_values(&kept);
        let total = s + (modifier as i64);
        let r = RollResult { pool: sorted, kept, total };
        proof {
            let rest = r.pool@.subrange(kc as int, n as int);
            assert(r.pool@ =~= r.kept@ + rest);
            vstd::seq_lib::lemma_multiset_commutative(r.kept@, rest);
            assert forall|x: i64| r.kept@.to_multiset().count(x)
                <= #[trigger] r.pool@.to_multiset().count(x) by {
                assert(r.pool@.to_multiset().count(x) == r.kept@.to_multiset().count(x)
                    + rest.to_multiset().count(x));
            }
        }
        r
    } else {
        let kept = copy_prefix(&pool, n);
        proof {
            assert(pool@.subrange(0, n as int) =~= pool@);
        }
        let s = sum_values(&kept);
        let total = s + (modifier as i64);
        RollResult { pool, kept, total }
    }
}

/// Roll a parsed dice expression: draw the pool (exploding it when asked),
/// apply the keep rule, and total the kept dice plus the modifier.
pub fn roll(spec: &DieSpec, opts: &RollOptions) -> (r: RollResult)
    requires
        spec.wf(),
        spec.count as int <= POOL_CAP as int,
    ensures
        roll_outcome_ok(*spec, *opts, r),
{
    let pool = make_pool(spec.count, spec.sides, opts.exploding);
    let ghost gpool = pool@;
    proof {
        assert(die_max(spec.sides) <= MAX_DIE_VALUE as int);
        assert(die_min(spec.sides) >= -(MAX_DIE_VALUE as int));
    }
    let r = evaluate(pool, opts.keep, spec.modifier);
    proof {
        broadcast use vstd::multiset::group_multiset_axioms;

        r.pool@.to_multiset_ensures();
        gpool.to_multiset_ensures();
        if keep_count_of(opts.keep, gpool.len() as int) < gpool.len() {
            assert forall|k: int| 0 <= k < r.pool@.len() implies die_min(spec.sides)
                <= #[trigger] r.pool@[k] as int <= die_max(spec.sides) by {
                assert(r.pool@.contains(r.pool@[k]));
                assert(r.pool@.to_multiset().count(r.pool@[k]) > 0);
                assert(gpool.contains(r.pool@[k]));
            }
            lemma_count_max_is_count(r.pool@, spec.sides);
            lemma_count_max_is_count(gpool, spec.sides);
        }
    }
    r
}

/// A pool, a keep rule and a modifier admit exactly one evaluation result:
/// a sorted rearrangement of a pool is unique, so any two results that
/// [`valid_eval`] accepts coincide.
pub proof fn lemma_eval_deterministic(
    pool: Seq<i64>,
    keep: KeepRule,
    modifier: int,
    p1: Seq<i64>,
    k1: Seq<i64>,
    t1: int,
    p2: Seq<i64>,
    k2: Seq<i64>,
    t2: int,
)
    requires
        valid_eval(pool, keep, modifier, p1, k1, t1),
        valid_eval(pool, keep, modifier, p2, k2, t2),
    ensures
        p1 == p2,
        k1 == k2,
        t1 == t2,
{
    let kc = keep_count_of(keep, pool.len() as int);
    if kc < pool.len() {
        if keeps_highest(keep) {
            lemma_sorted_desc_unique(p1, p2);
        } else {
            lemma_sorted_asc_unique(p1, p2);
        }
        assert(k1 =~= k2);
    }
}

/// Keeping the highest `k` of a pool keeps exactly `k` dice, each of them at
/// least the value of every die that was not kept.
pub proof fn lemma_keep_highest_dominates(
    rpool: Seq<i64>,
    rkept: Seq<i64>,
    rtotal: int,
    modifier: int,
    k: usize,
)
    requires
        selection_ok(KeepRule::Highest(k), rpool, rkept, rtotal, modifier),
        k as int <= rpool.len(),
    ensures
        rkept.len() == k as int,
        forall|p: int, q: int|
            0 <= p < k as int && k as int <= q < rpool.len() ==> rkept[p] >= rpool[q],
{
    if (k as int) < rpool.len() {
        assert(forall|p: int| 0 <= p < k as int ==> rkept[p] == rpool[p]);
    }
}

/// Dropping the lowest `k` dice is the same rule as keeping the highest
/// `n - k`, with the keep count saturating at zero: the two rules accept
/// exactly the same results.
pub proof fn lemma_drop_lowest_is_keep_highest(
    pool: Seq<i64>,
    k: usize,
    modifier: int,
    rpool: Seq<i64>,
    rkept: Seq<i64>,
    rtotal: int,
)
    requires
        pool.len() <= usize::MAX,
    ensures
        keep_count_of(KeepRule::DropLowest(k), pool.len() as int) == if pool.len() >= k as int {
            pool.len() - k as int
        } else {
            0int
        },
        ({
            let nk: usize = if pool.len() >= k as int {
                (pool.len() - k as int) as usize
            } else {
                0usize
            };
            valid_eval(pool, KeepRule::DropLowest(k), modifier, rpool, rkept, rtotal)
                == valid_eval(pool, KeepRule::Highest(nk), modifier, rpool, rkept, rtotal)
        }),
{
}

/// A roll with no keep rule keeps the whole pool in rolled order, and its
/// total is the sum of the pool plus the modifier.
pub proof fn lemma_keep_all(rpool: Seq<i64>, rkept: Seq<i64>, rtotal: int, modifier: int)
    requires
        selection_ok(KeepRule::All, rpool, rkept, rtotal, modifier),
    ensures
        rkept == rpool,
        rtotal == sum_of(rpool) + modifier,
{
}

/// A plain roll — no exploding, nothing kept back: the pool holds exactly
/// one value per die, each within the die's faces, the whole pool is kept
/// in rolled order, and the total is its sum plus the modifier.
pub proof fn lemma_plain_roll_outcome(dspec: DieSpec, opts: RollOptions, r: RollResult)
    requires
        roll_outcome_ok(dspec, opts, r),
        opts.keep == KeepRule::All,
        !opts.exploding,
    ensures
        r.pool@.len() == dspec.count as int,
        forall|k: int|
            0 <= k < r.pool@.len() ==> die_min(dspec.sides) <= #[trigger] r.pool@[k] as int
                <= die_max(dspec.sides),
        r.kept@ == r.pool@,
        r.total as int == sum_of(r.pool@) + dspec.modifier as int,
{
}

} // verus!
