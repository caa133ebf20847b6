//! Ordering of roll pools.
//!
//! Keep/drop selection works on a pool sorted into descending order (for
//! keep-highest rules) or ascending order (for keep-lowest rules). A sorted
//! rearrangement of a pool is unique, so the sorts below are pinned down
//! completely by their contracts.

use vstd::multiset::Multiset;
use vstd::prelude::*;

verus! {

/// Every element is at least every later one.
pub open spec fn sorted_desc(s: Seq<i64>) -> bool {
    forall|p: int, q: int| 0 <= p <= q < s.len() ==> s[p] >= s[q]
}

/// Every element is at most every later one.
pub open spec fn sorted_asc(s: Seq<i64>) -> bool {
    forall|p: int, q: int| 0 <= p <= q < s.len() ==> s[p] <= s[q]
}

/// Two descending sequences over the same multiset of values are equal.
pub proof fn lemma_sorted_desc_unique(a: Seq<i64>, b: Seq<i64>)
    requires
        sorted_desc(a),
        sorted_desc(b),
        a.to_multiset() == b.to_multiset(),
    ensures
        a == b,
    decreases a.len(),
{
    a.to_multiset_ensures();
    b.to_multiset_ensures();
    assert(a.len() == b.len());
    if a.len() == 0 {
        assert(a =~= b);
    } else {
        let x = a[0];
        assert(a.contains(x)) by {
            assert(a[0] == x);
        }
        assert(b.to_multiset().count(x) > 0);
        assert(b.contains(x));
        let bi = choose|k: int| 0 <= k < b.len() && b[k] == x;
        assert(b[0] >= x);
        let y = b[0];
        assert(b.contains(y)) by {
            assert(b[0] == y);
        }
        assert(a.to_multiset().count(y) > 0);
        assert(a.contains(y));
        let ai = choose|k: int| 0 <= k < a.len() && a[k] == y;
        assert(a[0] >= y);
        assert(x == y);
        let a1 = a.drop_first();
        let b1 = b.drop_first();
        assert(a.remove(0) =~= a1);
        assert(b.remove(0) =~= b1);
        assert(a1.to_multiset() == a.to_multiset().remove(x));
        assert(b1.to_multiset() == b.to_multiset().remove(x));
        assert(sorted_desc(a1)) by {
            assert(forall|p: int, q: int|
                0 <= p <= q < a1.len() ==> a1[p] == a[p + 1] && a1[q] == a[q + 1]);
        }
        assert(sorted_desc(b1)) by {
            assert(forall|p: int, q: int|
                0 <= p <= q < b1.len() ==> b1[p] == b[p + 1] && b1[q] == b[q + 1]);
        }
        lemma_sorted_desc_unique(a1, b1);
        assert(a =~= b) by {
            assert(forall|k: int| 0 < k < a.len() ==> a[k] == a1[k - 1] && b[k] == b1[k - 1]);
        }
    }
}

/// Two ascending sequences over the same multiset of values are equal.
pub proof fn lemma_sorted_asc_unique(a: Seq<i64>, b: Seq<i64>)
    requires
        sorted_asc(a),
        sorted_asc(b),
        a.to_multiset() == b.to_multiset(),
    ensures
        a == b,
    decreases a.len(),
{
    a.to_multiset_ensures();
    b.to_multiset_ensures();
    assert(a.len() == b.len());
    if a.len() == 0 {
        assert(a =~= b);
    } else {
        let x = a[0];
        assert(a.contains(x)) by {
            assert(a[0] == x);
        }
        assert(b.to_multiset().count(x) > 0);
        assert(b.contains(x));
        let bi = choose|k: int| 0 <= k < b.len() && b[k] == x;
        assert(b[0] <= x);
        let y = b[0];
        assert(b.contains(y)) by {
            assert(b[0] == y);
        }
        assert(a.to_multiset().count(y) > 0);
        assert(a.contains(y));
        let ai = choose|k: int| 0 <= k < a.len() && a[k] == y;
        assert(a[0] <= y);
        assert(x == y);
        let a1 = a.drop_first();
        let b1 = b.drop_first();
        assert(a.remove(0) =~= a1);
        assert(b.remove(0) =~= b1);
        assert(a1.to_multiset() == a.to_multiset().remove(x));
        assert(b1.to_multiset() == b.to_multiset().remove(x));
        assert(sorted_asc(a1)) by {
            assert(forall|p: int, q: int|
                0 <= p <= q < a1.len() ==> a1[p] == a[p + 1] && a1[q] == a[q + 1]);
        }
        assert(sorted_asc(b1)) by {
            assert(forall|p: int, q: int|
                0 <= p <= q < b1.len() ==> b1[p] == b[p + 1] && b1[q] == b[q + 1]);
        }
        lemma_sorted_asc_unique(a1, b1);
        assert(a =~= b) by {
            assert(forall|k: int| 0 < k < a.len() ==> a[k] == a1[k - 1] && b[k] == b1[k - 1]);
        }
    }
}

/// A copy of `v` sorted into descending order.
pub fn sort_desc(v: &Vec<i64>) -> (r: Vec<i64>)
    ensures
        sorted_desc(r@),
        r@.to_multiset() == v@.to_multiset(),
        r@.len() == v@.len(),
{
    let mut r: Vec<i64> = Vec::new();
    let mut i: usize = 0;
    proof {
        assert(v@.take(0) =~= Seq::<i64>::empty());
        Seq::<i64>::empty().to_multiset_ensures();
        assert(Seq::<i64>::empty().to_multiset() =~= Multiset::<i64>::empty());
    }
    while i < v.len()
        invariant
            i <= v@.len(),
            sorted_desc(r@),
            r@.to_multiset() == v@.take(i as int).to_multiset(),
            r@.len() == i,
        decreases v@.len() - i,
    {
        let x = v[i];
        let mut j: usize = 0;
        while j < r.len() && r[j] >= x
            invariant
                j <= r@.len(),
                forall|k: int| 0 <= k < j ==> r@[k] >= x,
            decreases r@.len() - j,
        {
            j = j + 1;
        }
        let ghost old_r = r@;
        r.insert(j, x);
        proof {
            vstd::seq_lib::to_multiset_insert(old_r, j as int, x);
            v@.take(i as int).to_multiset_ensures();
            assert(v@.take(i as int + 1).drop_last() =~= v@.take(i as int));
            assert(v@.take(i as int + 1) =~= v@.take(i as int).push(v@[i as int]));
            assert(sorted_desc(r@)) by {
                assert(forall|k: int| 0 <= k < j ==> r@[k] == old_r[k]);
                assert(r@[j as int] == x);
                assert(forall|k: int| j < k < r@.len() ==> r@[k] == old_r[k - 1]);
                assert(forall|k: int| j <= k < old_r.len() ==> old_r[k] <= #[trigger] old_r[j as int]);
            }
        }
        i = i + 1;
    }
    proof {
        assert(v@.take(i as int) =~= v@);
    }
    r
}

/// A copy of `v` sorted into ascending order.
pub fn sort_asc(v: &Vec<i64>) -> (r: Vec<i64>)
    ensures
        sorted_asc(r@),
        r@.to_multiset() == v@.to_multiset(),
        r@.len() == v@.len(),
{
    let mut r: Vec<i64> = Vec::new();
    let mut i: usize = 0;
    proof {
        assert(v@.take(0) =~= Seq::<i64>::empty());
        Seq::<i64>::empty().to_multiset_ensures();
        assert(Seq::<i64>::empty().to_multiset() =~= Multiset::<i64>::empty());
    }
    while i < v.len()
        invariant
            i <= v@.len(),
            sorted_asc(r@),
            r@.to_multiset() == v@.take(i as int).to_multiset(),
            r@.len() == i,
        decreases v@.len() - i,
    {
        let x = v[i];
        let mut j: usize = 0;
        while j < r.len() && r[j] <= x
            invariant
                j <= r@.len(),
                forall|k: int| 0 <= k < j ==> r@[k] <= x,
            decreases r@.len() - j,
        {
            j = j + 1;
        }
        let ghost old_r = r@;
        r.insert(j, x);
        proof {
            vstd::seq_lib::to_multiset_insert(old_r, j as int, x);
            v@.take(i as int).to_multiset_ensures();
            assert(v@.take(i as int + 1).drop_last() =~= v@.take(i as int));
            assert(v@.take(i as int + 1) =~= v@.take(i as int).push(v@[i as int]));
            assert(sorted_asc(r@)) by {
                assert(forall|k: int| 0 <= k < j ==> r@[k] == old_r[k]);
                assert(r@[j as int] == x);
                assert(forall|k: int| j < k < r@.len() ==> r@[k] == old_r[k - 1]);
                assert(forall|k: int| j <= k < old_r.len() ==> old_r[k] >= #[trigger] old_r[j as int]);
            }
        }
        i = i + 1;
    }
    proof {
        assert(v@.take(i as int) =~= v@);
    }
    r
}

} // verus!
