//! Quicksort with the last entry, or an entry drawn at random, as the pivot.
use vstd::prelude::*;
use vstd::seq_lib::{lemma_multiset_commutative, to_multiset_contains};
use crate::common::{random_index, sorted, swap};

verus! {

/// Splits `a` around its last entry (the pivot): the entries not greater than the pivot
/// come first, then the pivot, then the greater entries. Returns the pivot's index.
fn partition(a: &mut [i64]) -> (q: usize)
    requires
        old(a)@.len() > 1,
    ensures
        final(a)@.len() == old(a)@.len(),
        final(a)@.to_multiset() == old(a)@.to_multiset(),
        q < final(a)@.len(),
        final(a)@[q as int] == old(a)@.last(),
        forall|k: int| 0 <= k < q ==> final(a)@[k] <= final(a)@[q as int],
        forall|k: int| q < k < final(a)@.len() ==> final(a)@[q as int] < final(a)@[k],
{
    let last = a.len() - 1;
    let pivot = a[last];
    let mut i: usize = 0;
    let mut j: usize = 0;
    while j < last
        invariant
            a@.len() == old(a)@.len(),
            last == a@.len() - 1,
            i <= j <= last,
            a@[last as int] == pivot,
            pivot == old(a)@.last(),
            a@.to_multiset() == old(a)@.to_multiset(),
            forall|k: int| 0 <= k < i ==> a@[k] <= pivot,
            forall|k: int| i <= k < j ==> pivot < a@[k],
        decreases last - j,
    {
        if a[j] <= pivot {
            swap(a, i, j);
            i = i + 1;
        }
        j = j + 1;
    }
    swap(a, i, last);
    i
}

/// Splits `a` around the entry at `i`, as `partition` does around the last entry.
pub fn partition_by(a: &mut [i64], i: usize) -> (q: usize)
    requires
        old(a)@.len() > 1,
        i < old(a)@.len(),
    ensures
        final(a)@.len() == old(a)@.len(),
        final(a)@.to_multiset() == old(a)@.to_multiset(),
        q < final(a)@.len(),
        final(a)@[q as int] == old(a)@[i as int],
        forall|k: int| 0 <= k < q ==> final(a)@[k] <= final(a)@[q as int],
        forall|k: int| q < k < final(a)@.len() ==> final(a)@[q as int] < final(a)@[k],
{
    let last = a.len() - 1;
    swap(a, i, last);
    partition(a)
}

/// Splits `a` around an entry drawn at random.
pub fn randomized_partition(a: &mut [i64]) -> (q: usize)
    requires
        1 < old(a)@.len() <= i64::MAX,
    ensures
        final(a)@.len() == old(a)@.len(),
        final(a)@.to_multiset() == old(a)@.to_multiset(),
        q < final(a)@.len(),
        forall|k: int| 0 <= k < q ==> final(a)@[k] <= final(a)@[q as int],
        forall|k: int| q < k < final(a)@.len() ==> final(a)@[q as int] < final(a)@[k],
{
    let q = random_index(a.len());
    partition_by(a, q)
}

/// How quicksort picks its pivot.
#[derive(Clone, Copy, Debug, PartialEq, Eq, Structural)]
pub enum PartitionBy {
    Last,
    Random,
}

/// Every entry of `s` is at most `x`.
pub open spec fn all_le(s: Seq<i64>, x: i64) -> bool {
    forall|k: int| 0 <= k < s.len() ==> s[k] <= x
}

/// Every entry of `s` is at least `x`.
pub open spec fn all_ge(s: Seq<i64>, x: i64) -> bool {
    forall|k: int| 0 <= k < s.len() ==> x <= s[k]
}

/// Bounds on every entry carry over to any arrangement of the same entries.
pub proof fn lemma_bounds_kept(s: Seq<i64>, t: Seq<i64>, x: i64)
    requires
        s.to_multiset() == t.to_multiset(),
    ensures
        all_le(s, x) ==> all_le(t, x),
        all_ge(s, x) ==> all_ge(t, x),
{
    assert forall|k: int| 0 <= k < t.len() implies s.contains(#[trigger] t[k]) by {
        to_multiset_contains(t, t[k]);
        to_multiset_contains(s, t[k]);
    }
}

/// Sorts `a`: splits it around a pivot, then sorts the entries on either side.
pub fn quick_sort(a: &mut [i64], partition_type: PartitionBy)
    requires
        partition_type == PartitionBy::Random ==> old(a)@.len() <= i64::MAX,
    ensures
        final(a)@.len() == old(a)@.len(),
        sorted(final(a)@),
        final(a)@.to_multiset() == old(a)@.to_multiset(),
    decreases old(a)@.len(),
{
    if a.len() <= 1 {
        proof {
            assert(sorted(a@));
        }
        return;
    }
    let q = match partition_type {
        PartitionBy::Last => partition(a),
        PartitionBy::Random => randomized_partition(a),
    };
    let ghost s1 = a@;
    let ghost l;
    let ghost h;
    {
        let (lo, rest) = a.split_at_mut(q);
        quick_sort(lo, partition_type);
        let (_pivot, hi) = rest.split_at_mut(1);
        proof {
            assert(hi@ =~= s1.subrange(q + 1, s1.len() as int));
        }
        quick_sort(hi, partition_type);
        proof {
            l = lo@;
            h = hi@;
        }
    }
    proof {
        let p = s1[q as int];
        let l1 = s1.subrange(0, q as int);
        let h1 = s1.subrange(q + 1, s1.len() as int);
        assert(s1 =~= l1 + seq![p] + h1);
        assert(a@ =~= l + seq![p] + h);
        assert(all_le(l1, p));
        assert(all_ge(h1, p)) by {
            assert forall|k: int| 0 <= k < h1.len() implies p <= h1[k] by {
                assert(h1[k] == s1[q + 1 + k]);
            }
        }
        lemma_bounds_kept(l1, l, p);
        lemma_bounds_kept(h1, h, p);
        lemma_multiset_commutative(l1 + seq![p], h1);
        lemma_multiset_commutative(l1, seq![p]);
        lemma_multiset_commutative(l + seq![p], h);
        lemma_multiset_commutative(l, seq![p]);
        let s = a@;
        assert forall|x: int, y: int| 0 <= x <= y < s.len() implies s[x] <= s[y] by {
            if x < q && y > q {
                assert(s[x] <= p);
                assert(p <= s[y]);
            } else if x < q && y == q {
                assert(s[x] <= p);
            } else if x == q && y > q {
                assert(p <= s[y]);
            } else if x > q {
                assert(h[x - q - 1] <= h[y - q - 1]);
            } else if y < q {
                assert(l[x] <= l[y]);
            }
        }
    }
}

} // verus!
