//! Selection of the entry of a given rank: randomized quickselect, and the
//! median-of-medians selection that needs no luck.
use vstd::prelude::*;
use vstd::seq_lib::{lemma_multiset_commutative, to_multiset_contains};
use crate::getting_started::insertion_sort;
use crate::quicksort::{all_ge, all_le, lemma_bounds_kept, partition_by, randomized_partition};

verus! {

/// `s` holds its entry of rank `i` at index `i`: nothing before it is greater and
/// nothing after it is smaller.
pub open spec fn ranked_at(s: Seq<i64>, i: int) -> bool {
    &&& 0 <= i < s.len()
    &&& forall|k: int| 0 <= k < i ==> s[k] <= s[i]
    &&& forall|k: int| i < k < s.len() ==> s[i] <= s[k]
}

/// Once `s` has been split around index `q`, putting either side in rank order around
/// `i` (the other side and the pivot staying put) puts all of `t` in rank order around `i`.
proof fn lemma_combine(s: Seq<i64>, t: Seq<i64>, q: int, i: int)
    requires
        0 <= q < s.len(),
        0 <= i < s.len(),
        t.len() == s.len(),
        t[q] == s[q],
        forall|k: int| 0 <= k < q ==> s[k] <= s[q],
        forall|k: int| q < k < s.len() ==> s[q] < s[k],
        i < q ==> t.subrange(q, t.len() as int) == s.subrange(q, s.len() as int),
        i < q ==> t.subrange(0, q).to_multiset() == s.subrange(0, q).to_multiset(),
        i < q ==> ranked_at(t.subrange(0, q), i),
        i > q ==> t.subrange(0, q + 1) == s.subrange(0, q + 1),
        i > q ==> t.subrange(q + 1, t.len() as int).to_multiset() == s.subrange(q + 1, s.len() as int).to_multiset(),
        i > q ==> ranked_at(t.subrange(q + 1, t.len() as int), i - q - 1),
        i == q ==> t == s,
    ensures
        ranked_at(t, i),
        t.to_multiset() == s.to_multiset(),
{
    let p = s[q];
    let l0 = s.subrange(0, q);
    let h0 = s.subrange(q + 1, s.len() as int);
    let l1 = t.subrange(0, q);
    let h1 = t.subrange(q + 1, t.len() as int);
    assert(s =~= l0 + seq![p] + h0);
    assert(t =~= l1 + seq![p] + h1);
    lemma_multiset_commutative(l0 + seq![p], h0);
    lemma_multiset_commutative(l0, seq![p]);
    lemma_multiset_commutative(l1 + seq![p], h1);
    lemma_multiset_commutative(l1, seq![p]);
    assert(all_le(l0, p));
    assert(all_ge(h0, p)) by {
        assert forall|k: int| 0 <= k < h0.len() implies p <= h0[k] by {
            assert(h0[k] == s[q + 1 + k]);
        }
    }
    if i < q {
        assert(h1 =~= h0) by {
            assert(h1 =~= t.subrange(q, t.len() as int).subrange(1, t.len() - q));
            assert(h0 =~= s.subrange(q, s.len() as int).subrange(1, s.len() - q));
        }
        lemma_bounds_kept(l0, l1, p);
        assert forall|k: int| 0 <= k < i implies t[k] <= t[i] by {
            assert(l1[k] <= l1[i]);
        }
        assert forall|k: int| i < k < t.len() implies t[i] <= t[k] by {
            if k < q {
                assert(l1[i] <= l1[k]);
            } else if k > q {
                assert(t[k] == h0[k - q - 1]);
            }
            assert(l1[i] <= p);
        }
    } else if i > q {
        assert(l1 =~= l0) by {
            assert(l1 =~= t.subrange(0, q + 1).subrange(0, q));
            assert(l0 =~= s.subrange(0, q + 1).subrange(0, q));
        }
        lemma_bounds_kept(h0, h1, p);
        let j = i - q - 1;
        assert(p <= h1[j]);
        assert forall|k: int| 0 <= k < i implies t[k] <= t[i] by {
            if k > q {
                assert(h1[k - q - 1] <= h1[j]);
            } else if k < q {
                assert(l1[k] <= p);
            }
        }
        assert forall|k: int| i < k < t.len() implies t[i] <= t[k] by {
            assert(h1[j] <= h1[k - q - 1]);
        }
    }
}

/// The entry of rank `i` in `a` (counting from 0): `a` is rearranged so that this entry
/// stands at index `i`, nothing before it is greater and nothing after it is smaller.
/// Pivots are drawn at random.
pub fn randomized_select(a: &mut [i64], i: usize) -> (r: i64)
    requires
        i < old(a)@.len() <= i64::MAX,
    ensures
        final(a)@.len() == old(a)@.len(),
        final(a)@.to_multiset() == old(a)@.to_multiset(),
        ranked_at(final(a)@, i as int),
        r == final(a)@[i as int],
    decreases old(a)@.len(),
{
    if a.len() == 1 {
        return a[0];
    }
    let q = randomized_partition(a);
    let ghost s = a@;
    if q == i {
        proof {
            lemma_combine(s, s, q as int, i as int);
        }
        a[q]
    } else if q < i {
        let r;
        let ghost part;
        {
            let (_lo, rest) = a.split_at_mut(q + 1);
            r = randomized_select(rest, i - q - 1);
            proof {
                part = rest@;
            }
        }
        proof {
            assert(part =~= a@.subrange(q + 1, a@.len() as int));
            assert(a@.subrange(0, q + 1) =~= s.subrange(0, q + 1));
            lemma_combine(s, a@, q as int, i as int);
        }
        r
    } else {
        let r;
        let ghost part;
        {
            let (lo, _hi) = a.split_at_mut(q);
            r = randomized_select(lo, i);
            proof {
                part = lo@;
            }
        }
        proof {
            assert(part =~= a@.subrange(0, q as int));
            assert(a@.subrange(q as int, a@.len() as int) =~= s.subrange(q as int, s.len() as int));
            lemma_combine(s, a@, q as int, i as int);
        }
        r
    }
}

/// An equal arrangement holds the same entries.
proof fn lemma_same_entries(s: Seq<i64>, t: Seq<i64>, x: i64)
    requires
        s.to_multiset() == t.to_multiset(),
    ensures
        s.contains(x) == t.contains(x),
{
    to_multiset_contains(s, x);
    to_multiset_contains(t, x);
}

/// The entry of rank `i` in `a` (counting from 0), as `randomized_select` finds it, but
/// with the median of the medians of groups of five as the pivot.
pub fn select(a: &mut [i64], i: usize) -> (r: i64)
    requires
        i < old(a)@.len(),
    ensures
        final(a)@.len() == old(a)@.len(),
        final(a)@.to_multiset() == old(a)@.to_multiset(),
        ranked_at(final(a)@, i as int),
        r == final(a)@[i as int],
    decreases old(a)@.len(),
{
    if a.len() == 1 {
        return a[0];
    }
    let n = a.len();
    let mut medians: Vec<i64> = Vec::new();
    let mut start: usize = 0;
    while start < n
        invariant
            a@.len() == n,
            n >= 2,
            start <= n,
            a@.to_multiset() == old(a)@.to_multiset(),
            start == 0 ==> medians@.len() == 0,
            start > 0 ==> 1 <= medians@.len() < start,
            forall|t: int| 0 <= t < medians@.len() ==> a@.contains(#[trigger] medians@[t]),
        decreases n - start,
    {
        let end = if n - start >= 5 {
            start + 5
        } else {
            n
        };
        let ghost pre = a@;
        let m;
        let ghost sorted_chunk;
        {
            let (_head, tail) = a.split_at_mut(start);
            let (chunk, _rest) = tail.split_at_mut(end - start);
            proof {
                assert(chunk@ =~= pre.subrange(start as int, end as int));
            }
            insertion_sort(chunk);
            proof {
                sorted_chunk = chunk@;
            }
            m = chunk[(end - start) / 2];
        }
        proof {
            let h = pre.subrange(0, start as int);
            let c = pre.subrange(start as int, end as int);
            let t = pre.subrange(end as int, n as int);
            assert(pre =~= h + c + t);
            assert(a@ =~= h + sorted_chunk + t);
            lemma_multiset_commutative(h + c, t);
            lemma_multiset_commutative(h, c);
            lemma_multiset_commutative(h + sorted_chunk, t);
            lemma_multiset_commutative(h, sorted_chunk);
            assert(a@[start + (end - start) / 2] == m);
            assert forall|x: i64| pre.contains(x) implies a@.contains(x) by {
                lemma_same_entries(pre, a@, x);
            }
        }
        medians.push(m);
        start = end;
    }
    let mid = medians.len() / 2;
    let ghost meds = medians@;
    let m_of_m = select(medians.as_mut_slice(), mid);
    proof {
        lemma_same_entries(meds, medians@, m_of_m);
        assert(medians@.contains(m_of_m)) by {
            assert(medians@[mid as int] == m_of_m);
        }
        let t = choose|t: int| 0 <= t < meds.len() && meds[t] == m_of_m;
        assert(a@.contains(meds[t]));
    }
    let mut idx: usize = 0;
    while a[idx] != m_of_m
        invariant
            a@.len() == n,
            idx < n,
            a@.contains(m_of_m),
            forall|k: int| 0 <= k < idx ==> a@[k] != m_of_m,
        decreases n - idx,
    {
        idx = idx + 1;
        proof {
            if idx == n {
                let k = choose|k: int| 0 <= k < a@.len() && a@[k] == m_of_m;
                assert(a@[k] != m_of_m);
            }
        }
    }
    let q = partition_by(a, idx);
    let ghost s = a@;
    if q == i {
        proof {
            lemma_combine(s, s, q as int, i as int);
        }
        a[q]
    } else if q < i {
        let r;
        let ghost part;
        {
            let (_lo, rest) = a.split_at_mut(q + 1);
            r = select(rest, i - q - 1);
            proof {
                part = rest@;
            }
        }
        proof {
            assert(part =~= a@.subrange(q + 1, a@.len() as int));
            assert(a@.subrange(0, q + 1) =~= s.subrange(0, q + 1));
            lemma_combine(s, a@, q as int, i as int);
        }
        r
    } else {
        let r;
        let ghost part;
        {
            let (lo, _hi) = a.split_at_mut(q);
            r = select(lo, i);
            proof {
                part = lo@;
            }
        }
        proof {
            assert(part =~= a@.subrange(0, q as int));
            assert(a@.subrange(q as int, a@.len() as int) =~= s.subrange(q as int, s.len() as int));
            lemma_combine(s, a@, q as int, i as int);
        }
        r
    }
}

} // verus!
