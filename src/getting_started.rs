//! Quadratic and divide-and-conquer sorts: bubble sort, insertion sort, merge sort.
use vstd::prelude::*;
use vstd::seq_lib::{lemma_multiset_commutative, to_multiset_build};
use crate::common::{sorted, swap};

verus! {

/// Sorts `a` by letting the least remaining entry bubble down to the front, one
/// position at a time.
pub fn bubble_sort(a: &mut [i64])
    ensures
        final(a)@.len() == old(a)@.len(),
        sorted(final(a)@),
        final(a)@.to_multiset() == old(a)@.to_multiset(),
{
    let n = a.len();
    if n <= 1 {
        proof {
            assert(sorted(a@));
        }
        return;
    }
    let mut i: usize = 0;
    while i < n - 1
        invariant
            a@.len() == n,
            n > 1,
            i <= n - 1,
            a@.to_multiset() == old(a)@.to_multiset(),
            forall|k: int, m: int| 0 <= k < i && k < m < n ==> a@[k] <= a@[m],
        decreases n - 1 - i,
    {
        let mut j: usize = n - 1;
        while j > i
            invariant
                a@.len() == n,
                i < n - 1,
                i <= j < n,
                a@.to_multiset() == old(a)@.to_multiset(),
                forall|k: int, m: int| 0 <= k < i && k < m < n ==> a@[k] <= a@[m],
                forall|m: int| j <= m < n ==> a@[j as int] <= a@[m],
            decreases j,
        {
            if a[j] < a[j - 1] {
                swap(a, j, j - 1);
            }
            j = j - 1;
        }
        i = i + 1;
    }
}

/// Sorts `a` by taking each entry in turn and moving it left past the greater entries
/// before it.
pub fn insertion_sort(a: &mut [i64])
    ensures
        final(a)@.len() == old(a)@.len(),
        sorted(final(a)@),
        final(a)@.to_multiset() == old(a)@.to_multiset(),
{
    let n = a.len();
    let mut j: usize = 1;
    if n == 0 {
        proof {
            assert(sorted(a@));
        }
        return;
    }
    while j < n
        invariant
            a@.len() == n,
            1 <= j <= n,
            a@.to_multiset() == old(a)@.to_multiset(),
            forall|p: int, q: int| 0 <= p <= q < j ==> a@[p] <= a@[q],
        decreases n - j,
    {
        let mut i: usize = j;
        while i > 0 && a[i - 1] > a[i]
            invariant
                a@.len() == n,
                i <= j < n,
                a@.to_multiset() == old(a)@.to_multiset(),
                forall|p: int, q: int| 0 <= p <= q <= j && p != i && q != i ==> a@[p] <= a@[q],
                forall|q: int| i < q <= j ==> a@[i as int] < a@[q],
            decreases i,
        {
            swap(a, i - 1, i);
            i = i - 1;
        }
        proof {
            assert forall|p: int, q: int| 0 <= p <= q <= j implies a@[p] <= a@[q] by {
                if p == i && q != i {
                } else if q == i && p != i {
                    if p < i - 1 {
                        assert(a@[p] <= a@[i - 1]);
                    }
                }
            }
        }
        j = j + 1;
    }
}

/// Appends to `out` the entries of the sorted `a` and `b`, merged into one sorted run;
/// of two equal entries the one from `b` comes first.
fn merge(a: &[i64], b: &[i64], out: &mut Vec<i64>)
    requires
        sorted(a@),
        sorted(b@),
        a@.len() + b@.len() <= usize::MAX,
    ensures
        final(out)@.len() == old(out)@.len() + a@.len() + b@.len(),
        final(out)@.subrange(0, old(out)@.len() as int) == old(out)@,
        sorted(final(out)@.subrange(old(out)@.len() as int, final(out)@.len() as int)),
        final(out)@.subrange(old(out)@.len() as int, final(out)@.len() as int).to_multiset()
            == a@.to_multiset().add(b@.to_multiset()),
{
    let ghost o = out@;
    let mut i: usize = 0;
    let mut j: usize = 0;
    let total = a.len() + b.len();
    let mut step: usize = 0;
    proof {
        broadcast use vstd::seq_lib::group_to_multiset_ensures;
        assert(out@.subrange(o.len() as int, out@.len() as int) =~= Seq::<i64>::empty());
        assert(a@.subrange(0, 0) =~= Seq::<i64>::empty());
        assert(b@.subrange(0, 0) =~= Seq::<i64>::empty());
        assert(Seq::<i64>::empty().to_multiset() =~= vstd::multiset::Multiset::empty());
        assert(out@.subrange(0, o.len() as int) =~= o);
    }
    while step < total
        invariant
            step == i + j,
            i <= a@.len(),
            j <= b@.len(),
            total == a@.len() + b@.len(),
            sorted(a@),
            sorted(b@),
            out@.len() == o.len() + step,
            out@.subrange(0, o.len() as int) == o,
            sorted(out@.subrange(o.len() as int, out@.len() as int)),
            out@.subrange(o.len() as int, out@.len() as int).to_multiset()
                == a@.subrange(0, i as int).to_multiset().add(b@.subrange(0, j as int).to_multiset()),
            step > 0 && i < a@.len() ==> out@.last() <= a@[i as int],
            step > 0 && j < b@.len() ==> out@.last() <= b@[j as int],
        decreases total - step,
    {
        let ghost m0 = out@.subrange(o.len() as int, out@.len() as int);
        if j == b.len() || i < a.len() && a[i] < b[j] {
            let x = a[i];
            out.push(x);
            proof {
                assert(a@.subrange(0, i + 1) =~= a@.subrange(0, i as int).push(x));
                to_multiset_build(a@.subrange(0, i as int), x);
                to_multiset_build(m0, x);
                assert(out@.subrange(o.len() as int, out@.len() as int) =~= m0.push(x));
                if i + 1 < a@.len() {
                    assert(a@[i as int] <= a@[i + 1]);
                }
            }
            i = i + 1;
        } else {
            let x = b[j];
            out.push(x);
            proof {
                assert(b@.subrange(0, j + 1) =~= b@.subrange(0, j as int).push(x));
                to_multiset_build(b@.subrange(0, j as int), x);
                to_multiset_build(m0, x);
                assert(out@.subrange(o.len() as int, out@.len() as int) =~= m0.push(x));
                if j + 1 < b@.len() {
                    assert(b@[j as int] <= b@[j + 1]);
                }
            }
            j = j + 1;
        }
        proof {
            let m1 = out@.subrange(o.len() as int, out@.len() as int);
            assert(out@.subrange(0, o.len() as int) =~= o);
            assert forall|p: int, q: int| 0 <= p <= q < m1.len() implies m1[p] <= m1[q] by {
                if q == m1.len() - 1 && p < q {
                    assert(m0[p] <= m0.last());
                }
            }
        }
        step = step + 1;
    }
    proof {
        assert(a@.subrange(0, i as int) =~= a@);
        assert(b@.subrange(0, j as int) =~= b@);
    }
}

/// Sorts `a` by sorting each half, then merging the two halves.
pub fn merge_sort(a: &mut [i64])
    ensures
        final(a)@.len() == old(a)@.len(),
        sorted(final(a)@),
        final(a)@.to_multiset() == old(a)@.to_multiset(),
    decreases old(a)@.len(),
{
    if a.len() <= 1 {
        proof {
            assert(sorted(a@));
        }
        return;
    }
    let mid = a.len() / 2;
    let ghost s0 = a@;
    let ghost l;
    let ghost h;
    {
        let (lo, hi) = a.split_at_mut(mid);
        merge_sort(lo);
        merge_sort(hi);
        proof {
            l = lo@;
            h = hi@;
        }
    }
    proof {
        assert(a@ == l + h);
        assert(l =~= a@.subrange(0, mid as int));
        assert(h =~= a@.subrange(mid as int, a@.len() as int));
        assert(s0 =~= s0.subrange(0, mid as int) + s0.subrange(mid as int, s0.len() as int));
        lemma_multiset_commutative(s0.subrange(0, mid as int), s0.subrange(mid as int, s0.len() as int));
        lemma_multiset_commutative(l, h);
        assert(a@ =~= l + h);
        assert(l.to_multiset() == s0.subrange(0, mid as int).to_multiset());
        assert(h.to_multiset() == s0.subrange(mid as int, s0.len() as int).to_multiset());
    }
    let mut temp: Vec<i64> = Vec::with_capacity(a.len());
    merge(&a[0..mid], &a[mid..a.len()], &mut temp);
    proof {
        assert(temp@.subrange(0, temp@.len() as int) =~= temp@);
    }
    let n = a.len();
    let mut k: usize = 0;
    while k < n
        invariant
            n == a@.len(),
            temp@.len() == n,
            k <= n,
            forall|x: int| 0 <= x < k ==> a@[x] == temp@[x],
        decreases n - k,
    {
        a[k] = temp[k];
        k = k + 1;
    }
    proof {
        assert(a@ =~= temp@);
    }
}

} // verus!
