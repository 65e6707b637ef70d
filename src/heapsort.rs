//! Heapsort: build a max-heap in place, then repeatedly move its root behind it.
use vstd::prelude::*;
use crate::common::{sorted, swap};

verus! {

/// The node whose child is `i` in a heap laid out in an array.
fn parent(i: usize) -> (r: usize)
    requires
        1 <= i < usize::MAX,
    ensures
        r == (i - 1) / 2,
{
    (i + 1) / 2 - 1
}

/// The left child of node `i`.
fn left(i: usize) -> (r: usize)
    requires
        2 * i + 2 <= usize::MAX,
    ensures
        r == 2 * i + 1,
{
    (i + 1) * 2 - 1
}

/// The right child of node `i`.
fn right(i: usize) -> (r: usize)
    requires
        2 * i + 2 <= usize::MAX,
    ensures
        r == 2 * i + 2,
{
    (i + 1) * 2
}

/// Node `k` of the heap made of the first `n` entries is at least each of its children.
pub open spec fn heap_at(s: Seq<i64>, n: int, k: int) -> bool {
    &&& (2 * k + 1 < n ==> s[2 * k + 1] <= s[k])
    &&& (2 * k + 2 < n ==> s[2 * k + 2] <= s[k])
}

/// The first `n` entries form a max-heap.
pub open spec fn is_heap(s: Seq<i64>, n: int) -> bool {
    forall|k: int| 0 <= k < n ==> #[trigger] heap_at(s, n, k)
}

/// Node `x` lies in the subtree of node `i`.
pub open spec fn desc(x: int, i: int) -> bool
    decreases x,
{
    x == i || (x > i && x > 0 && desc((x - 1) / 2, i))
}

proof fn lemma_desc_below(x: int, l: int)
    requires
        0 <= l,
        desc(x, l),
    ensures
        x == l || x >= 2 * l + 1,
    decreases x,
{
    if x != l {
        lemma_desc_below((x - 1) / 2, l);
    }
}

proof fn lemma_desc_trans(x: int, l: int, i: int)
    requires
        0 <= i,
        desc(x, l),
        desc(l, i),
    ensures
        desc(x, i),
    decreases x,
{
    if x != l {
        lemma_desc_trans((x - 1) / 2, l, i);
        lemma_desc_below(l, i);
    }
}

/// The root of a heap is at least each of its entries.
proof fn lemma_root_max(s: Seq<i64>, n: int, x: int)
    requires
        is_heap(s, n),
        0 <= x < n,
    ensures
        s[x] <= s[0],
    decreases x,
{
    if x > 0 {
        let p = (x - 1) / 2;
        lemma_root_max(s, n, p);
        assert(heap_at(s, n, p));
    }
}

/// Lets the entry at `i` sink into the subtree below it until that subtree of the first
/// `n` entries is a heap; the subtrees below `i` must be heaps already.
fn heapify(a: &mut [i64], n: usize, i: usize)
    requires
        n <= old(a)@.len(),
        i < n,
        forall|k: int| i < k < n ==> #[trigger] heap_at(old(a)@, n as int, k),
    ensures
        final(a)@.len() == old(a)@.len(),
        final(a)@.to_multiset() == old(a)@.to_multiset(),
        forall|k: int| i <= k < n ==> #[trigger] heap_at(final(a)@, n as int, k),
        forall|x: int| 0 <= x < old(a)@.len() && (x >= n || !desc(x, i as int)) ==> #[trigger] final(a)@[x] == old(a)@[x],
        ({
            let o = old(a)@;
            let m = final(a)@[i as int];
            &&& o[i as int] <= m
            &&& (2 * i + 1 < n ==> o[2 * i + 1] <= m)
            &&& (2 * i + 2 < n ==> o[2 * i + 2] <= m)
            &&& (m == o[i as int] || (2 * i + 1 < n && m == o[2 * i + 1]) || (2 * i + 2 < n && m == o[2 * i + 2]))
        }),
    decreases n - i,
{
    let ghost o = a@;
    let has_l = i < n / 2;
    let has_r = i < (n - 1) / 2;
    let mut largest = i;
    if has_l {
        let l = left(i);
        if a[l] > a[i] {
            largest = l;
        }
    }
    if has_r {
        let r = right(i);
        if a[r] > a[largest] {
            largest = r;
        }
    }
    if largest != i {
        swap(a, largest, i);
        let ghost s = a@;
        proof {
            assert forall|k: int| largest < k < n implies #[trigger] heap_at(s, n as int, k) by {
                assert(heap_at(o, n as int, k));
            }
        }
        heapify(a, n, largest);
        proof {
            let f = a@;
            let li = largest as int;
            assert(!desc(i as int, li)) by {
                if desc(i as int, li) {
                    lemma_desc_below(i as int, li);
                }
            }
            assert(f[i as int] == o[li]);
            assert(heap_at(o, n as int, li));
            assert forall|k: int| i <= k < n implies #[trigger] heap_at(f, n as int, k) by {
                if k == i {
                    let other = if li == 2 * i + 1 { 2 * i + 2 } else { 2 * i + 1 };
                    if other < n {
                        assert(!desc(other, li)) by {
                            if desc(other, li) {
                                lemma_desc_below(other, li);
                            }
                        }
                        assert(f[other] == s[other]);
                    }
                } else if k < li {
                    assert(!desc(k, li)) by {
                        if desc(k, li) {
                            lemma_desc_below(k, li);
                        }
                    }
                    if 2 * k + 1 < n {
                        assert(!desc(2 * k + 1, li)) by {
                            if desc(2 * k + 1, li) {
                                lemma_desc_below((2 * k + 1 - 1) / 2, li);
                            }
                        }
                        assert(f[2 * k + 1] == s[2 * k + 1]);
                    }
                    if 2 * k + 2 < n {
                        assert(!desc(2 * k + 2, li)) by {
                            if desc(2 * k + 2, li) {
                                lemma_desc_below((2 * k + 2 - 1) / 2, li);
                            }
                        }
                        assert(f[2 * k + 2] == s[2 * k + 2]);
                    }
                    assert(heap_at(o, n as int, k));
                }
            }
            assert forall|x: int| 0 <= x < o.len() && (x >= n || !desc(x, i as int)) implies #[trigger] f[x] == o[x] by {
                if x < n && desc(x, li) {
                    assert(desc(li, i as int)) by {
                        assert(desc((li - 1) / 2, i as int));
                    }
                    lemma_desc_trans(x, li, i as int);
                }
                if x != li && x != i {
                    assert(s[x] == o[x]);
                }
                if x == li {
                    assert(desc(li, i as int)) by {
                        assert(desc((li - 1) / 2, i as int));
                    }
                }
            }
        }
    }
}

/// Turns `a` into a max-heap, from the last node with a child back to the root.
fn init_heap(a: &mut [i64])
    requires
        old(a)@.len() >= 2,
    ensures
        final(a)@.len() == old(a)@.len(),
        final(a)@.to_multiset() == old(a)@.to_multiset(),
        is_heap(final(a)@, final(a)@.len() as int),
{
    let n = a.len();
    let last_parent = parent(n - 1);
    let mut i = last_parent + 1;
    while i > 0
        invariant
            n == a@.len(),
            n >= 2,
            i <= last_parent + 1,
            last_parent == (n - 2) / 2,
            a@.to_multiset() == old(a)@.to_multiset(),
            forall|k: int| i <= k < n ==> #[trigger] heap_at(a@, n as int, k),
        decreases i,
    {
        i = i - 1;
        heapify(a, n, i);
    }
}

/// Sorts `a` in place with a max-heap.
pub fn heap_sort(a: &mut [i64])
    ensures
        final(a)@.len() == old(a)@.len(),
        sorted(final(a)@),
        final(a)@.to_multiset() == old(a)@.to_multiset(),
{
    if a.len() <= 1 {
        proof {
            assert(sorted(a@));
        }
        return;
    }
    init_heap(a);
    let n = a.len();
    let mut i = n - 1;
    while i >= 1
        invariant
            n == a@.len(),
            i < n,
            a@.to_multiset() == old(a)@.to_multiset(),
            is_heap(a@, i + 1),
            forall|x: int, y: int| i < x <= y < n ==> a@[x] <= a@[y],
            forall|x: int, y: int| 0 <= x <= i < y < n ==> a@[x] <= a@[y],
        decreases i,
    {
        let ghost h = a@;
        swap(a, 0, i);
        let ghost s = a@;
        proof {
            assert forall|k: int| 0 < k < i implies #[trigger] heap_at(s, i as int, k) by {
                assert(heap_at(h, i + 1, k));
            }
            assert forall|x: int| 0 <= x < i implies s[x] <= s[i as int] by {
                lemma_root_max(h, i + 1, x);
                if x == 0 {
                    lemma_root_max(h, i + 1, i as int);
                }
            }
        }
        heapify(a, i, 0);
        proof {
            let f = a@;
            assert forall|x: int| 0 <= x < n && x >= i implies #[trigger] f[x] == s[x] by {}
            assert(f[0] <= s[i as int]) by {
                if 1 < i {
                    assert(s[1] <= s[i as int]);
                }
                if 2 < i {
                    assert(s[2] <= s[i as int]);
                }
            }
            assert forall|x: int| 0 <= x < i implies f[x] <= f[i as int] by {
                lemma_root_max(f, i as int, x);
            }
        }
        i = i - 1;
    }
}

} // verus!
