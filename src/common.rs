//! What the sorting routines share: the meaning of "sorted", an in-place swap, and
//! the random draws that the randomized routines and the tests use.
use vstd::prelude::*;
use rand::Rng;

verus! {

/// The sequence never decreases.
pub open spec fn sorted(s: Seq<i64>) -> bool {
    forall|a: int, b: int| 0 <= a <= b < s.len() ==> s[a] <= s[b]
}

/// The sequence never increases.
pub open spec fn sorted_desc(s: Seq<i64>) -> bool {
    forall|a: int, b: int| 0 <= a <= b < s.len() ==> s[a] >= s[b]
}

/// Whether `arr` is in ascending order.
pub fn assert_asc(arr: &[i64]) -> (r: bool)
    ensures
        r == sorted(arr@),
{
    let mut i: usize = 1;
    while i < arr.len()
        invariant
            1 <= i,
            forall|a: int, b: int| 0 <= a <= b < i && b < arr@.len() ==> arr@[a] <= arr@[b],
        decreases arr.len() - i,
    {
        if arr[i - 1] > arr[i] {
            return false;
        }
        i = i + 1;
    }
    true
}

/// Whether `arr` is in descending order.
pub fn assert_desc(arr: &[i64]) -> (r: bool)
    ensures
        r == sorted_desc(arr@),
{
    let mut i: usize = 1;
    while i < arr.len()
        invariant
            1 <= i,
            forall|a: int, b: int| 0 <= a <= b < i && b < arr@.len() ==> arr@[a] >= arr@[b],
        decreases arr.len() - i,
    {
        if arr[i - 1] < arr[i] {
            return false;
        }
        i = i + 1;
    }
    true
}

/// Exchanges the entries at `i` and `j`.
pub fn swap(a: &mut [i64], i: usize, j: usize)
    requires
        i < old(a)@.len(),
        j < old(a)@.len(),
    ensures
        final(a)@ == old(a)@.update(i as int, old(a)@[j as int]).update(j as int, old(a)@[i as int]),
        final(a)@.to_multiset() == old(a)@.to_multiset(),
{
    let x = a[i];
    let y = a[j];
    a[i] = y;
    a[j] = x;
    proof {
        let s = old(a)@;
        let s1 = s.update(i as int, y);
        vstd::seq_lib::to_multiset_update(s, i as int, y);
        vstd::seq_lib::to_multiset_update(s1, j as int, x);
        if i == j {
            assert(s1.update(j as int, x) =~= s);
        } else {
            let m = s.to_multiset();
            vstd::seq_lib::to_multiset_contains(s, x);
            assert(s.contains(x)) by {
                assert(s[i as int] == x);
            }
            assert(m.insert(y).remove(x).insert(x).remove(y) =~= m);
        }
    }
}

/// Relies on `rand::random`: a value drawn from the thread-local generator.
#[verifier::external_body]
fn draw_i64() -> i64 {
    rand::random::<i64>()
}

/// Relies on `rand::Rng::gen_range` of the thread-local generator: a value drawn from
/// `low..high`, which must not be empty.
#[verifier::external_body]
fn draw_in(low: i64, high: i64) -> (r: i64)
    requires
        low < high,
    ensures
        low <= r < high,
{
    rand::thread_rng().gen_range(low..high)
}

/// A random index below `n`.
pub fn random_index(n: usize) -> (r: usize)
    requires
        0 < n <= i64::MAX,
    ensures
        r < n,
{
    draw_in(0, n as i64) as usize
}

/// `n` random values.
pub fn random_vec(n: usize) -> (r: Vec<i64>)
    ensures
        r@.len() == n,
{
    let mut v: Vec<i64> = Vec::new();
    let mut i: usize = 0;
    while i < n
        invariant
            i <= n,
            v@.len() == i,
        decreases n - i,
    {
        v.push(draw_i64());
        i = i + 1;
    }
    v
}

/// `n` random values from `low..high`.
pub fn random_vec_range(n: usize, low: i64, high: i64) -> (r: Vec<i64>)
    requires
        low < high,
    ensures
        r@.len() == n,
        forall|k: int| 0 <= k < n ==> low <= #[trigger] r@[k] < high,
{
    let mut v: Vec<i64> = Vec::new();
    let mut i: usize = 0;
    while i < n
        invariant
            i <= n,
            low < high,
            v@.len() == i,
            forall|k: int| 0 <= k < i ==> low <= #[trigger] v@[k] < high,
        decreases n - i,
    {
        v.push(draw_in(low, high));
        i = i + 1;
    }
    v
}

} // verus!
