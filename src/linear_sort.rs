//! Sorting in linear time: by counting the occurrences of each key, and by distributing
//! keys into buckets one hexadecimal digit at a time.
use vstd::prelude::*;
use vstd::seq_lib::lemma_multiset_commutative;

verus! {

/// The sequence of `i32` never decreases.
pub open spec fn sorted_i32(s: Seq<i32>) -> bool {
    forall|a: int, b: int| 0 <= a <= b < s.len() ==> s[a] <= s[b]
}

/// Sorts `a`, whose entries all lie in `lower..=upper`, by counting how often each key
/// occurs and writing each key out that many times.
pub fn counting_sort(a: &mut [i32], lower: i32, upper: i32)
    requires
        lower <= upper,
        upper - lower + 1 <= usize::MAX,
        forall|k: int| 0 <= k < old(a)@.len() ==> lower <= #[trigger] old(a)@[k] <= upper,
    ensures
        final(a)@.len() == old(a)@.len(),
        sorted_i32(final(a)@),
        final(a)@.to_multiset() == old(a)@.to_multiset(),
{
    broadcast use vstd::seq_lib::group_to_multiset_ensures, vstd::multiset::group_multiset_axioms;

    let n = a.len();
    let ghost orig = a@;
    let n_slots = (upper as i64 - lower as i64 + 1) as usize;
    let mut slots: Vec<usize> = vec![0; n_slots];
    let mut i: usize = 0;
    proof {
        assert(orig.subrange(0, 0) =~= Seq::<i32>::empty());
    }
    while i < n
        invariant
            a@ == orig,
            n == orig.len(),
            i <= n,
            slots@.len() == n_slots,
            n_slots == upper - lower + 1,
            forall|k: int| 0 <= k < orig.len() ==> lower <= #[trigger] orig[k] <= upper,
            forall|s: int| 0 <= s < n_slots ==> #[trigger] slots@[s] <= i,
            forall|s: int| 0 <= s < n_slots ==> #[trigger] slots@[s] == orig.subrange(0, i as int).to_multiset().count(
                (s + lower) as i32,
            ),
        decreases n - i,
    {
        let x = a[i];
        let s = (x as i64 - lower as i64) as usize;
        let c = slots[s];
        let ghost before = slots@;
        slots.set(s, c + 1);
        proof {
            let p = orig.subrange(0, i as int);
            assert(orig.subrange(0, i + 1) =~= p.push(x));
            vstd::seq_lib::to_multiset_build(p, x);
            assert(p.push(x).to_multiset() =~= p.to_multiset().insert(x));
            assert forall|t: int| 0 <= t < n_slots implies #[trigger] slots@[t] == orig.subrange(0, i + 1).to_multiset().count(
                (t + lower) as i32,
            ) by {
                assert(s == x - lower);
                assert(before[t] == p.to_multiset().count((t + lower) as i32));
                if t == s {
                    assert((t + lower) as i32 == x);
                } else {
                    assert((t + lower) as i32 != x);
                }
            }
        }
        i = i + 1;
    }
    proof {
        assert(orig.subrange(0, n as int) =~= orig);
    }
    let mut out: Vec<i32> = Vec::new();
    let mut slot: usize = 0;
    while slot < n_slots
        invariant
            a@ == orig,
            n == orig.len(),
            slot <= n_slots,
            slots@.len() == n_slots,
            n_slots == upper - lower + 1,
            forall|k: int| 0 <= k < orig.len() ==> lower <= #[trigger] orig[k] <= upper,
            forall|s: int| 0 <= s < n_slots ==> #[trigger] slots@[s] == orig.to_multiset().count((s + lower) as i32),
            sorted_i32(out@),
            forall|k: int| 0 <= k < out@.len() ==> lower <= #[trigger] out@[k] < slot + lower,
            forall|v: i32| #[trigger] out@.to_multiset().count(v) == (if lower <= v < slot + lower {
                orig.to_multiset().count(v)
            } else {
                0
            }),
        decreases n_slots - slot,
    {
        let v = (slot as i64 + lower as i64) as i32;
        let times = slots[slot];
        let mut j: usize = 0;
        while j < times
            invariant
                slot < n_slots,
                n_slots == upper - lower + 1,
                v == slot + lower,
                j <= times,
                sorted_i32(out@),
                forall|k: int| 0 <= k < out@.len() ==> lower <= #[trigger] out@[k] <= v,
                forall|w: i32| #[trigger] out@.to_multiset().count(w) == (if lower <= w < v {
                    orig.to_multiset().count(w)
                } else if w == v {
                    j as nat
                } else {
                    0
                }),
            decreases times - j,
        {
            let ghost o = out@;
            out.push(v);
            proof {
                assert(out@ == o.push(v));
                vstd::seq_lib::to_multiset_build(o, v);
                assert(out@.to_multiset() =~= o.to_multiset().insert(v));
                assert forall|w: i32| #[trigger] out@.to_multiset().count(w) == (if lower <= w < v {
                    orig.to_multiset().count(w)
                } else if w == v {
                    (j + 1) as nat
                } else {
                    0
                }) by {
                    assert(o.to_multiset().count(w) == (if lower <= w < v {
                        orig.to_multiset().count(w)
                    } else if w == v {
                        j as nat
                    } else {
                        0
                    }));
                }
            }
            j = j + 1;
        }
        slot = slot + 1;
    }
    proof {
        assert forall|v: i32| #[trigger] out@.to_multiset().count(v) == orig.to_multiset().count(v) by {
            if !(lower <= v <= upper) {
                if orig.to_multiset().count(v) > 0 {
                    let k = choose|k: int| 0 <= k < orig.len() && orig[k] == v;
                    assert(lower <= orig[k] <= upper);
                }
            }
        }
        assert(out@.to_multiset() =~= orig.to_multiset());
        vstd::seq_lib::to_multiset_len(out@);
        vstd::seq_lib::to_multiset_len(orig);
    }
    let mut k: usize = 0;
    while k < n
        invariant
            n == a@.len(),
            out@.len() == n,
            k <= n,
            forall|x: int| 0 <= x < k ==> a@[x] == out@[x],
        decreases n - k,
    {
        a[k] = out[k];
        k = k + 1;
    }
    proof {
        assert(a@ =~= out@);
    }
}

/// The number of buckets a radix round distributes into: one per hexadecimal digit.
pub const BUCKET_NUM: usize = 0x10;

/// A key that radix sort can order: it is split into rounds of at most `BUCKET_NUM`
/// buckets each, least significant first. `low(r)` is the order of the key restricted to
/// its first `r` rounds; the lemmas say how one more round refines it, and that all the
/// rounds together give the key's `rank`.
pub trait Radix: Copy + Sized {
    /// The place of the key in the order that sorting establishes.
    spec fn rank(&self) -> int;

    /// The order of the key restricted to its first `r` rounds.
    spec fn low(&self, r: int) -> int;

    /// The bucket of the key in round `r`.
    spec fn bucket_of(&self, r: int) -> int;

    /// How many rounds the key has.
    spec fn rounds() -> int;

    fn n_buckets() -> (r: usize)
        ensures
            r == BUCKET_NUM,
    ;

    fn n_rounds() -> (r: usize)
        ensures
            r == Self::rounds(),
            r >= 1,
    ;

    fn get_bucket(&self, round: usize) -> (r: usize)
        requires
            round < Self::rounds(),
        ensures
            r < BUCKET_NUM,
            r == self.bucket_of(round as int),
    ;

    /// Before any round all keys are alike.
    proof fn lemma_first_round(a: Self, b: Self)
        ensures
            a.low(0) == b.low(0),
    ;

    /// Round `r` orders keys by their bucket first, then as before.
    proof fn lemma_next_round(a: Self, b: Self, r: int)
        requires
            0 <= r < Self::rounds(),
        ensures
            a.bucket_of(r) < b.bucket_of(r) ==> a.low(r + 1) < b.low(r + 1),
            a.bucket_of(r) == b.bucket_of(r) && a.low(r) <= b.low(r) ==> a.low(r + 1) <= b.low(r + 1),
    ;

    /// After all the rounds, keys are in the order of their rank.
    proof fn lemma_last_round(a: Self)
        ensures
            a.low(Self::rounds()) == a.rank(),
    ;
}

/// The hexadecimal digit `n` (counting from the least significant) of `x`.
pub open spec fn hex_digit(x: u64, n: u64) -> u64 {
    (x >> (4 * n)) & 0xf
}

/// The lowest `n` hexadecimal digits of `x`.
pub open spec fn low_digits(x: u64, n: u64) -> u64 {
    if n >= 16 {
        x
    } else {
        x & (((1u64 << (4 * n)) - 1) as u64)
    }
}

/// The hexadecimal digit `n` of `x`.
fn nth_hex_digit(x: u64, n: u64) -> (r: u8)
    requires
        n < 16,
    ensures
        r as u64 == hex_digit(x, n),
        r < 16,
{
    let d = (x >> (4 * n)) & 0xf;
    proof {
        assert(((x >> (4 * n)) & 0xf) < 16) by (bit_vector);
    }
    d as u8
}

proof fn lemma_hex_round(a: u64, b: u64, r: u64)
    requires
        r < 16,
    ensures
        hex_digit(a, r) < hex_digit(b, r) ==> low_digits(a, (r + 1) as u64) < low_digits(b, (r + 1) as u64),
        hex_digit(a, r) == hex_digit(b, r) && low_digits(a, r) <= low_digits(b, r) ==> low_digits(a, (r + 1) as u64)
            <= low_digits(b, (r + 1) as u64),
{
    if r == 15 {
        assert(((a >> 60u64) & 0xf) < ((b >> 60u64) & 0xf) ==> a < b) by (bit_vector);
        assert(((a >> 60u64) & 0xf) == ((b >> 60u64) & 0xf) && (a & 0xfffffffffffffffu64) <= (b & 0xfffffffffffffffu64)
            ==> a <= b) by (bit_vector);
        assert(((1u64 << 60u64) - 1) as u64 == 0xfffffffffffffffu64) by (bit_vector);
    } else {
        assert(r < 15 ==> (((a >> (4 * r)) & 0xf) < ((b >> (4 * r)) & 0xf) ==> (a & (((1u64 << (4 * (r + 1))) - 1) as u64)) < (b
            & (((1u64 << (4 * (r + 1))) - 1) as u64)))) by (bit_vector);
        assert(r < 15 ==> (((a >> (4 * r)) & 0xf) == ((b >> (4 * r)) & 0xf) && (a & (((1u64 << (4 * r)) - 1) as u64)) <= (b & (((1u64
            << (4 * r)) - 1) as u64)) ==> (a & (((1u64 << (4 * (r + 1))) - 1) as u64)) <= (b & (((1u64 << (4 * (r + 1))) - 1) as u64))))
            by (bit_vector);
    }
}

impl Radix for u64 {
    open spec fn rank(&self) -> int {
        *self as int
    }

    open spec fn low(&self, r: int) -> int {
        if r <= 0 {
            0
        } else {
            low_digits(*self, r as u64) as int
        }
    }

    open spec fn bucket_of(&self, r: int) -> int {
        hex_digit(*self, r as u64) as int
    }

    open spec fn rounds() -> int {
        16
    }

    fn n_buckets() -> (r: usize) {
        BUCKET_NUM
    }

    fn n_rounds() -> (r: usize) {
        16
    }

    fn get_bucket(&self, round: usize) -> (r: usize) {
        nth_hex_digit(*self, round as u64) as usize
    }

    proof fn lemma_first_round(a: Self, b: Self) {
    }

    proof fn lemma_next_round(a: Self, b: Self, r: int) {
        lemma_hex_round(a, b, r as u64);
        if r == 0 {
            assert(low_digits(a, 0) == 0 && low_digits(b, 0) == 0) by {
                assert(a & (((1u64 << 0u64) - 1) as u64) == 0) by (bit_vector);
                assert(b & (((1u64 << 0u64) - 1) as u64) == 0) by (bit_vector);
            }
        }
    }

    proof fn lemma_last_round(a: Self) {
    }
}

/// The contents of the buckets, one after the other.
pub open spec fn flat<T>(bs: Seq<Seq<T>>) -> Seq<T>
    decreases bs.len(),
{
    if bs.len() == 0 {
        Seq::empty()
    } else {
        flat(bs.drop_last()) + bs.last()
    }
}

/// The contents of each bucket.
pub open spec fn bucket_views<T>(bs: Seq<Vec<T>>) -> Seq<Seq<T>> {
    bs.map_values(|v: Vec<T>| v@)
}

/// The keys never decrease in their order restricted to the first `r` rounds.
pub open spec fn sorted_low<T: Radix>(s: Seq<T>, r: int) -> bool {
    forall|a: int, b: int| 0 <= a <= b < s.len() ==> s[a].low(r) <= s[b].low(r)
}

/// The keys never decrease in rank.
pub open spec fn sorted_rank<T: Radix>(s: Seq<T>) -> bool {
    forall|a: int, b: int| 0 <= a <= b < s.len() ==> s[a].rank() <= s[b].rank()
}

/// Adding `x` to one bucket adds it to the contents of all the buckets.
proof fn lemma_flat_push<T>(bs: Seq<Seq<T>>, k: int, x: T)
    requires
        0 <= k < bs.len(),
    ensures
        flat(bs.update(k, bs[k].push(x))).to_multiset() == flat(bs).to_multiset().insert(x),
    decreases bs.len(),
{
    broadcast use vstd::seq_lib::group_to_multiset_ensures;

    let bs2 = bs.update(k, bs[k].push(x));
    if k == bs.len() - 1 {
        assert(bs2.drop_last() =~= bs.drop_last());
        lemma_multiset_commutative(flat(bs.drop_last()), bs[k].push(x));
        lemma_multiset_commutative(flat(bs.drop_last()), bs[k]);
    } else {
        lemma_flat_push(bs.drop_last(), k, x);
        assert(bs2.drop_last() =~= bs.drop_last().update(k, bs[k].push(x)));
        lemma_multiset_commutative(flat(bs2.drop_last()), bs.last());
        lemma_multiset_commutative(flat(bs.drop_last()), bs.last());
    }
}

/// Adds each of `items` (in order) to the bucket of its key in round `round`.
/// Where `items` are ordered by their first `round` rounds, each bucket stays so ordered.
pub fn fill_bucket_from_iter<T: Radix>(buckets: &mut Vec<Vec<T>>, items: &[T], round: usize)
    requires
        old(buckets)@.len() == BUCKET_NUM,
        round < T::rounds(),
    ensures
        final(buckets)@.len() == BUCKET_NUM,
        flat(bucket_views(final(buckets)@)).to_multiset() == flat(bucket_views(old(buckets)@)).to_multiset().add(
            items@.to_multiset(),
        ),
        forall|k: int, e: int| 0 <= k < BUCKET_NUM && 0 <= e < final(buckets)@[k]@.len() && !(0 <= e < old(buckets)@[k]@.len())
            ==> (#[trigger] final(buckets)@[k]@[e]).bucket_of(round as int) == k,
        forall|k: int, e: int| 0 <= k < BUCKET_NUM && 0 <= e < old(buckets)@[k]@.len() ==> #[trigger] final(buckets)@[k]@[e]
            == old(buckets)@[k]@[e],
        sorted_low(items@, round as int) && (forall|k: int| 0 <= k < BUCKET_NUM ==> sorted_low(#[trigger] old(buckets)@[k]@, round as int))
            && (forall|k: int, e: int, j: int| 0 <= k < BUCKET_NUM && 0 <= e < old(buckets)@[k]@.len() && 0 <= j < items@.len()
            ==> (#[trigger] old(buckets)@[k]@[e]).low(round as int) <= (#[trigger] items@[j]).low(round as int))
            ==> forall|k: int| 0 <= k < BUCKET_NUM ==> sorted_low(#[trigger] final(buckets)@[k]@, round as int),
{
    broadcast use vstd::seq_lib::group_to_multiset_ensures, vstd::multiset::group_multiset_axioms;

    let ghost ob = buckets@;
    let ghost ordered = sorted_low(items@, round as int) && (forall|k: int| 0 <= k < BUCKET_NUM ==> sorted_low(#[trigger] ob[k]@, round as int))
        && (forall|k: int, e: int, j: int| 0 <= k < BUCKET_NUM && 0 <= e < ob[k]@.len() && 0 <= j < items@.len()
        ==> (#[trigger] ob[k]@[e]).low(round as int) <= (#[trigger] items@[j]).low(round as int));
    let mut i: usize = 0;
    proof {
        assert(items@.subrange(0, 0) =~= Seq::<T>::empty());
        assert(flat(bucket_views(buckets@)).to_multiset() =~= flat(bucket_views(ob)).to_multiset().add(
            items@.subrange(0, 0).to_multiset(),
        ));
    }
    while i < items.len()
        invariant
            i <= items@.len(),
            round < T::rounds(),
            buckets@.len() == BUCKET_NUM,
            flat(bucket_views(buckets@)).to_multiset() == flat(bucket_views(ob)).to_multiset().add(
                items@.subrange(0, i as int).to_multiset(),
            ),
            forall|k: int| 0 <= k < BUCKET_NUM ==> ob[k]@.len() <= (#[trigger] buckets@[k])@.len(),
            forall|k: int, e: int| 0 <= k < BUCKET_NUM && 0 <= e < buckets@[k]@.len() && !(0 <= e < ob[k]@.len())
                ==> (#[trigger] buckets@[k]@[e]).bucket_of(round as int) == k,
            forall|k: int, e: int| 0 <= k < BUCKET_NUM && 0 <= e < ob[k]@.len() ==> #[trigger] buckets@[k]@[e] == ob[k]@[e],
            ordered ==> sorted_low(items@, round as int),
            ordered ==> forall|k: int| 0 <= k < BUCKET_NUM ==> sorted_low(#[trigger] buckets@[k]@, round as int),
            ordered ==> forall|k: int, e: int, j: int| 0 <= k < BUCKET_NUM && 0 <= e < buckets@[k]@.len() && i <= j < items@.len()
                ==> (#[trigger] buckets@[k]@[e]).low(round as int) <= (#[trigger] items@[j]).low(round as int),
        decreases items@.len() - i,
    {
        let x = items[i];
        let b = x.get_bucket(round);
        let ghost before = buckets@;
        buckets[b].push(x);
        proof {
            let bv = bucket_views(before);
            assert(bucket_views(buckets@) =~= bv.update(b as int, bv[b as int].push(x)));
            lemma_flat_push(bv, b as int, x);
            assert(items@.subrange(0, i + 1) =~= items@.subrange(0, i as int).push(x));
            vstd::seq_lib::to_multiset_build(items@.subrange(0, i as int), x);
            assert(flat(bucket_views(buckets@)).to_multiset() =~= flat(bucket_views(ob)).to_multiset().add(
                items@.subrange(0, i + 1).to_multiset(),
            ));
            assert forall|k: int| 0 <= k < BUCKET_NUM implies ob[k]@.len() <= (#[trigger] buckets@[k])@.len() by {
                assert(ob[k]@.len() <= before[k]@.len());
            }
            assert forall|k: int, e: int| 0 <= k < BUCKET_NUM && 0 <= e < buckets@[k]@.len() && !(0 <= e < ob[k]@.len())
                implies (#[trigger] buckets@[k]@[e]).bucket_of(round as int) == k by {
                if k == b && e == before[k]@.len() {
                } else {
                    assert(buckets@[k]@[e] == before[k]@[e]);
                }
            }
            assert forall|k: int, e: int| 0 <= k < BUCKET_NUM && 0 <= e < ob[k]@.len() implies #[trigger] buckets@[k]@[e]
                == ob[k]@[e] by {
                assert(buckets@[k]@[e] == before[k]@[e]);
            }
            if ordered {
                assert forall|k: int| 0 <= k < BUCKET_NUM implies sorted_low(#[trigger] buckets@[k]@, round as int) by {
                    if k == b {
                        assert forall|p: int, q: int| 0 <= p <= q < buckets@[k]@.len() implies buckets@[k]@[p].low(round as int)
                            <= buckets@[k]@[q].low(round as int) by {
                            if q == before[k]@.len() && p < q {
                                assert(before[k]@[p].low(round as int) <= items@[i as int].low(round as int));
                            } else if q < before[k]@.len() {
                                assert(before[k]@[p].low(round as int) <= before[k]@[q].low(round as int));
                            }
                        }
                    } else {
                        assert(buckets@[k]@ == before[k]@);
                    }
                }
                assert forall|k: int, e: int, j: int| 0 <= k < BUCKET_NUM && 0 <= e < buckets@[k]@.len() && i + 1 <= j
                    < items@.len() implies (#[trigger] buckets@[k]@[e]).low(round as int) <= (#[trigger] items@[j]).low(
                    round as int,
                ) by {
                    if k == b && e == before[k]@.len() {
                        assert(sorted_low(items@, round as int));
                        assert(items@[i as int].low(round as int) <= items@[j].low(round as int));
                    } else {
                        assert(buckets@[k]@[e] == before[k]@[e]);
                        assert(before[k]@[e].low(round as int) <= items@[j].low(round as int));
                    }
                }
            }
        }
        i = i + 1;
    }
    proof {
        assert(items@.subrange(0, i as int) =~= items@);
    }
}

/// Sorts `a` by rank: one round at a time, least significant first, distributes the
/// keys into buckets by that round and reads the buckets back in order.
pub fn radix_sort<T: Radix>(a: &mut [T])
    ensures
        final(a)@.len() == old(a)@.len(),
        sorted_rank(final(a)@),
        final(a)@.to_multiset() == old(a)@.to_multiset(),
{
    broadcast use vstd::seq_lib::group_to_multiset_ensures, vstd::multiset::group_multiset_axioms;

    let n_rounds = T::n_rounds();
    let n_buckets = T::n_buckets();
    let n = a.len();
    let mut cur: Vec<T> = Vec::new();
    let mut k: usize = 0;
    while k < n
        invariant
            n == a@.len(),
            a@ == old(a)@,
            k <= n,
            cur@ == a@.subrange(0, k as int),
        decreases n - k,
    {
        cur.push(a[k]);
        proof {
            assert(a@.subrange(0, k + 1) =~= a@.subrange(0, k as int).push(a@[k as int]));
        }
        k = k + 1;
    }
    proof {
        assert(cur@ =~= old(a)@);
        assert forall|x: int, y: int| 0 <= x <= y < cur@.len() implies cur@[x].low(0) <= cur@[y].low(0) by {
            T::lemma_first_round(cur@[x], cur@[y]);
        }
    }
    let mut round: usize = 0;
    while round < n_rounds
        invariant
            n_rounds == T::rounds(),
            n_buckets == BUCKET_NUM,
            round <= n_rounds,
            cur@.to_multiset() == old(a)@.to_multiset(),
            sorted_low(cur@, round as int),
        decreases n_rounds - round,
    {
        let mut buckets: Vec<Vec<T>> = Vec::new();
        let mut b: usize = 0;
        while b < n_buckets
            invariant
                n_buckets == BUCKET_NUM,
                b <= n_buckets,
                buckets@.len() == b,
                forall|k: int| 0 <= k < b ==> (#[trigger] buckets@[k])@.len() == 0,
            decreases n_buckets - b,
        {
            buckets.push(Vec::new());
            b = b + 1;
        }
        let ghost empty = buckets@;
        proof {
            assert(flat(bucket_views(empty)) =~= Seq::<T>::empty()) by {
                lemma_flat_empty(bucket_views(empty));
            }
        }
        fill_bucket_from_iter(&mut buckets, cur.as_slice(), round);
        let ghost filled = buckets@;
        let mut next: Vec<T> = Vec::new();
        let mut j: usize = 0;
        proof {
            assert(bucket_views(filled).subrange(0, 0) =~= Seq::<Seq<T>>::empty());
        }
        while j < n_buckets
            invariant
                n_buckets == BUCKET_NUM,
                round < T::rounds(),
                j <= n_buckets,
                buckets@ == filled,
                filled.len() == BUCKET_NUM,
                next@ == flat(bucket_views(filled).subrange(0, j as int)),
                forall|k: int, e: int| 0 <= k < BUCKET_NUM && 0 <= e < filled[k]@.len() ==> (#[trigger] filled[k]@[e]).bucket_of(
                    round as int,
                ) == k,
                forall|k: int| 0 <= k < BUCKET_NUM ==> sorted_low(#[trigger] filled[k]@, round as int),
                forall|p: int| 0 <= p < next@.len() ==> (#[trigger] next@[p]).bucket_of(round as int) < j,
                sorted_low(next@, round + 1),
            decreases n_buckets - j,
        {
            let ghost before = next@;
            let bucket = &buckets[j];
            let mut e: usize = 0;
            while e < bucket.len()
                invariant
                    round < T::rounds(),
                    j < BUCKET_NUM,
                    *bucket == filled[j as int],
                    e <= bucket@.len(),
                    next@ == before + bucket@.subrange(0, e as int),
                    forall|x: int| 0 <= x < bucket@.len() ==> (#[trigger] bucket@[x]).bucket_of(round as int) == j,
                    sorted_low(bucket@, round as int),
                    forall|p: int| 0 <= p < before.len() ==> (#[trigger] before[p]).bucket_of(round as int) < j,
                    forall|p: int| 0 <= p < next@.len() ==> (#[trigger] next@[p]).bucket_of(round as int) <= j,
                    sorted_low(next@, round + 1),
                decreases bucket@.len() - e,
            {
                let x = bucket[e];
                let ghost prev = next@;
                next.push(x);
                proof {
                    assert(bucket@.subrange(0, e + 1) =~= bucket@.subrange(0, e as int).push(x));
                    assert(next@ =~= before + bucket@.subrange(0, e + 1));
                    assert forall|p: int, q: int| 0 <= p <= q < next@.len() implies next@[p].low(round + 1) <= next@[q].low(
                        round + 1,
                    ) by {
                        if q == prev.len() && p < q {
                            T::lemma_next_round(next@[p], x, round as int);
                            if p >= before.len() {
                                assert(next@[p] == bucket@[p - before.len()]);
                                assert(bucket@[p - before.len()].low(round as int) <= bucket@[e as int].low(round as int));
                            } else {
                                assert(before[p].bucket_of(round as int) < j);
                            }
                        }
                    }
                }
                e = e + 1;
            }
            proof {
                assert(bucket@.subrange(0, bucket@.len() as int) =~= bucket@);
                let bv = bucket_views(filled);
                assert(bv.subrange(0, j + 1).drop_last() =~= bv.subrange(0, j as int));
                assert(bv.subrange(0, j + 1).last() == bucket@);
            }
            j = j + 1;
        }
        proof {
            assert(bucket_views(filled).subrange(0, BUCKET_NUM as int) =~= bucket_views(filled));
            assert forall|v: T| Seq::<T>::empty().to_multiset().count(v) == 0 by {
                vstd::seq_lib::to_multiset_contains(Seq::<T>::empty(), v);
            }
            assert(Seq::<T>::empty().to_multiset() =~= vstd::multiset::Multiset::empty());
            assert(cur@.to_multiset().add(Seq::<T>::empty().to_multiset()) =~= cur@.to_multiset());
        }
        cur = next;
        round = round + 1;
    }
    let mut k: usize = 0;
    proof {
        vstd::seq_lib::to_multiset_len(cur@);
        vstd::seq_lib::to_multiset_len(old(a)@);
    }
    while k < n
        invariant
            n == a@.len(),
            cur@.len() == n,
            k <= n,
            forall|x: int| 0 <= x < k ==> a@[x] == cur@[x],
        decreases n - k,
    {
        a[k] = cur[k];
        k = k + 1;
    }
    proof {
        assert(a@ =~= cur@);
        assert forall|x: int, y: int| 0 <= x <= y < cur@.len() implies cur@[x].rank() <= cur@[y].rank() by {
            T::lemma_last_round(cur@[x]);
            T::lemma_last_round(cur@[y]);
        }
    }
}

/// Empty buckets have no contents.
proof fn lemma_flat_empty<T>(bs: Seq<Seq<T>>)
    requires
        forall|k: int| 0 <= k < bs.len() ==> (#[trigger] bs[k]).len() == 0,
    ensures
        flat(bs) =~= Seq::<T>::empty(),
    decreases bs.len(),
{
    if bs.len() > 0 {
        lemma_flat_empty(bs.drop_last());
        assert(bs.last().len() == 0);
    }
}

impl Radix for u8 {
    open spec fn rank(&self) -> int {
        *self as int
    }

    open spec fn low(&self, r: int) -> int {
        if r <= 0 {
            0
        } else {
            low_digits(*self as u64, r as u64) as int
        }
    }

    open spec fn bucket_of(&self, r: int) -> int {
        hex_digit(*self as u64, r as u64) as int
    }

    open spec fn rounds() -> int {
        2
    }

    fn n_buckets() -> (r: usize) {
        BUCKET_NUM
    }

    fn n_rounds() -> (r: usize) {
        2
    }

    fn get_bucket(&self, round: usize) -> (r: usize) {
        nth_hex_digit(*self as u64, round as u64) as usize
    }

    proof fn lemma_first_round(a: Self, b: Self) {
    }

    proof fn lemma_next_round(a: Self, b: Self, r: int) {
        let x = a as u64;
        let y = b as u64;
        lemma_hex_round(x, y, r as u64);
        if r == 0 {
            assert(x & (((1u64 << 0u64) - 1) as u64) == 0) by (bit_vector);
            assert(y & (((1u64 << 0u64) - 1) as u64) == 0) by (bit_vector);
        }
    }

    proof fn lemma_last_round(a: Self) {
        let x = a as u64;
        assert(x <= 0xffu64 ==> x & (((1u64 << (4 * 2u64)) - 1) as u64) == x) by (bit_vector);
    }
}

impl Radix for u16 {
    open spec fn rank(&self) -> int {
        *self as int
    }

    open spec fn low(&self, r: int) -> int {
        if r <= 0 {
            0
        } else {
            low_digits(*self as u64, r as u64) as int
        }
    }

    open spec fn bucket_of(&self, r: int) -> int {
        hex_digit(*self as u64, r as u64) as int
    }

    open spec fn rounds() -> int {
        4
    }

    fn n_buckets() -> (r: usize) {
        BUCKET_NUM
    }

    fn n_rounds() -> (r: usize) {
        4
    }

    fn get_bucket(&self, round: usize) -> (r: usize) {
        nth_hex_digit(*self as u64, round as u64) as usize
    }

    proof fn lemma_first_round(a: Self, b: Self) {
    }

    proof fn lemma_next_round(a: Self, b: Self, r: int) {
        let x = a as u64;
        let y = b as u64;
        lemma_hex_round(x, y, r as u64);
        if r == 0 {
            assert(x & (((1u64 << 0u64) - 1) as u64) == 0) by (bit_vector);
            assert(y & (((1u64 << 0u64) - 1) as u64) == 0) by (bit_vector);
        }
    }

    proof fn lemma_last_round(a: Self) {
        let x = a as u64;
        assert(x <= 0xffffu64 ==> x & (((1u64 << (4 * 4u64)) - 1) as u64) == x) by (bit_vector);
    }
}

impl Radix for u32 {
    open spec fn rank(&self) -> int {
        *self as int
    }

    open spec fn low(&self, r: int) -> int {
        if r <= 0 {
            0
        } else {
            low_digits(*self as u64, r as u64) as int
        }
    }

    open spec fn bucket_of(&self, r: int) -> int {
        hex_digit(*self as u64, r as u64) as int
    }

    open spec fn rounds() -> int {
        8
    }

    fn n_buckets() -> (r: usize) {
        BUCKET_NUM
    }

    fn n_rounds() -> (r: usize) {
        8
    }

    fn get_bucket(&self, round: usize) -> (r: usize) {
        nth_hex_digit(*self as u64, round as u64) as usize
    }

    proof fn lemma_first_round(a: Self, b: Self) {
    }

    proof fn lemma_next_round(a: Self, b: Self, r: int) {
        let x = a as u64;
        let y = b as u64;
        lemma_hex_round(x, y, r as u64);
        if r == 0 {
            assert(x & (((1u64 << 0u64) - 1) as u64) == 0) by (bit_vector);
            assert(y & (((1u64 << 0u64) - 1) as u64) == 0) by (bit_vector);
        }
    }

    proof fn lemma_last_round(a: Self) {
        let x = a as u64;
        assert(x <= 0xffffffffu64 ==> x & (((1u64 << (4 * 8u64)) - 1) as u64) == x) by (bit_vector);
    }
}

/// The bucket of a signed key in its last round: negative, zero or positive.
pub open spec fn sign_bucket(x: int) -> int {
    if x < 0 {
        0
    } else if x == 0 {
        1
    } else {
        2
    }
}

/// Two keys of the same sign are ordered as their bit patterns are.
proof fn lemma_same_sign_order_i64(a: i64, b: i64)
    ensures
        sign_bucket(a as int) == sign_bucket(b as int) && low_digits(a as u64 as u64, 16) <= low_digits(b as u64 as u64, 16)
            ==> a <= b,
{
    assert((a < 0 && b < 0 && (a as u64) <= (b as u64)) ==> a <= b) by (bit_vector);
    assert((a > 0 && b > 0 && (a as u64) <= (b as u64)) ==> a <= b) by (bit_vector);
}

/// Two keys of the same sign are ordered as their bit patterns are.
proof fn lemma_same_sign_order_i32(a: i32, b: i32)
    ensures
        sign_bucket(a as int) == sign_bucket(b as int) && low_digits(a as u32 as u64, 8) <= low_digits(b as u32 as u64, 8)
            ==> a <= b,
{
    let x = a as u32 as u64;
    let y = b as u32 as u64;
    assert(x <= 0xffffffffu64 ==> x & (((1u64 << 32u64) - 1) as u64) == x) by (bit_vector);
    assert(y <= 0xffffffffu64 ==> y & (((1u64 << 32u64) - 1) as u64) == y) by (bit_vector);
    assert((a < 0 && b < 0 && (a as u32) <= (b as u32)) ==> a <= b) by (bit_vector);
    assert((a > 0 && b > 0 && (a as u32) <= (b as u32)) ==> a <= b) by (bit_vector);
}

impl Radix for i32 {
    open spec fn rank(&self) -> int {
        *self as int
    }

    open spec fn low(&self, r: int) -> int {
        if r <= 0 {
            0
        } else if r <= 8 {
            low_digits(*self as u32 as u64, r as u64) as int
        } else {
            *self as int
        }
    }

    open spec fn bucket_of(&self, r: int) -> int {
        if r < 8 {
            hex_digit(*self as u32 as u64, r as u64) as int
        } else {
            sign_bucket(*self as int)
        }
    }

    open spec fn rounds() -> int {
        9
    }

    fn n_buckets() -> (r: usize) {
        BUCKET_NUM
    }

    fn n_rounds() -> (r: usize) {
        9
    }

    fn get_bucket(&self, round: usize) -> (r: usize) {
        if round < 8 {
            nth_hex_digit(*self as u32 as u64, round as u64) as usize
        } else if *self < 0 {
            0
        } else if *self == 0 {
            1
        } else {
            2
        }
    }

    proof fn lemma_first_round(a: Self, b: Self) {
    }

    proof fn lemma_next_round(a: Self, b: Self, r: int) {
        let x = a as u32 as u64;
        let y = b as u32 as u64;
        if r < 8 {
            lemma_hex_round(x, y, r as u64);
            if r == 0 {
                assert(x & (((1u64 << 0u64) - 1) as u64) == 0) by (bit_vector);
                assert(y & (((1u64 << 0u64) - 1) as u64) == 0) by (bit_vector);
            }
        } else {
            lemma_same_sign_order_i32(a, b);
        }
    }

    proof fn lemma_last_round(a: Self) {
    }
}

impl Radix for i64 {
    open spec fn rank(&self) -> int {
        *self as int
    }

    open spec fn low(&self, r: int) -> int {
        if r <= 0 {
            0
        } else if r <= 16 {
            low_digits(*self as u64 as u64, r as u64) as int
        } else {
            *self as int
        }
    }

    open spec fn bucket_of(&self, r: int) -> int {
        if r < 16 {
            hex_digit(*self as u64 as u64, r as u64) as int
        } else {
            sign_bucket(*self as int)
        }
    }

    open spec fn rounds() -> int {
        17
    }

    fn n_buckets() -> (r: usize) {
        BUCKET_NUM
    }

    fn n_rounds() -> (r: usize) {
        17
    }

    fn get_bucket(&self, round: usize) -> (r: usize) {
        if round < 16 {
            nth_hex_digit(*self as u64 as u64, round as u64) as usize
        } else if *self < 0 {
            0
        } else if *self == 0 {
            1
        } else {
            2
        }
    }

    proof fn lemma_first_round(a: Self, b: Self) {
    }

    proof fn lemma_next_round(a: Self, b: Self, r: int) {
        let x = a as u64 as u64;
        let y = b as u64 as u64;
        if r < 16 {
            lemma_hex_round(x, y, r as u64);
            if r == 0 {
                assert(x & (((1u64 << 0u64) - 1) as u64) == 0) by (bit_vector);
                assert(y & (((1u64 << 0u64) - 1) as u64) == 0) by (bit_vector);
            }
        } else {
            lemma_same_sign_order_i64(a, b);
        }
    }

    proof fn lemma_last_round(a: Self) {
    }
}

} // verus!
