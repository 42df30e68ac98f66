//! The chained hash map: its model, its invariant and its operations.
use crate::entry::{Entry, OccupiedEntry, VacantEntry};
use crate::flat::{
    flat, lemma_flat_index, lemma_flat_len, lemma_flat_origin, lemma_total_len_take_mono,
    map_of_pairs,
};
use crate::key::{hash_code, hash_key, keys_equal, MapKey};
use vstd::prelude::*;

verus! {

/// The bucket that a key with these characters belongs to among `n` buckets.
pub open spec fn slot(k: Seq<char>, n: nat) -> int {
    (hash_code(k) as int) % (n as int)
}

/// Whether some pair of the bucket has a key spelling `k`.
pub open spec fn has_key<K: MapKey, V>(b: Seq<(K, V)>, k: Seq<char>) -> bool {
    exists|j: int| 0 <= j < b.len() && #[trigger] b[j].0.key_view() == k
}

/// The value that a bucket holds for `k`, if any.
pub open spec fn find<K: MapKey, V>(b: Seq<(K, V)>, k: Seq<char>) -> Option<V> {
    if has_key(b, k) {
        Some(b[choose|j: int| 0 <= j < b.len() && #[trigger] b[j].0.key_view() == k].1)
    } else {
        None
    }
}

/// No two pairs of the bucket have keys that spell the same characters.
pub open spec fn distinct_keys<K: MapKey, V>(b: Seq<(K, V)>) -> bool {
    forall|i: int, j: int|
        0 <= i < b.len() && 0 <= j < b.len() && i != j ==> #[trigger] b[i].0.key_view()
            != #[trigger] b[j].0.key_view()
}

/// The number of pairs over all buckets.
pub open spec fn total_len<K, V>(bs: Seq<Vec<(K, V)>>) -> nat
    decreases bs.len(),
{
    if bs.len() == 0 {
        0
    } else {
        total_len(bs.drop_last()) + bs.last()@.len()
    }
}

proof fn lemma_find_at<K: MapKey, V>(b: Seq<(K, V)>, j: int)
    requires
        distinct_keys(b),
        0 <= j < b.len(),
    ensures
        find(b, b[j].0.key_view()) == Some(b[j].1),
{
    let k = b[j].0.key_view();
    assert(has_key(b, k));
    let c = choose|i: int| 0 <= i < b.len() && #[trigger] b[i].0.key_view() == k;
    assert(c == j);
}

proof fn lemma_find_push<K: MapKey, V>(b: Seq<(K, V)>, p: (K, V), k: Seq<char>)
    requires
        distinct_keys(b),
        !has_key(b, p.0.key_view()),
    ensures
        distinct_keys(b.push(p)),
        find(b.push(p), k) == if k == p.0.key_view() {
            Some(p.1)
        } else {
            find(b, k)
        },
{
    let c = b.push(p);
    assert forall|i: int, j: int|
        0 <= i < c.len() && 0 <= j < c.len() && i != j implies #[trigger] c[i].0.key_view()
            != #[trigger] c[j].0.key_view() by {
        if i == b.len() {
            assert(c[j] == b[j]);
        } else if j == b.len() {
            assert(c[i] == b[i]);
        } else {
            assert(c[i] == b[i] && c[j] == b[j]);
        }
    }
    if k == p.0.key_view() {
        assert(c[b.len() as int] == p);
        lemma_find_at(c, b.len() as int);
    } else if has_key(b, k) {
        let j = choose|j: int| 0 <= j < b.len() && #[trigger] b[j].0.key_view() == k;
        lemma_find_at(b, j);
        assert(c[j] == b[j]);
        lemma_find_at(c, j);
    } else {
        assert forall|j: int| 0 <= j < c.len() implies #[trigger] c[j].0.key_view() != k by {
            if j < b.len() {
                assert(c[j] == b[j]);
            }
        }
    }
}

/// A map from keys to values; keys that spell the same characters are the
/// same key.
pub struct HashMap<K, V> {
    buckets: Vec<Vec<(K, V)>>,
    item: usize,
}

impl<K, V> HashMap<K, V> {
    /// The number of buckets.
    pub closed spec fn bucket_count(&self) -> nat {
        self.buckets@.len()
    }

    /// The number of pairs held.
    pub closed spec fn spec_len(&self) -> nat {
        self.item as nat
    }
}


proof fn lemma_find_front<K: MapKey, V>(b: Seq<(K, V)>, m: int, k: Seq<char>)
    requires
        distinct_keys(b),
        1 <= m <= b.len(),
    ensures
        find(b.subrange(m - 1, b.len() as int), k) == if k == b[m - 1].0.key_view() {
            Some(b[m - 1].1)
        } else {
            find(b.subrange(m, b.len() as int), k)
        },
{
    let s = b.subrange(m - 1, b.len() as int);
    let t = b.subrange(m, b.len() as int);
    assert(distinct_keys(s)) by {
        assert forall|i: int, j: int|
            0 <= i < s.len() && 0 <= j < s.len() && i != j implies #[trigger] s[i].0.key_view()
                != #[trigger] s[j].0.key_view() by {
            assert(s[i] == b[i + m - 1] && s[j] == b[j + m - 1]);
        }
    }
    assert(distinct_keys(t)) by {
        assert forall|i: int, j: int|
            0 <= i < t.len() && 0 <= j < t.len() && i != j implies #[trigger] t[i].0.key_view()
                != #[trigger] t[j].0.key_view() by {
            assert(t[i] == b[i + m] && t[j] == b[j + m]);
        }
    }
    if k == b[m - 1].0.key_view() {
        assert(s[0] == b[m - 1]);
        lemma_find_at(s, 0);
    } else if has_key(t, k) {
        let j = choose|j: int| 0 <= j < t.len() && #[trigger] t[j].0.key_view() == k;
        lemma_find_at(t, j);
        assert(s[j + 1] == t[j]);
        lemma_find_at(s, j + 1);
    } else {
        assert forall|j: int| 0 <= j < s.len() implies #[trigger] s[j].0.key_view() != k by {
            if j > 0 {
                assert(s[j] == t[j - 1]);
            }
        }
    }
}

proof fn lemma_find_swap_remove<K: MapKey, V>(b: Seq<(K, V)>, j: int, k: Seq<char>)
    requires
        distinct_keys(b),
        0 <= j < b.len(),
    ensures
        distinct_keys(b.update(j, b.last()).drop_last()),
        find(b.update(j, b.last()).drop_last(), k) == if k == b[j].0.key_view() {
            None
        } else {
            find(b, k)
        },
{
    let c = b.update(j, b.last()).drop_last();
    let l = b.len() - 1;
    assert forall|i: int| 0 <= i < c.len() implies #[trigger] c[i] == if i == j {
        b[l]
    } else {
        b[i]
    } by {}
    assert forall|x: int, y: int|
        0 <= x < c.len() && 0 <= y < c.len() && x != y implies #[trigger] c[x].0.key_view()
            != #[trigger] c[y].0.key_view() by {
        let bx = if x == j { l } else { x };
        let by_ = if y == j { l } else { y };
        assert(c[x] == b[bx] && c[y] == b[by_]);
    }
    if k == b[j].0.key_view() {
        assert forall|i: int| 0 <= i < c.len() implies #[trigger] c[i].0.key_view() != k by {
            let bi = if i == j { l } else { i };
            assert(c[i] == b[bi]);
        }
    } else if has_key(b, k) {
        let i = choose|i: int| 0 <= i < b.len() && #[trigger] b[i].0.key_view() == k;
        lemma_find_at(b, i);
        let ci = if i == l { j } else { i };
        assert(c[ci] == b[i]);
        lemma_find_at(c, ci);
    } else {
        assert forall|i: int| 0 <= i < c.len() implies #[trigger] c[i].0.key_view() != k by {
            let bi = if i == j { l } else { i };
            assert(c[i] == b[bi]);
        }
    }
}

proof fn lemma_find_set_value<K: MapKey, V>(b: Seq<(K, V)>, j: int, v: V, k: Seq<char>)
    requires
        distinct_keys(b),
        0 <= j < b.len(),
    ensures
        distinct_keys(b.update(j, (b[j].0, v))),
        find(b.update(j, (b[j].0, v)), k) == if k == b[j].0.key_view() {
            Some(v)
        } else {
            find(b, k)
        },
{
    let c = b.update(j, (b[j].0, v));
    assert forall|i: int| 0 <= i < c.len() implies #[trigger] c[i].0.key_view()
        == b[i].0.key_view() by {}
    if k == b[j].0.key_view() {
        lemma_find_at(c, j);
    } else if has_key(b, k) {
        let i = choose|i: int| 0 <= i < b.len() && #[trigger] b[i].0.key_view() == k;
        lemma_find_at(b, i);
        lemma_find_at(c, i);
    } else {
        assert forall|i: int| 0 <= i < c.len() implies #[trigger] c[i].0.key_view() != k by {
            assert(c[i].0.key_view() == b[i].0.key_view());
        }
    }
}

proof fn lemma_total_len_update<K, V>(bs: Seq<Vec<(K, V)>>, i: int, b: Vec<(K, V)>)
    requires
        0 <= i < bs.len(),
    ensures
        total_len(bs.update(i, b)) + bs[i]@.len() == total_len(bs) + b@.len(),
    decreases bs.len(),
{
    let c = bs.update(i, b);
    if i == bs.len() - 1 {
        assert(c.drop_last() =~= bs.drop_last());
    } else {
        lemma_total_len_update(bs.drop_last(), i, b);
        assert(c.drop_last() =~= bs.drop_last().update(i, b));
    }
}

pub(crate) proof fn lemma_total_len_ge<K, V>(bs: Seq<Vec<(K, V)>>, i: int)
    requires
        0 <= i < bs.len(),
    ensures
        total_len(bs) >= bs[i]@.len(),
    decreases bs.len(),
{
    if i < bs.len() - 1 {
        lemma_total_len_ge(bs.drop_last(), i);
    }
}

pub(crate) proof fn lemma_total_len_take<K, V>(bs: Seq<Vec<(K, V)>>, i: int)
    requires
        0 <= i < bs.len(),
    ensures
        total_len(bs.take(i + 1)) == total_len(bs.take(i)) + bs[i]@.len(),
{
    assert(bs.take(i + 1).drop_last() =~= bs.take(i));
}

proof fn lemma_total_len_empty<K, V>(bs: Seq<Vec<(K, V)>>)
    requires
        forall|i: int| 0 <= i < bs.len() ==> (#[trigger] bs[i])@.len() == 0,
    ensures
        total_len(bs) == 0,
    decreases bs.len(),
{
    if bs.len() > 0 {
        lemma_total_len_empty(bs.drop_last());
    }
}

impl<K: MapKey, V> HashMap<K, V> {
    /// Creates an empty map with no buckets.
    pub fn new() -> (r: Self)
        ensures
            r.wf(),
            r@ == Map::<Seq<char>, V>::empty(),
            r.spec_len() == 0,
            r.bucket_count() == 0,
    {
        let r = HashMap { buckets: Vec::new(), item: 0 };
        assert(r@ =~= Map::<Seq<char>, V>::empty());
        r
    }

    /// The value held for `k`, if any.
    pub closed spec fn spec_get(&self, k: Seq<char>) -> Option<V> {
        if self.buckets@.len() == 0 {
            None
        } else {
            find(self.buckets@[slot(k, self.buckets@.len())]@, k)
        }
    }

    /// Two maps whose lookups agree but at `k`, where the first holds `v`.
    proof fn lemma_view_insert(a: &Self, b: &Self, k: Seq<char>, v: V)
        requires
            forall|q: Seq<char>| #[trigger]
                a.spec_get(q) == if q == k {
                    Some(v)
                } else {
                    b.spec_get(q)
                },
        ensures
            a@ == b@.insert(k, v),
    {
        assert(a@ =~= b@.insert(k, v));
    }

    /// Two maps whose lookups agree but at `k`, which the first lacks.
    proof fn lemma_view_remove(a: &Self, b: &Self, k: Seq<char>)
        requires
            forall|q: Seq<char>| #[trigger]
                a.spec_get(q) == if q == k {
                    None
                } else {
                    b.spec_get(q)
                },
        ensures
            a@ == b@.remove(k),
    {
        assert(a@ =~= b@.remove(k));
    }

    proof fn lemma_view_get(&self, k: Seq<char>)
        ensures
            self@.contains_key(k) == (self.spec_get(k) is Some),
            self@.contains_key(k) ==> self.spec_get(k) == Some(self@[k]),
    {
    }

    /// Setting the value of one pair in place keeps the invariant and sets
    /// that key's value in the model.
    proof fn lemma_set_value(start: Self, after: Self, i: int, j: int, w: V)
        requires
            start.wf(),
            0 <= i < start.buckets@.len(),
            0 <= j < start.buckets@[i]@.len(),
            after.item == start.item,
            after.buckets@ == start.buckets@.update(
                i,
                after.buckets@[i],
            ),
            after.buckets@[i]@ == start.buckets@[i]@.update(j, (start.buckets@[i]@[j].0, w)),
        ensures
            after.wf(),
            after@ == start@.insert(start.buckets@[i]@[j].0.key_view(), w),
            after.spec_len() == start.spec_len(),
            after.bucket_count() == start.bucket_count(),
    {
        let b = start.buckets@[i]@;
        let k = b[j].0.key_view();
        lemma_total_len_update(start.buckets@, i, after.buckets@[i]);
        lemma_find_set_value(b, j, w, k);
        assert forall|q: Seq<char>| #[trigger]
            after.spec_get(q) == if q == k {
                Some(w)
            } else {
                start.spec_get(q)
            } by {
            lemma_find_set_value(b, j, w, q);
            if slot(q, after.buckets@.len() as nat) != i {
                assert(after.buckets@[slot(q, after.buckets@.len() as nat)]
                    == start.buckets@[slot(q, after.buckets@.len() as nat)]);
            }
        }
        assert forall|x: int, y: int|
            0 <= x < after.buckets@.len() && 0 <= y < after.buckets@[x]@.len() implies slot(
                #[trigger] after.buckets@[x]@[y].0.key_view(),
                after.buckets@.len() as nat,
            ) == x by {
            if x == i {
                assert(after.buckets@[x]@[y].0 == b[y].0);
            }
        }
        Self::lemma_view_insert(&after, &start, k, w);
    }

    /// `after` differs from `start` at most in the value of pair `j` of
    /// bucket `i`.
    spec fn only_value_differs(start: Self, after: Self, i: int, j: int) -> bool {
        &&& after.item == start.item
        &&& after.buckets@ == start.buckets@.update(i, after.buckets@[i])
        &&& after.buckets@[i]@ == start.buckets@[i]@.update(
            j,
            (start.buckets@[i]@[j].0, after.buckets@[i]@[j].1),
        )
    }

    /// `lemma_set_value` for every map that differs from `start` at most in
    /// the value of pair `j` of bucket `i`.
    proof fn lemma_set_value_any(start: Self, i: int, j: int)
        requires
            start.wf(),
            0 <= i < start.buckets@.len(),
            0 <= j < start.buckets@[i]@.len(),
        ensures
            forall|after: Self| #[trigger]
                Self::only_value_differs(start, after, i, j) ==> after.wf() && after@
                    == start@.insert(start.buckets@[i]@[j].0.key_view(), after.buckets@[i]@[j].1)
                    && after.spec_len() == start.spec_len() && after.bucket_count()
                    == start.bucket_count(),
    {
        assert forall|after: Self| #[trigger]
            Self::only_value_differs(start, after, i, j) implies after.wf() && after@
                == start@.insert(start.buckets@[i]@[j].0.key_view(), after.buckets@[i]@[j].1)
                && after.spec_len() == start.spec_len() && after.bucket_count()
                == start.bucket_count() by {
            Self::lemma_set_value(start, after, i, j, after.buckets@[i]@[j].1);
        }
    }

    /// Between operations the map holds at most three pairs for every four
    /// buckets, plus the one pair that the last insertion may have added.
    pub proof fn lemma_load_bound(&self)
        requires
            self.wf(),
        ensures
            self.spec_len() <= 3 * self.bucket_count() / 4 + 1,
    {
    }

    /// The number of pairs in the map.
    pub fn len(&self) -> (r: usize)
        ensures
            r == self.spec_len(),
    {
        self.item
    }

    /// Whether the map holds no pair.
    pub fn is_empty(&self) -> (r: bool)
        requires
            self.wf(),
        ensures
            r == (self.spec_len() == 0),
            r == (self@ == Map::<Seq<char>, V>::empty()),
    {
        proof {
            if self.item == 0 {
                assert forall|i: int| 0 <= i < self.buckets@.len() implies #[trigger] self.buckets@[i]@.len() == 0 by {
                    lemma_total_len_ge(self.buckets@, i);
                }
                assert(self@ =~= Map::<Seq<char>, V>::empty());
            } else {
                let i = self.lemma_nonempty_bucket();
                let b = self.buckets@[i]@;
                lemma_find_at(b, 0);
                assert(self@.contains_key(b[0].0.key_view()));
                assert(!Map::<Seq<char>, V>::empty().contains_key(b[0].0.key_view()));
            }
        }
        self.item == 0
    }

    proof fn lemma_nonempty_bucket(&self) -> (i: int)
        requires
            self.wf(),
            self.item > 0,
        ensures
            0 <= i < self.buckets@.len(),
            self.buckets@[i]@.len() > 0,
    {
        if forall|i: int| 0 <= i < self.buckets@.len() ==> (#[trigger] self.buckets@[i])@.len() == 0 {
            lemma_total_len_empty(self.buckets@);
        }
        choose|i: int| 0 <= i < self.buckets@.len() && (#[trigger] self.buckets@[i])@.len() > 0
    }

    /// The index of the bucket that `key` belongs to.
    pub fn bucket<Q: MapKey + ?Sized>(&self, key: &Q) -> (r: usize)
        requires
            self.bucket_count() > 0,
        ensures
            r == slot(key.key_view(), self.bucket_count()),
    {
        let h = hash_key(key);
        (h % (self.buckets.len() as u64)) as usize
    }

    /// Replaces the bucket array by one twice as large (one bucket where
    /// there was none) and moves every pair to the bucket of its key there.
    fn resize(&mut self)
        requires
            old(self).wf(),
            old(self).buckets@.len() == 0 || old(self).item > 3 * old(self).buckets@.len() / 4,
            old(self).item < usize::MAX / 16,
        ensures
            final(self).wf(),
            final(self)@ == old(self)@,
            final(self).item == old(self).item,
            final(self).buckets@.len() == if old(self).buckets@.len() == 0 {
                1
            } else {
                2 * old(self).buckets@.len()
            },
            final(self).item <= 3 * final(self).buckets@.len() / 4,
    {
        let n = self.buckets.len();
        let target: usize = if n == 0 {
            1
        } else {
            2 * n
        };
        let mut fresh: Vec<Vec<(K, V)>> = Vec::with_capacity(target);
        let mut i: usize = 0;
        while i < target
            invariant
                i <= target,
                fresh@.len() == i,
                forall|j: int| 0 <= j < i ==> (#[trigger] fresh@[j])@.len() == 0,
            decreases target - i,
        {
            fresh.push(Vec::new());
            i += 1;
        }
        proof {
            lemma_total_len_empty(fresh@);
        }
        let ghost old_map = *self;
        let ghost ob = self.buckets@;
        assert(ob.take(n as int) =~= ob);
        let mut rest: Vec<Vec<(K, V)>> = Vec::new();
        std::mem::swap(&mut rest, &mut self.buckets);
        while rest.len() > 0
            invariant
                old_map.wf(),
                ob == old_map.buckets@,
                n == ob.len(),
                target as int == if n == 0 {
                    1
                } else {
                    2 * n
                },
                old_map.item < usize::MAX / 16,
                n == 0 || old_map.item > 3 * n / 4,
                rest@.len() <= n,
                forall|j: int| 0 <= j < rest@.len() ==> #[trigger] rest@[j] == ob[j],
                fresh@.len() == target,
                forall|i: int, j: int|
                    0 <= i < target && 0 <= j < fresh@[i]@.len() ==> slot(
                        #[trigger] fresh@[i]@[j].0.key_view(),
                        target as nat,
                    ) == i,
                forall|i: int| 0 <= i < target ==> distinct_keys(#[trigger] fresh@[i]@),
                total_len(fresh@) + total_len(ob.take(rest@.len() as int)) == old_map.item,
                forall|k: Seq<char>|
                    #![trigger slot(k, n as nat)]
                    find(fresh@[slot(k, target as nat)]@, k) == if slot(k, n as nat)
                        >= rest@.len() {
                        old_map.spec_get(k)
                    } else {
                        None
                    },
            decreases rest@.len(),
        {
            let ghost r = rest@.len() - 1;
            proof {
                lemma_total_len_take(ob, r);
            }
            let mut b = rest.pop().unwrap();
            let ghost whole = b@;
            while b.len() > 0
                invariant
                    old_map.wf(),
                    ob == old_map.buckets@,
                    n == ob.len(),
                    0 <= r < n,
                    rest@.len() == r,
                    target as int == if n == 0 {
                        1
                    } else {
                        2 * n
                    },
                    whole == ob[r]@,
                    b@.len() <= whole.len(),
                    b@ == whole.subrange(0, b@.len() as int),
                    fresh@.len() == target,
                    forall|i: int, j: int|
                        0 <= i < target && 0 <= j < fresh@[i]@.len() ==> slot(
                            #[trigger] fresh@[i]@[j].0.key_view(),
                            target as nat,
                        ) == i,
                    forall|i: int| 0 <= i < target ==> distinct_keys(#[trigger] fresh@[i]@),
                    total_len(fresh@) + b@.len() + total_len(ob.take(r)) == old_map.item,
                    forall|k: Seq<char>|
                        #![trigger slot(k, n as nat)]
                        find(fresh@[slot(k, target as nat)]@, k) == if slot(k, n as nat) > r {
                            old_map.spec_get(k)
                        } else if slot(k, n as nat) == r {
                            find(whole.subrange(b@.len() as int, whole.len() as int), k)
                        } else {
                            None
                        },
                decreases b@.len(),
            {
                let ghost m = b@.len() as int;
                let ghost bb = b@;
                let (k, v) = b.pop().unwrap();
                let ghost kv = k.key_view();
                proof {
                    assert(bb[m - 1] == whole[m - 1]);
                    assert(whole[m - 1] == (k, v));
                    assert(b@ =~= whole.subrange(0, m - 1));
                    assert(ob[r]@[m - 1].0.key_view() == kv);
                    assert(slot(kv, n as nat) == r);
                    assert(distinct_keys(ob[r]@));
                    lemma_find_front(whole, m, kv);
                    assert(find(whole.subrange(m, whole.len() as int), kv) is None) by {
                        let t = whole.subrange(m, whole.len() as int);
                        assert forall|j: int| 0 <= j < t.len() implies #[trigger] t[j].0.key_view() != kv by {
                            assert(t[j] == whole[j + m]);
                        }
                    }
                }
                let h = hash_key(&k);
                let idx = (h % (target as u64)) as usize;
                let ghost before = fresh@;
                proof {
                    assert(idx == slot(kv, target as nat));
                    assert(!has_key(before[idx as int]@, kv));
                    lemma_total_len_update(before, idx as int, before[idx as int]);
                }
                fresh[idx].push((k, v));
                proof {
                    lemma_total_len_update(before, idx as int, fresh@[idx as int]);
                    assert(fresh@ == before.update(idx as int, fresh@[idx as int]));
                    assert forall|q: Seq<char>|
                        #![trigger slot(q, n as nat)]
                        find(fresh@[slot(q, target as nat)]@, q) == if slot(q, n as nat) > r {
                            old_map.spec_get(q)
                        } else if slot(q, n as nat) == r {
                            find(whole.subrange(m - 1, whole.len() as int), q)
                        } else {
                            None
                        } by {
                        lemma_find_push(before[idx as int]@, (k, v), q);
                        lemma_find_front(whole, m, q);
                    }
                    assert forall|i: int, j: int|
                        0 <= i < target && 0 <= j < fresh@[i]@.len() implies slot(
                            #[trigger] fresh@[i]@[j].0.key_view(),
                            target as nat,
                        ) == i by {
                        if i == idx && j == before[i]@.len() {
                        } else {
                            assert(fresh@[i]@[j] == before[i]@[j]);
                        }
                    }
                    assert forall|i: int| 0 <= i < target implies distinct_keys(#[trigger] fresh@[i]@) by {
                        lemma_find_push(before[idx as int]@, (k, v), kv);
                    }
                }
            }
            proof {
                assert(whole.subrange(0, whole.len() as int) =~= whole);
                assert forall|q: Seq<char>|
                    #![trigger slot(q, n as nat)]
                    find(fresh@[slot(q, target as nat)]@, q) == if slot(q, n as nat) >= r {
                        old_map.spec_get(q)
                    } else {
                        None
                    } by {
                    assert(0 <= slot(q, n as nat) < n);
                }
            }
        }
        self.buckets = fresh;
        proof {
            assert(ob.take(0) =~= Seq::<Vec<(K, V)>>::empty());
            assert forall|q: Seq<char>| #[trigger] self.spec_get(q) == old_map.spec_get(q) by {
                assert(0 <= slot(q, n as nat) || n == 0);
            }
            assert(self@ =~= old_map@);
            assert(3 * (n as int) / 4 + 1 <= 3 * (target as int) / 4 || n == 0);
        }
    }

    /// Puts `value` under `key`, and returns the value that `key` had, if any.
    /// Grows the bucket array first where there is none or where the load
    /// factor is over three quarters. The bound on the length keeps the
    /// doubled bucket count within `usize`.
    pub fn insert(&mut self, key: K, value: V) -> (r: Option<V>)
        requires
            old(self).wf(),
            old(self).spec_len() < usize::MAX / 16,
        ensures
            final(self).wf(),
            final(self)@ == old(self)@.insert(key.key_view(), value),
            r == if old(self)@.contains_key(key.key_view()) {
                Some(old(self)@[key.key_view()])
            } else {
                None::<V>
            },
            final(self).spec_len() == old(self).spec_len() + if old(self)@.contains_key(
                key.key_view(),
            ) {
                0nat
            } else {
                1nat
            },
            final(self).bucket_count() >= old(self).bucket_count(),
            final(self).bucket_count() > 0,
            old(self).spec_len() <= 3 * final(self).bucket_count() / 4,
            final(self).spec_len() <= 3 * final(self).bucket_count() / 4 + 1,
    {
        let ghost k = key.key_view();
        let ghost before = self@;
        proof {
            self.lemma_view_get(k);
        }
        self.grow_if_needed();
        let ghost start = *self;
        proof {
            start.lemma_view_get(k);
        }
        let index = self.bucket(&key);
        let blen = self.buckets[index].len();
        let mut j: usize = 0;
        while j < blen
            invariant
                *self == start,
                start.wf(),
                start@ == before,
                before == old(self)@,
                start.item == old(self).item,
                start.buckets@.len() >= old(self).buckets@.len(),
                start.item <= 3 * start.buckets@.len() / 4,
                k == key.key_view(),
                index == slot(k, start.buckets@.len() as nat),
                index < start.buckets@.len(),
                blen == start.buckets@[index as int]@.len(),
                j <= blen,
                forall|i: int| 0 <= i < j ==> #[trigger] start.buckets@[index as int]@[i].0.key_view() != k,
            decreases blen - j,
        {
            let pair: &(K, V) = &self.buckets[index][j];
            let same = keys_equal(&pair.0, &key);

            if same {
                let ghost b = start.buckets@[index as int]@;
                proof {
                    lemma_find_at(b, j as int);
                }
                let mut v = value;
                std::mem::swap(&mut self.buckets[index][j].1, &mut v);
                proof {
                    Self::lemma_set_value(start, *self, index as int, j as int, value);
                }
                return Some(v);
            }
            j += 1;
        }
        proof {
            assert(!has_key(start.buckets@[index as int]@, k));
        }
        self.push_new(index, key, value);
        None
    }

    /// Where the pair for `key` stands: its bucket and its place in it.
    fn locate<Q: MapKey + ?Sized>(&self, key: &Q) -> (r: Option<(usize, usize)>)
        requires
            self.wf(),
        ensures
            self@.contains_key(key.key_view()) == (r is Some),
            r is Some ==> {
                let (i, j) = r->0;
                &&& i == slot(key.key_view(), self.buckets@.len() as nat)
                &&& j < self.buckets@[i as int]@.len()
                &&& self.buckets@[i as int]@[j as int].0.key_view() == key.key_view()
                &&& self@[key.key_view()] == self.buckets@[i as int]@[j as int].1
            },
    {
        let ghost k = key.key_view();
        proof {
            self.lemma_view_get(k);
        }
        if self.buckets.len() == 0 {
            return None;
        }
        let index = self.bucket(key);
        let bucket = &self.buckets[index];
        let mut j: usize = 0;
        while j < bucket.len()
            invariant
                self.wf(),
                k == key.key_view(),
                self.buckets@.len() > 0,
                index == slot(k, self.buckets@.len() as nat),
                *bucket == self.buckets@[index as int],
                j <= bucket@.len(),
                forall|i: int| 0 <= i < j ==> #[trigger] bucket@[i].0.key_view() != k,
            decreases bucket@.len() - j,
        {
            if keys_equal(&bucket[j].0, key) {
                proof {
                    lemma_find_at(bucket@, j as int);
                }
                return Some((index, j));
            }
            j += 1;
        }
        None
    }

    /// The value held for `key`, if any.
    pub fn get<Q: MapKey + ?Sized>(&self, key: &Q) -> (r: Option<&V>)
        requires
            self.wf(),
        ensures
            match r {
                Some(v) => self@.contains_key(key.key_view()) && *v == self@[key.key_view()],
                None => !self@.contains_key(key.key_view()),
            },
    {
        match self.locate(key) {
            Some((i, j)) => Some(&self.buckets[i][j].1),
            None => None,
        }
    }

    /// Whether the map holds a value for `key`.
    pub fn contains_key<Q: MapKey + ?Sized>(&self, key: &Q) -> (r: bool)
        requires
            self.wf(),
        ensures
            r == self@.contains_key(key.key_view()),
    {
        self.locate(key).is_some()
    }

    /// Takes the pair for `key` out of the map and returns its value, if
    /// there was one. The last pair of the bucket takes the freed place.
    pub fn remove<Q: MapKey + ?Sized>(&mut self, key: &Q) -> (r: Option<V>)
        requires
            old(self).wf(),
        ensures
            final(self).wf(),
            final(self)@ == old(self)@.remove(key.key_view()),
            r == if old(self)@.contains_key(key.key_view()) {
                Some(old(self)@[key.key_view()])
            } else {
                None::<V>
            },
            final(self).spec_len() == old(self).spec_len() - if old(self)@.contains_key(
                key.key_view(),
            ) {
                1int
            } else {
                0int
            },
            final(self).bucket_count() == old(self).bucket_count(),
    {
        let ghost k = key.key_view();
        let ghost start = *self;
        match self.locate(key) {
            None => {
                proof {
                    assert forall|q: Seq<char>| #[trigger]
                        self.spec_get(q) == if q == k {
                            None
                        } else {
                            start.spec_get(q)
                        } by {
                        self.lemma_view_get(q);
                    }
                    Self::lemma_view_remove(&*self, &start, k);
                }
                None
            },
            Some((index, j)) => {
                let ghost b = start.buckets@[index as int]@;
                proof {
                    lemma_total_len_ge(start.buckets@, index as int);
                    lemma_total_len_update(start.buckets@, index as int, start.buckets@[index as int]);
                }
                let (_, v) = self.buckets[index].swap_remove(j);
                self.item -= 1;
                proof {
                    let nb = self.buckets@[index as int];
                    assert(self.buckets@ == start.buckets@.update(index as int, nb));
                    lemma_total_len_update(start.buckets@, index as int, nb);
                    lemma_find_swap_remove(b, j as int, k);
                    assert forall|q: Seq<char>| #[trigger]
                        self.spec_get(q) == if q == k {
                            None
                        } else {
                            start.spec_get(q)
                        } by {
                        lemma_find_swap_remove(b, j as int, q);
                        if slot(q, self.buckets@.len() as nat) != index {
                            assert(self.buckets@[slot(q, self.buckets@.len() as nat)]
                                == start.buckets@[slot(q, self.buckets@.len() as nat)]);
                        }
                    }
                    assert forall|i: int, jj: int|
                        0 <= i < self.buckets@.len() && 0 <= jj < self.buckets@[i]@.len() implies slot(
                            #[trigger] self.buckets@[i]@[jj].0.key_view(),
                            self.buckets@.len() as nat,
                        ) == i by {
                        if i == index {
                            let src = if jj == j { b.len() - 1 } else { jj as int };
                            assert(self.buckets@[i]@[jj] == b[src]);
                        }
                    }
                    Self::lemma_view_remove(&*self, &start, k);
                }
                Some(v)
            },
        }
    }

    /// A reference through which the value held for `key` can be changed in
    /// place, if the map holds one.
    pub fn get_mut<Q: MapKey + ?Sized>(&mut self, key: &Q) -> (r: Option<&mut V>)
        requires
            old(self).wf(),
        ensures
            match r {
                Some(v) => {
                    &&& old(self)@.contains_key(key.key_view())
                    &&& *v == old(self)@[key.key_view()]
                    &&& final(self).wf()
                    &&& final(self)@ == old(self)@.insert(key.key_view(), *final(v))
                    &&& final(self).spec_len() == old(self).spec_len()
                    &&& final(self).bucket_count() == old(self).bucket_count()
                },
                None => {
                    &&& !old(self)@.contains_key(key.key_view())
                    &&& *final(self) == *old(self)
                },
            },
    {
        let ghost start = *self;
        match self.locate(key) {
            Some((i, j)) => {
                proof {
                    Self::lemma_set_value_any(start, i as int, j as int);
                }
                let r = &mut self.buckets[i][j].1;
                proof {
                    assert(Self::only_value_differs(start, after_borrow(*self), i as int, j as int));
                }
                Some(r)
            },
            None => None,
        }
    }

    /// Grows the bucket array where there is none or where the load factor
    /// is over three quarters.
    fn grow_if_needed(&mut self)
        requires
            old(self).wf(),
            old(self).item < usize::MAX / 16,
        ensures
            final(self).wf(),
            final(self)@ == old(self)@,
            final(self).item == old(self).item,
            final(self).buckets@.len() >= old(self).buckets@.len(),
            final(self).buckets@.len() > 0,
            final(self).item <= 3 * final(self).buckets@.len() / 4,
    {
        if self.buckets.len() == 0 || self.item > 3 * self.buckets.len() / 4 {
            self.resize();
        }
    }

    /// Appends a pair for a key that the map lacks to the key's bucket, and
    /// returns a reference to the stored value.
    pub(crate) fn push_new(&mut self, index: usize, key: K, value: V) -> (r: &mut V)
        requires
            old(self).wf(),
            old(self).bucket_count() > 0,
            index == slot(key.key_view(), old(self).bucket_count()),
            !old(self)@.contains_key(key.key_view()),
            old(self).spec_len() < usize::MAX / 16,
            old(self).spec_len() <= 3 * old(self).bucket_count() / 4,
        ensures
            *r == value,
            final(self).wf(),
            final(self)@ == old(self)@.insert(key.key_view(), *final(r)),
            final(self).spec_len() == old(self).spec_len() + 1,
            final(self).bucket_count() == old(self).bucket_count(),
    {
        let ghost k = key.key_view();
        let ghost start = *self;
        let ghost b = start.buckets@[index as int]@;
        proof {
            start.lemma_view_get(k);
            assert(!has_key(b, k));
        }
        let last = self.buckets[index].len();
        self.item += 1;
        self.buckets[index].push((key, value));
        let ghost mid = *self;
        proof {
            let nb = self.buckets@[index as int];
            assert(self.buckets@ == start.buckets@.update(index as int, nb));
            lemma_total_len_update(start.buckets@, index as int, nb);
            lemma_find_push(b, (key, value), k);
            assert forall|q: Seq<char>| #[trigger]
                self.spec_get(q) == if q == k {
                    Some(value)
                } else {
                    start.spec_get(q)
                } by {
                lemma_find_push(b, (key, value), q);
                if slot(q, self.buckets@.len() as nat) != index {
                    assert(self.buckets@[slot(q, self.buckets@.len() as nat)]
                        == start.buckets@[slot(q, self.buckets@.len() as nat)]);
                }
            }
            assert forall|i: int, jj: int|
                0 <= i < self.buckets@.len() && 0 <= jj < self.buckets@[i]@.len() implies slot(
                    #[trigger] self.buckets@[i]@[jj].0.key_view(),
                    self.buckets@.len() as nat,
                ) == i by {
                if i == index && jj < b.len() {
                    assert(self.buckets@[i]@[jj] == b[jj]);
                }
            }
            Self::lemma_view_insert(self, &start, k, value);
            Self::lemma_set_value_any(mid, index as int, b.len() as int);
            assert(mid@.insert(k, value) == mid@);
        }
        let r = &mut self.buckets[index][last].1;
        proof {
            assert(Self::only_value_differs(mid, after_borrow(*self), index as int, b.len() as int));
        }
        r
    }

    /// Looks `key` up for a change: the entry is occupied where the map holds
    /// the key and vacant where it does not. Grows the bucket array first,
    /// as `insert` does, so that a vacant entry inserts without growing.
    pub fn entry(&mut self, key: K) -> (r: Entry<'_, K, V>)
        requires
            old(self).wf(),
            old(self).spec_len() < usize::MAX / 16,
        ensures
            match r {
                Entry::Occupied(e) => {
                    &&& old(self)@.contains_key(key.key_view())
                    &&& *e.value == old(self)@[key.key_view()]
                    &&& final(self).wf()
                    &&& final(self)@ == old(self)@.insert(key.key_view(), *final(e.value))
                    &&& final(self).spec_len() == old(self).spec_len()
                    &&& final(self).spec_len() <= 3 * final(self).bucket_count() / 4
                },
                Entry::Vacant(e) => {
                    &&& !old(self)@.contains_key(key.key_view())
                    &&& e.key == key
                    &&& e.wf()
                    &&& e.map@ == old(self)@
                    &&& e.map.spec_len() == old(self).spec_len()
                    &&& *final(e.map) == *final(self)
                },
            },
    {
        self.grow_if_needed();
        let ghost start = *self;
        match self.locate(&key) {
            Some((i, j)) => {
                proof {
                    Self::lemma_set_value_any(start, i as int, j as int);
                }
                let value = &mut self.buckets[i][j].1;
                proof {
                    assert(Self::only_value_differs(start, after_borrow(*self), i as int, j as int));
                }
                Entry::Occupied(OccupiedEntry { value })
            },
            None => {
                let index = self.bucket(&key);
                Entry::Vacant(VacantEntry { key, map: self, index })
            },
        }
    }

    /// All pairs of the map, bucket after bucket: the order of iteration.
    pub closed spec fn pairs(&self) -> Seq<(K, V)> {
        flat(self.buckets@)
    }

    /// Going through the pairs of a map meets each key of the map exactly
    /// once, with the value that the map holds for it, and meets as many pairs
    /// as the map's length says.
    pub proof fn lemma_pairs_complete(&self)
        requires
            self.wf(),
        ensures
            self.pairs().len() == self.spec_len(),
            forall|p: int, q: int|
                0 <= p < q < self.pairs().len() ==> #[trigger] self.pairs()[p].0.key_view()
                    != #[trigger] self.pairs()[q].0.key_view(),
            forall|p: int|
                0 <= p < self.pairs().len() ==> {
                    &&& self@.contains_key(#[trigger] self.pairs()[p].0.key_view())
                    &&& self@[self.pairs()[p].0.key_view()] == self.pairs()[p].1
                },
            forall|k: Seq<char>|
                #[trigger] self@.contains_key(k) ==> exists|p: int|
                    0 <= p < self.pairs().len() && #[trigger] self.pairs()[p].0.key_view() == k,
    {
        let bs = self.buckets@;
        lemma_flat_len(bs);
        assert forall|p: int|
            0 <= p < self.pairs().len() implies {
                &&& self@.contains_key(#[trigger] self.pairs()[p].0.key_view())
                &&& self@[self.pairs()[p].0.key_view()] == self.pairs()[p].1
            } by {
            let (b, a) = lemma_flat_origin(bs, p);
            lemma_flat_index(bs, b, a);
            lemma_find_at(bs[b]@, a);
            self.lemma_view_get(bs[b]@[a].0.key_view());
        }
        assert forall|p: int, q: int|
            0 <= p < q < self.pairs().len() implies #[trigger] self.pairs()[p].0.key_view()
                != #[trigger] self.pairs()[q].0.key_view() by {
            let (b1, a1) = lemma_flat_origin(bs, p);
            let (b2, a2) = lemma_flat_origin(bs, q);
            lemma_flat_index(bs, b1, a1);
            lemma_flat_index(bs, b2, a2);
            if b1 == b2 {
                assert(distinct_keys(bs[b1]@));
            } else {
                assert(slot(bs[b1]@[a1].0.key_view(), bs.len() as nat) == b1);
                assert(slot(bs[b2]@[a2].0.key_view(), bs.len() as nat) == b2);
            }
        }
        assert forall|k: Seq<char>| #[trigger] self@.contains_key(k) implies exists|p: int|
            0 <= p < self.pairs().len() && #[trigger] self.pairs()[p].0.key_view() == k by {
            self.lemma_view_get(k);
            let b = slot(k, bs.len() as nat);
            let a = choose|j: int| 0 <= j < bs[b]@.len() && #[trigger] bs[b]@[j].0.key_view() == k;
            lemma_flat_index(bs, b, a);
            let p = total_len(bs.take(b)) + a;
            assert(self.pairs()[p].0.key_view() == k);
        }
    }

    /// An iterator over the pairs of the map, bucket after bucket.
    pub fn iter(&self) -> (r: Iter<'_, K, V>)
        ensures
            r.wf(),
            r.source() == *self,
            r.remaining() == self.pairs(),
    {
        let r = Iter { map: self, bucket: 0, at: 0 };
        proof {
            assert(self.buckets@.take(0) =~= Seq::<Vec<(K, V)>>::empty());
            lemma_flat_len(self.buckets@);
            assert(self.pairs().subrange(0, self.pairs().len() as int) =~= self.pairs());
        }
        r
    }

    /// The map that inserting the pairs one after the other into an empty map
    /// builds: where a key comes twice, the later value stays.
    pub fn from_iter(pairs: Vec<(K, V)>) -> (r: Self)
        requires
            pairs@.len() < usize::MAX / 16,
        ensures
            r.wf(),
            r@ == map_of_pairs(pairs@),
            r@.dom().finite(),
            r.spec_len() == r@.dom().len(),
            r.spec_len() <= pairs@.len(),
    {
        let ghost all = pairs@;
        let n = pairs.len();
        let mut rest = pairs;
        let mut stack: Vec<(K, V)> = Vec::new();
        while rest.len() > 0
            invariant
                n == all.len(),
                rest@ == all.take(rest@.len() as int),
                stack@.len() + rest@.len() == n,
                forall|t: int| 0 <= t < stack@.len() ==> #[trigger] stack@[t] == all[n - 1 - t],
            decreases rest@.len(),
        {
            let ghost m = rest@.len();
            let p = rest.pop().unwrap();
            stack.push(p);
            proof {
                assert(rest@ =~= all.take(rest@.len() as int));
            }
        }
        let mut map = HashMap::new();
        proof {
            assert(all.take(0) =~= Seq::<(K, V)>::empty());
        }
        while stack.len() > 0
            invariant
                n == all.len(),
                n < usize::MAX / 16,
                stack@.len() <= n,
                forall|t: int| 0 <= t < stack@.len() ==> #[trigger] stack@[t] == all[n - 1 - t],
                map.wf(),
                map@ == map_of_pairs(all.take(n - stack@.len())),
                map.spec_len() <= n - stack@.len(),
            decreases stack@.len(),
        {
            let ghost i = n - stack@.len();
            let (k, v) = stack.pop().unwrap();
            proof {
                assert(all[i] == (k, v));
                assert(all.take(i + 1).drop_last() =~= all.take(i));
            }
            map.insert(k, v);
        }
        proof {
            assert(all.take(n as int) =~= all);
            crate::laws::len_is_key_count(map);
        }
        map
    }

    /// The value held for `key`; the map must hold one.
    pub fn index<Q: MapKey + ?Sized>(&self, key: &Q) -> (r: &V)
        requires
            self.wf(),
            self@.contains_key(key.key_view()),
        ensures
            *r == self@[key.key_view()],
    {
        let (i, j) = self.locate(key).unwrap();
        &self.buckets[i][j].1
    }

    /// A reference through which the value held for `key` can be changed in
    /// place; the map must hold one.
    pub fn index_mut<Q: MapKey + ?Sized>(&mut self, key: &Q) -> (r: &mut V)
        requires
            old(self).wf(),
            old(self)@.contains_key(key.key_view()),
        ensures
            *r == old(self)@[key.key_view()],
            final(self).wf(),
            final(self)@ == old(self)@.insert(key.key_view(), *final(r)),
            final(self).spec_len() == old(self).spec_len(),
            final(self).bucket_count() == old(self).bucket_count(),
    {
        let ghost start = *self;
        let (i, j) = self.locate(key).unwrap();
        proof {
            Self::lemma_set_value_any(start, i as int, j as int);
        }
        let r = &mut self.buckets[i][j].1;
        proof {
            assert(Self::only_value_differs(start, after_borrow(*self), i as int, j as int));
        }
        r
    }

    /// The invariant: each pair lies in the bucket of its key, no bucket holds
    /// a key twice, the count is the number of pairs, and the load factor
    /// stays at most three quarters plus the one pair that the last insertion
    /// may have added.
    pub closed spec fn wf(&self) -> bool {
        let n = self.buckets@.len();
        &&& forall|i: int, j: int|
            0 <= i < n && 0 <= j < self.buckets@[i]@.len() ==> slot(
                #[trigger] self.buckets@[i]@[j].0.key_view(),
                n,
            ) == i
        &&& forall|i: int| 0 <= i < n ==> distinct_keys(#[trigger] self.buckets@[i]@)
        &&& self.item as nat == total_len(self.buckets@)
        &&& self.item as int <= 3 * (n as int) / 4 + 1
        &&& n <= usize::MAX / 4
    }
}

impl<K: MapKey, V> View for HashMap<K, V> {
    type V = Map<Seq<char>, V>;

    closed spec fn view(&self) -> Map<Seq<char>, V> {
        Map::new(|k: Seq<char>| self.spec_get(k) is Some, |k: Seq<char>| self.spec_get(k)->0)
    }
}

/// A cursor over the pairs of a map: a bucket and a place in it.
pub struct Iter<'a, K, V> {
    map: &'a HashMap<K, V>,
    bucket: usize,
    at: usize,
}

impl<'a, K: MapKey, V> Iter<'a, K, V> {
    /// The map that the iterator goes through.
    pub closed spec fn source(&self) -> HashMap<K, V> {
        *self.map
    }

    /// How many pairs the iterator has handed out.
    pub closed spec fn position(&self) -> int {
        total_len(self.map.buckets@.take(self.bucket as int)) + self.at
    }

    /// The cursor stands inside the bucket array or just past its end.
    pub closed spec fn wf(&self) -> bool {
        &&& self.bucket <= self.map.buckets@.len()
        &&& self.bucket < self.map.buckets@.len() ==> self.at
            <= self.map.buckets@[self.bucket as int]@.len()
        &&& self.bucket == self.map.buckets@.len() ==> self.at == 0
    }

    /// The pairs that the iterator has yet to hand out, in order.
    pub closed spec fn remaining(&self) -> Seq<(K, V)> {
        self.map.pairs().subrange(self.position(), self.map.pairs().len() as int)
    }

    proof fn lemma_position(&self)
        requires
            self.wf(),
        ensures
            0 <= self.position() <= self.map.pairs().len(),
    {
        let bs = self.map.buckets@;
        lemma_flat_len(bs);
        if self.bucket < bs.len() {
            lemma_total_len_take_mono(bs, self.bucket as int);
        } else {
            assert(bs.take(self.bucket as int) =~= bs);
        }
    }

    /// Hands out the next pair, or nothing once all pairs were handed out.
    pub fn next(&mut self) -> (r: Option<(&'a K, &'a V)>)
        requires
            old(self).wf(),
        ensures
            final(self).wf(),
            final(self).source() == old(self).source(),
            old(self).remaining().len() == 0 ==> r is None && final(self).remaining() == old(
                self,
            ).remaining(),
            old(self).remaining().len() > 0 ==> (r matches Some((k, v)) && *k == old(
                self,
            ).remaining()[0].0 && *v == old(self).remaining()[0].1 && final(self).remaining()
                == old(self).remaining().drop_first()),
    {
        let ghost start = *self;
        proof {
            start.lemma_position();
        }
        loop
            invariant
                self.wf(),
                start == *old(self),
                self.map == start.map,
                self.position() == start.position(),
                0 <= start.position() <= start.map.pairs().len(),
            decreases self.map.buckets@.len() - self.bucket,
        {
            let ghost bs = self.map.buckets@;
            if self.bucket < self.map.buckets.len() {
                let bucket = &self.map.buckets[self.bucket];
                if self.at < bucket.len() {
                    let pair = &bucket[self.at];
                    proof {
                        lemma_flat_index(bs, self.bucket as int, self.at as int);
                        lemma_total_len_take_mono(bs, self.bucket as int);
                    }
                    self.at = self.at + 1;
                    proof {
                        self.lemma_position();
                        assert(self.remaining() =~= start.remaining().drop_first());
                    }
                    return Some((&pair.0, &pair.1));
                }
                proof {
                    lemma_total_len_take(bs, self.bucket as int);
                }
                self.bucket = self.bucket + 1;
                self.at = 0;
            } else {
                proof {
                    assert(bs.take(self.bucket as int) =~= bs);
                    lemma_flat_len(bs);
                }
                return None;
            }
        }
    }
}

} // verus!
