//! The pairs of a bucket array read bucket after bucket, and the map that a
//! sequence of pairs builds.
use crate::key::MapKey;
use crate::map::{lemma_total_len_ge, lemma_total_len_take, total_len};
use vstd::prelude::*;

verus! {

/// All pairs of the buckets, bucket after bucket.
pub closed spec fn flat<K, V>(bs: Seq<Vec<(K, V)>>) -> Seq<(K, V)>
    decreases bs.len(),
{
    if bs.len() == 0 {
        Seq::empty()
    } else {
        flat(bs.drop_last()) + bs.last()@
    }
}

/// The map that inserting the pairs one after the other into an empty map
/// gives: a later pair for a key overrides an earlier one.
pub open spec fn map_of_pairs<K: MapKey, V>(s: Seq<(K, V)>) -> Map<Seq<char>, V>
    decreases s.len(),
{
    if s.len() == 0 {
        Map::empty()
    } else {
        map_of_pairs(s.drop_last()).insert(s.last().0.key_view(), s.last().1)
    }
}

pub proof fn lemma_flat_len<K, V>(bs: Seq<Vec<(K, V)>>)
    ensures
        flat(bs).len() == total_len(bs),
    decreases bs.len(),
{
    if bs.len() > 0 {
        lemma_flat_len(bs.drop_last());
    }
}

/// Pair `a` of bucket `b` stands in the flattened sequence after the pairs
/// of the buckets before `b`.
pub proof fn lemma_flat_index<K, V>(bs: Seq<Vec<(K, V)>>, b: int, a: int)
    requires
        0 <= b < bs.len(),
        0 <= a < bs[b]@.len(),
    ensures
        total_len(bs.take(b)) + a < flat(bs).len(),
        flat(bs)[total_len(bs.take(b)) + a] == bs[b]@[a],
    decreases bs.len(),
{
    lemma_flat_len(bs);
    lemma_flat_len(bs.drop_last());
    lemma_total_len_ge(bs, b);
    let l = bs.len() - 1;
    if b == l {
        assert(bs.take(b) =~= bs.drop_last());
    } else {
        lemma_flat_index(bs.drop_last(), b, a);
        assert(bs.drop_last().take(b) =~= bs.take(b));
        lemma_total_len_take_mono(bs.drop_last(), b);
    }
}

pub proof fn lemma_total_len_take_mono<K, V>(bs: Seq<Vec<(K, V)>>, b: int)
    requires
        0 <= b < bs.len(),
    ensures
        total_len(bs.take(b)) + bs[b]@.len() <= total_len(bs),
    decreases bs.len() - b,
{
    lemma_total_len_take(bs, b);
    if b + 1 < bs.len() {
        lemma_total_len_take_mono(bs, b + 1);
        lemma_total_len_ge(bs, b + 1);
    } else {
        assert(bs.take(b + 1) =~= bs);
    }
}

/// Every place of the flattened sequence is some pair of some bucket.
pub proof fn lemma_flat_origin<K, V>(bs: Seq<Vec<(K, V)>>, p: int) -> (ba: (int, int))
    requires
        0 <= p < flat(bs).len(),
    ensures
        0 <= ba.0 < bs.len(),
        0 <= ba.1 < bs[ba.0]@.len(),
        p == total_len(bs.take(ba.0)) + ba.1,
    decreases bs.len(),
{
    lemma_flat_len(bs);
    lemma_flat_len(bs.drop_last());
    let l = bs.len() - 1;
    assert(bs.take(l) =~= bs.drop_last());
    if p < total_len(bs.drop_last()) {
        let (b, a) = lemma_flat_origin(bs.drop_last(), p);
        assert(bs.drop_last().take(b) =~= bs.take(b));
        (b, a)
    } else {
        (l, p - total_len(bs.drop_last()))
    }
}

} // verus!
