//! Laws of the map that relate several operations or hold of every state.
use crate::key::MapKey;
use crate::map::HashMap;
use vstd::prelude::*;
use vstd::seq_lib::seq_to_set_is_finite;

verus! {

/// What `HashMap::insert` promises: `after` is `before` with `v` under `k`,
/// and `r` is what `before` held under `k`.
pub open spec fn inserts<K: MapKey, V>(
    before: HashMap<K, V>,
    after: HashMap<K, V>,
    k: Seq<char>,
    v: V,
    r: Option<V>,
) -> bool {
    &&& after.wf()
    &&& after@ == before@.insert(k, v)
    &&& r == if before@.contains_key(k) {
        Some(before@[k])
    } else {
        None::<V>
    }
    &&& after.spec_len() == before.spec_len() + if before@.contains_key(k) {
        0nat
    } else {
        1nat
    }
}

/// What `HashMap::remove` promises: `after` is `before` without `k`, and
/// `r` is what `before` held under `k`.
pub open spec fn removes<K: MapKey, V>(
    before: HashMap<K, V>,
    after: HashMap<K, V>,
    k: Seq<char>,
    r: Option<V>,
) -> bool {
    &&& after.wf()
    &&& after@ == before@.remove(k)
    &&& r == if before@.contains_key(k) {
        Some(before@[k])
    } else {
        None::<V>
    }
    &&& after.spec_len() == before.spec_len() - if before@.contains_key(k) {
        1int
    } else {
        0int
    }
}

/// After `k` is inserted with `v`, looking `k` up gives `v`, and so it stays
/// while other keys are inserted or removed; other keys keep their values.
pub proof fn insert_then_get<V>(m: Map<Seq<char>, V>, k: Seq<char>, v: V, q: Seq<char>, w: V)
    ensures
        m.insert(k, v).contains_key(k),
        m.insert(k, v)[k] == v,
        q != k ==> m.insert(k, v).insert(q, w)[k] == v,
        q != k ==> m.insert(k, v).remove(q)[k] == v,
        q != k ==> m.insert(k, v).contains_key(q) == m.contains_key(q),
        q != k && m.contains_key(q) ==> m.insert(k, v)[q] == m[q],
{
}

/// Inserting a fresh key twice, with `v1` and then `v2`: the second insertion
/// hands back `v1`, the key then gives `v2`, and the length grows by one.
pub proof fn insert_twice<K: MapKey, V>(
    m0: HashMap<K, V>,
    m1: HashMap<K, V>,
    m2: HashMap<K, V>,
    k: Seq<char>,
    v1: V,
    v2: V,
    r1: Option<V>,
    r2: Option<V>,
)
    requires
        !m0@.contains_key(k),
        inserts(m0, m1, k, v1, r1),
        inserts(m1, m2, k, v2, r2),
    ensures
        r1 is None,
        r2 == Some(v1),
        m2@.contains_key(k),
        m2@[k] == v2,
        m2.spec_len() == m0.spec_len() + 1,
{
}

/// Removing a key just inserted with `v` hands back `v` and leaves the key
/// absent; removing an absent key hands back nothing and keeps the length.
pub proof fn insert_then_remove<K: MapKey, V>(
    m0: HashMap<K, V>,
    m1: HashMap<K, V>,
    m2: HashMap<K, V>,
    k: Seq<char>,
    v: V,
    r1: Option<V>,
    r2: Option<V>,
)
    requires
        inserts(m0, m1, k, v, r1),
        removes(m1, m2, k, r2),
    ensures
        r2 == Some(v),
        !m2@.contains_key(k),
        m2.spec_len() + 1 == m1.spec_len(),
{
}

/// Removing a key that the map lacks changes nothing that a caller sees.
pub proof fn remove_absent<K: MapKey, V>(
    m0: HashMap<K, V>,
    m1: HashMap<K, V>,
    k: Seq<char>,
    r: Option<V>,
)
    requires
        !m0@.contains_key(k),
        removes(m0, m1, k, r),
    ensures
        r is None,
        m1.spec_len() == m0.spec_len(),
        m1@ == m0@,
{
    assert(m1@ =~= m0@);
}

/// The length of a map is the number of its keys; so each insertion of a
/// fresh key adds one, each removal of a present key takes one away, and
/// nothing else changes it.
pub proof fn len_is_key_count<K: MapKey, V>(m: HashMap<K, V>)
    requires
        m.wf(),
    ensures
        m@.dom().finite(),
        m.spec_len() == m@.dom().len(),
{
    m.lemma_pairs_complete();
    let ps = m.pairs();
    let keys = ps.map_values(|p: (K, V)| p.0.key_view());
    assert(keys.no_duplicates()) by {
        assert forall|i: int, j: int| 0 <= i < keys.len() && 0 <= j < keys.len() && i != j implies keys[i]
            != keys[j] by {
            if i < j {
                assert(ps[i].0.key_view() != ps[j].0.key_view());
            } else {
                assert(ps[j].0.key_view() != ps[i].0.key_view());
            }
        }
    }
    assert(keys.to_set() =~= m@.dom()) by {
        assert forall|x: Seq<char>| keys.to_set().contains(x) implies m@.dom().contains(x) by {
            let i = choose|i: int| 0 <= i < keys.len() && keys[i] == x;
            assert(ps[i].0.key_view() == x);
        }
        assert forall|x: Seq<char>| m@.dom().contains(x) implies keys.to_set().contains(x) by {
            assert(m@.contains_key(x));
            let p = choose|p: int| 0 <= p < ps.len() && #[trigger] ps[p].0.key_view() == x;
            assert(keys[p] == x);
        }
    }
    keys.unique_seq_to_set();
    seq_to_set_is_finite(keys);
}

/// Asking a vacant entry for `v` stores `v`; asking again for the same key
/// gives the stored value back, whatever value is offered then.
pub proof fn or_insert_twice<V>(m: Map<Seq<char>, V>, k: Seq<char>, v: V, w: V)
    requires
        !m.contains_key(k),
    ensures
        m.insert(k, v).contains_key(k),
        m.insert(k, v)[k] == v,
        m.insert(k, v).insert(k, m.insert(k, v)[k]) == m.insert(k, v),
{
    assert(m.insert(k, v).insert(k, m.insert(k, v)[k]) =~= m.insert(k, v));
}

} // verus!
