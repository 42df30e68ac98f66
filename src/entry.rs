//! Entries: the result of looking a key up for a change.
use crate::key::MapKey;
use crate::map::{slot, HashMap};
use vstd::prelude::*;

verus! {

/// An entry for a key that the map holds: a reference to its value.
pub struct OccupiedEntry<'a, V> {
    pub value: &'a mut V,
}

/// An entry for a key that the map lacks: the key, the map, and the bucket
/// that the key will go to.
pub struct VacantEntry<'a, K, V> {
    pub key: K,
    pub map: &'a mut HashMap<K, V>,
    pub index: usize,
}

/// The entry for one key of a map.
pub enum Entry<'a, K, V> {
    Occupied(OccupiedEntry<'a, V>),
    Vacant(VacantEntry<'a, K, V>),
}

impl<'a, K: MapKey, V> VacantEntry<'a, K, V> {
    /// The map holds no value for the key, the index is the key's bucket,
    /// and one more pair fits without growing the bucket array.
    pub open spec fn wf(&self) -> bool {
        &&& self.map.wf()
        &&& self.map.bucket_count() > 0
        &&& self.index == slot(self.key.key_view(), self.map.bucket_count())
        &&& !self.map@.contains_key(self.key.key_view())
        &&& self.map.spec_len() < usize::MAX / 16
        &&& self.map.spec_len() <= 3 * self.map.bucket_count() / 4
    }

    /// Stores the key with `value` and returns a reference to the stored
    /// value.
    pub fn insert(self, value: V) -> (r: &'a mut V)
        requires
            self.wf(),
        ensures
            *r == value,
            final(self.map).wf(),
            final(self.map)@ == old(self.map)@.insert(self.key.key_view(), *final(r)),
            final(self.map).spec_len() == old(self.map).spec_len() + 1,
    {
        self.map.push_new(self.index, self.key, value)
    }
}

impl<'a, K: MapKey, V> Entry<'a, K, V> {
    /// A vacant entry is ready to insert.
    pub open spec fn wf(&self) -> bool {
        match self {
            Entry::Occupied(_) => true,
            Entry::Vacant(e) => e.wf(),
        }
    }

    /// The value of an occupied entry; for a vacant one, `value` stored
    /// under the entry's key.
    pub fn or_insert(self, value: V) -> (r: &'a mut V)
        requires
            self.wf(),
        ensures
            match self {
                Entry::Occupied(e) => *r == *e.value && *final(e.value) == *final(r),
                Entry::Vacant(e) => {
                    &&& *r == value
                    &&& final(e.map).wf()
                    &&& final(e.map)@ == e.map@.insert(e.key.key_view(), *final(r))
                    &&& final(e.map).spec_len() == e.map.spec_len() + 1
                },
            },
    {
        match self {
            Entry::Occupied(e) => e.value,
            Entry::Vacant(e) => e.insert(value),
        }
    }

    /// As `or_insert`, with the value made by `make`, which is called only
    /// where the entry is vacant.
    pub fn or_insert_with<F: FnOnce() -> V>(self, make: F) -> (r: &'a mut V)
        requires
            self.wf(),
            self is Vacant ==> make.requires(()),
        ensures
            match self {
                Entry::Occupied(e) => *r == *e.value && *final(e.value) == *final(r),
                Entry::Vacant(e) => {
                    &&& make.ensures((), *r)
                    &&& final(e.map).wf()
                    &&& final(e.map)@ == e.map@.insert(e.key.key_view(), *final(r))
                    &&& final(e.map).spec_len() == e.map.spec_len() + 1
                },
            },
    {
        match self {
            Entry::Occupied(e) => e.value,
            Entry::Vacant(e) => e.insert(make()),
        }
    }

    /// As `or_insert`, with the default value of `V`.
    pub fn or_default(self) -> (r: &'a mut V) where V: Default
        requires
            self.wf(),
        ensures
            match self {
                Entry::Occupied(e) => *r == *e.value && *final(e.value) == *final(r),
                Entry::Vacant(e) => {
                    &&& call_ensures(V::default, (), *r)
                    &&& final(e.map).wf()
                    &&& final(e.map)@ == e.map@.insert(e.key.key_view(), *final(r))
                    &&& final(e.map).spec_len() == e.map.spec_len() + 1
                },
            },
    {
        match self {
            Entry::Occupied(e) => e.value,
            Entry::Vacant(e) => e.insert(V::default()),
        }
    }
}

} // verus!
