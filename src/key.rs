//! Keys of the map: anything that reads as a string slice.
use std::hash::DefaultHasher;
use std::hash::Hash;
use std::hash::Hasher;
use vstd::prelude::*;
use vstd::std_specs::hash::DefaultHasherAdditionalSpecFns;

verus! {

/// A key type of the map. Two keys are the same key when they spell the same
/// characters, whatever their types; the hash of a key depends on those
/// characters alone.
pub trait MapKey {
    /// The characters that the key spells.
    spec fn key_view(&self) -> Seq<char>;

    fn key_str(&self) -> (r: &str)
        ensures
            r@ == self.key_view(),
    ;
}

impl MapKey for str {
    open spec fn key_view(&self) -> Seq<char> {
        self@
    }

    fn key_str(&self) -> (r: &str) {
        self
    }
}

impl MapKey for String {
    open spec fn key_view(&self) -> Seq<char> {
        self@
    }

    fn key_str(&self) -> (r: &str) {
        self.as_str()
    }
}

impl<'a> MapKey for &'a str {
    open spec fn key_view(&self) -> Seq<char> {
        (*self)@
    }

    fn key_str(&self) -> (r: &str) {
        *self
    }
}

/// The writes that hashing a string slice makes into a hasher.
pub uninterp spec fn str_hash_writes(s: Seq<char>) -> Seq<Seq<u8>>;

/// The hash code of a key: what a fresh `DefaultHasher` finishes with once
/// the key's characters were fed to it.
pub open spec fn hash_code(k: Seq<char>) -> u64 {
    DefaultHasher::spec_finish(str_hash_writes(k))
}

/// Relies on `<str as Hash>::hash`: the writes it makes into the hasher
/// depend on the characters of the slice alone.
#[verifier::external_body]
fn feed_str(s: &str, h: &mut DefaultHasher)
    ensures
        final(h)@ == old(h)@ + str_hash_writes(s@),
{
    s.hash(h)
}

/// Hashes a key with a fresh `DefaultHasher`.
pub fn hash_key<Q: MapKey + ?Sized>(k: &Q) -> (r: u64)
    ensures
        r == hash_code(k.key_view()),
{
    let mut h = DefaultHasher::new();
    feed_str(k.key_str(), &mut h);
    assert(Seq::<Seq<u8>>::empty() + str_hash_writes(k.key_view()) =~= str_hash_writes(
        k.key_view(),
    ));
    h.finish()
}

/// Whether two keys spell the same characters.
pub fn keys_equal<A: MapKey + ?Sized, B: MapKey + ?Sized>(a: &A, b: &B) -> (r: bool)
    ensures
        r == (a.key_view() == b.key_view()),
{
    let x = a.key_str().to_owned();
    let y = b.key_str().to_owned();
    x == y
}

} // verus!
