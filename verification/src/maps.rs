//! Hash maps used during construction and for the whole-chunk lookup.

use hashbrown::HashMap;
use rustc_hash::FxBuildHasher;
use vstd::prelude::*;

verus! {

/// A hash map from byte strings to numbers: a `hashbrown::HashMap` with the Fx hasher.
#[verifier::external_body]
pub struct BytesMap {
    map: HashMap<Vec<u8>, u32, FxBuildHasher>,
}

/// The entries of a [`BytesMap`].
pub uninterp spec fn bytes_entries(m: BytesMap) -> Map<Seq<u8>, u32>;

impl View for BytesMap {
    type V = Map<Seq<u8>, u32>;

    open spec fn view(&self) -> Map<Seq<u8>, u32> {
        bytes_entries(*self)
    }
}

impl BytesMap {
    /// `hashbrown::HashMap::default`: a map without entries.
    #[verifier::external_body]
    pub(crate) fn new() -> (m: Self)
        ensures
            bytes_entries(m) == (Map::<Seq<u8>, u32>::empty()),
    {
        BytesMap { map: HashMap::default() }
    }

    /// `hashbrown::HashMap::insert`: the key maps to the value afterwards, and what it mapped to
    /// before, if anything, is returned.
    #[verifier::external_body]
    pub(crate) fn insert(&mut self, key: Vec<u8>, value: u32) -> (previous: Option<u32>)
        ensures
            bytes_entries(*final(self)) == bytes_entries(*old(self)).insert(key@, value),
            previous == if bytes_entries(*old(self)).contains_key(key@) {
                Some(bytes_entries(*old(self))[key@])
            } else {
                None
            },
    {
        self.map.insert(key, value)
    }

    /// `hashbrown::HashMap::get`: what the key maps to, if anything.
    #[verifier::external_body]
    pub(crate) fn get(&self, key: &[u8]) -> (value: Option<u32>)
        ensures
            value == if bytes_entries(*self).contains_key(key@) {
                Some(bytes_entries(*self)[key@])
            } else {
                None
            },
    {
        self.map.get(key).copied()
    }
}

/// A hash map from words to numbers: a `hashbrown::HashMap` with the Fx hasher.
#[verifier::external_body]
pub struct WordMap {
    map: HashMap<u64, u32, FxBuildHasher>,
}

/// The entries of a [`WordMap`].
pub uninterp spec fn word_entries(m: WordMap) -> Map<u64, u32>;

impl View for WordMap {
    type V = Map<u64, u32>;

    open spec fn view(&self) -> Map<u64, u32> {
        word_entries(*self)
    }
}

impl WordMap {
    /// `hashbrown::HashMap::default`: a map without entries.
    #[verifier::external_body]
    pub(crate) fn new() -> (m: Self)
        ensures
            word_entries(m) == (Map::<u64, u32>::empty()),
    {
        WordMap { map: HashMap::default() }
    }

    /// `hashbrown::HashMap::insert`: the key maps to the value afterwards, and what it mapped to
    /// before, if anything, is returned.
    #[verifier::external_body]
    pub(crate) fn insert(&mut self, key: u64, value: u32) -> (previous: Option<u32>)
        ensures
            word_entries(*final(self)) == word_entries(*old(self)).insert(key, value),
            previous == if word_entries(*old(self)).contains_key(key) {
                Some(word_entries(*old(self))[key])
            } else {
                None
            },
    {
        self.map.insert(key, value)
    }

    /// `hashbrown::HashMap::get`: what the key maps to, if anything.
    #[verifier::external_body]
    pub(crate) fn get(&self, key: u64) -> (value: Option<u32>)
        ensures
            value == if word_entries(*self).contains_key(key) {
                Some(word_entries(*self)[key])
            } else {
                None
            },
    {
        self.map.get(&key).copied()
    }
}

} // verus!
