//! A hash index from byte-string keys to slot numbers, held in a
//! `hashbrown` map.
use vstd::prelude::*;

verus! {

/// Slot numbers of byte-string keys. hashbrown's `HashMap` cannot be
/// declared here, as its allocator bound names a trait of `allocator-api2`,
/// so the map sits in this struct.
#[verifier::external_body]
pub struct KeyIndex {
    map: hashbrown::HashMap<Vec<u8>, usize>,
}

/// The slot that each key holds.
pub uninterp spec fn key_slots(m: KeyIndex) -> Map<Seq<u8>, usize>;

impl KeyIndex {
    /// Relies on `hashbrown::HashMap::new`: a new map holds no key.
    #[verifier::external_body]
    pub(crate) fn new() -> (r: Self)
        ensures
            key_slots(r).dom() == Set::<Seq<u8>>::empty(),
    {
        KeyIndex { map: hashbrown::HashMap::new() }
    }

    /// Relies on `hashbrown::HashMap::get`: the value stored under the key
    /// equal to `k` (`Vec<u8>` and `[u8]` compare and hash alike), if any.
    #[verifier::external_body]
    pub(crate) fn get(&self, k: &[u8]) -> (r: Option<usize>)
        ensures
            r == (if key_slots(*self).contains_key(k@) {
                Some(key_slots(*self)[k@])
            } else {
                None::<usize>
            }),
    {
        self.map.get(k).copied()
    }

    /// Relies on `hashbrown::HashMap::insert`: afterwards `k` holds `v` and
    /// every other key keeps its value.
    #[verifier::external_body]
    pub(crate) fn insert(&mut self, k: Vec<u8>, v: usize)
        ensures
            key_slots(*final(self)) == key_slots(*old(self)).insert(k@, v),
    {
        self.map.insert(k, v);
    }
}

} // verus!
