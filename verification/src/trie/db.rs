use vstd::prelude::*;

use super::nibble::Nibble;
use crate::hash::append_bytes;
use crate::utils::sorted_map::SortedMap;

verus! {

/// A store of byte values under nibble keys.
pub trait NibblePatriciaTrieDb {
    fn get(&self, key: &[Nibble]) -> Option<Vec<u8>>;

    fn set(&mut self, key: &[Nibble], value: &[u8]);

    fn del(&mut self, key: &[Nibble]);
}

/// A copy of a byte string.
pub fn copy_bytes(s: &[u8]) -> (r: Vec<u8>)
    ensures
        r@ == s@,
{
    let mut v: Vec<u8> = Vec::new();
    append_bytes(&mut v, s);
    assert(Seq::<u8>::empty() + s@ =~= s@);
    v
}

/// An in-memory store, ordered by key.
pub struct NibblePatriciaTrieMemoryDb {
    db: SortedMap<Vec<u8>>,
}

/// The contents of a store of byte strings, as a map of byte strings.
pub open spec fn bytes_map_view(m: Map<Seq<u8>, Vec<u8>>) -> Map<Seq<u8>, Seq<u8>> {
    m.map_values(|v: Vec<u8>| v@)
}

impl View for NibblePatriciaTrieMemoryDb {
    type V = Map<Seq<u8>, Seq<u8>>;

    closed spec fn view(&self) -> Map<Seq<u8>, Seq<u8>> {
        bytes_map_view(self.db@)
    }
}

impl NibblePatriciaTrieMemoryDb {
    #[verifier::type_invariant]
    spec fn inv(self) -> bool {
        self.db.wf()
    }

    /// An empty store.
    pub fn new() -> (r: Self)
        ensures
            r@ == Map::<Seq<u8>, Seq<u8>>::empty(),
    {
        let r = Self { db: SortedMap::new() };
        assert(bytes_map_view(r.db@) =~= Map::<Seq<u8>, Seq<u8>>::empty());
        r
    }
}

impl NibblePatriciaTrieDb for NibblePatriciaTrieMemoryDb {
    /// The value stored under `key`, if any.
    fn get(&self, key: &[Nibble]) -> (r: Option<Vec<u8>>)
        ensures
            r matches Some(v) ==> self@.contains_key(key@) && v@ == self@[key@],
            r is None ==> !self@.contains_key(key@),
    {
        proof {
            use_type_invariant(self);
        }
        match self.db.get(key) {
            Some(v) => Some(copy_bytes(v.as_slice())),
            None => None,
        }
    }

    /// Stores `value` under `key`, replacing what was there.
    fn set(&mut self, key: &[Nibble], value: &[u8])
        ensures
            final(self)@ == old(self)@.insert(key@, value@),
    {
        proof {
            use_type_invariant(&*self);
        }
        let ghost before = self.db@;
        let k = copy_bytes(key);
        let v = copy_bytes(value);
        let mut db = SortedMap::new();
        std::mem::swap(&mut db, &mut self.db);
        db.insert(k, v);
        self.db = db;
        assert(bytes_map_view(self.db@) =~= bytes_map_view(before).insert(key@, value@));
    }

    /// Removes what is stored under `key`.
    fn del(&mut self, key: &[Nibble])
        ensures
            final(self)@ == old(self)@.remove(key@),
    {
        proof {
            use_type_invariant(&*self);
        }
        let ghost before = self.db@;
        let mut db = SortedMap::new();
        std::mem::swap(&mut db, &mut self.db);
        let _ = db.remove(key);
        self.db = db;
        assert(bytes_map_view(self.db@) =~= bytes_map_view(before).remove(key@));
    }
}

/// A read after a write to the same key gives back what was written, and a
/// write leaves every other key as it was.
pub proof fn law_memory_db_read_after_write(
    before: Map<Seq<u8>, Seq<u8>>,
    key: Seq<u8>,
    value: Seq<u8>,
    other: Seq<u8>,
)
    ensures
        before.insert(key, value).contains_key(key),
        before.insert(key, value)[key] == value,
        other != key ==> (before.insert(key, value).contains_key(other) == before.contains_key(other)),
        other != key && before.contains_key(other) ==> before.insert(key, value)[other] == before[other],
{
}

/// A read after a delete of the same key finds nothing, and a delete leaves
/// every other key as it was.
pub proof fn law_memory_db_read_after_delete(before: Map<Seq<u8>, Seq<u8>>, key: Seq<u8>, other: Seq<u8>)
    ensures
        !before.remove(key).contains_key(key),
        other != key ==> (before.remove(key).contains_key(other) == before.contains_key(other)),
        other != key && before.contains_key(other) ==> before.remove(key)[other] == before[other],
{
}

} // verus!
