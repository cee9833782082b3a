use std::marker::PhantomData;
use vstd::prelude::*;

use super::key::{join_keys, joined, parts_view};

verus! {

/// One value of type `V` stored in the state under a fixed key.
pub struct Item<V> {
    key: Vec<u8>,
    phantom: PhantomData<V>,
}

impl<V> Item<V> {
    /// The key under which the value is stored.
    pub closed spec fn storage_key(&self) -> Seq<u8> {
        self.key@
    }

    /// An item stored under the key that the parts join into.
    pub fn new(key: &[&[u8]]) -> (r: Self)
        ensures
            r.storage_key() == joined(parts_view(key@)),
    {
        Self { key: join_keys(key), phantom: PhantomData }
    }
}

} // verus!
