use vstd::prelude::*;
use vstd::string::StringSliceAdditionalSpecFns;

use crate::trie::db::copy_bytes;
use crate::types::InterLiquidSdkError;
use crate::utils::sorted_map::SortedMap;

verus! {

/// The registry of verifying key types, by type name (its UTF-8 bytes).
pub struct CryptoKeeper {
    unpack: SortedMap<()>,
}

impl CryptoKeeper {
    /// The registered type names.
    pub closed spec fn registered(&self) -> Map<Seq<u8>, ()> {
        self.unpack@
    }

    pub closed spec fn wf(&self) -> bool {
        self.unpack.wf()
    }

    /// A keeper with no registered type.
    pub fn new() -> (r: Self)
        ensures
            r.wf(),
            r.registered() == Map::<Seq<u8>, ()>::empty(),
    {
        let r = Self { unpack: SortedMap::new() };
        assert(r.unpack@ =~= Map::<Seq<u8>, ()>::empty());
        r
    }

    /// Registers the verifying key type named `key_type`; fails with
    /// `AlreadyExists` (and changes nothing) when it is registered.
    pub fn register_verifying_key(&mut self, key_type: &str) -> (r: Result<(), InterLiquidSdkError>)
        requires
            old(self).wf(),
        ensures
            final(self).wf(),
            old(self).registered().contains_key(key_type.spec_bytes()) ==> (r matches Err(e) && e is AlreadyExists
                && final(self).registered() == old(self).registered()),
            !old(self).registered().contains_key(key_type.spec_bytes()) ==> (r is Ok && final(self).registered()
                == old(self).registered().insert(key_type.spec_bytes(), ())),
    {
        let name = key_type.as_bytes();
        if self.unpack.contains_key(name) {
            return Err(InterLiquidSdkError::AlreadyExists(String::from_str("verifying key type already registered")));
        }
        self.unpack.insert(copy_bytes(name), ());
        Ok(())
    }

    /// Whether the type named `key_type` is registered (else unpacking a
    /// key of that type fails with `NotFound`).
    pub fn is_registered(&self, key_type: &str) -> (r: bool)
        requires
            self.wf(),
        ensures
            r == self.registered().contains_key(key_type.spec_bytes()),
    {
        self.unpack.contains_key(key_type.as_bytes())
    }
}

} // verus!
