use vstd::prelude::*;

use crate::trie::db::copy_bytes;
use crate::tx::Msg;
use crate::types::{Address, SerializableAny};
use crate::utils::sorted_map::SortedMap;

verus! {

/// The set that holds one address.
pub fn single_address(address: &Address) -> (r: SortedMap<()>)
    ensures
        r.wf(),
        r@ == map![address@ => ()],
{
    let mut m: SortedMap<()> = SortedMap::new();
    m.insert(copy_bytes(address), ());
    assert(m@ =~= map![address@ => ()]);
    m
}

/// Adds a verifying key to the account at `address`.
#[derive(Clone, Debug)]
pub struct MsgAddKey {
    pub address: Address,
    pub verifying_key: SerializableAny,
}

impl Msg for MsgAddKey {
    /// The account itself signs.
    fn signer_addresses(&self) -> (r: SortedMap<()>)
        ensures
            r.wf(),
            r@ == map![self.address@ => ()],
    {
        single_address(&self.address)
    }
}

} // verus!
