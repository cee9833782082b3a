use vstd::prelude::*;

use super::msg_add_key::single_address;
use crate::tx::Msg;
use crate::types::Address;
use crate::utils::sorted_map::SortedMap;

verus! {

/// Deletes the verifying key at `key_index` from the account at `address`.
#[derive(Clone, Debug)]
pub struct MsgDelKey {
    pub address: Address,
    pub key_index: u64,
}

impl Msg for MsgDelKey {
    /// The account itself signs.
    fn signer_addresses(&self) -> (r: SortedMap<()>)
        ensures
            r.wf(),
            r@ == map![self.address@ => ()],
    {
        single_address(&self.address)
    }
}

} // verus!
