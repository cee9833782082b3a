use vstd::prelude::*;

use crate::tx::Msg;
use crate::types::{Address, Tokens};
use crate::utils::sorted_map::SortedMap;
use crate::x::auth::msg_add_key::single_address;

verus! {

/// Sends tokens from one account to another.
pub struct MsgSend {
    pub from_address: Address,
    pub to_address: Address,
    pub tokens: Tokens,
}

impl Msg for MsgSend {
    /// The sender signs.
    fn signer_addresses(&self) -> (r: SortedMap<()>)
        ensures
            r.wf(),
            r@ == map![self.from_address@ => ()],
    {
        single_address(&self.from_address)
    }
}

} // verus!
