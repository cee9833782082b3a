use vstd::prelude::*;

use crate::types::Address;

verus! {

/// An account: its address and the nonce that each transaction of it
/// increments, against replays.
#[derive(Clone, Copy, Debug)]
pub struct Account {
    pub address: Address,
    pub nonce: u64,
}

impl Account {
    /// A new account at `address`, with nonce zero.
    pub fn new(address: Address) -> (r: Self)
        ensures
            r.address == address,
            r.nonce == 0,
    {
        Self { address, nonce: 0 }
    }
}

} // verus!
