use vstd::prelude::*;

verus! {

/// The chain and block that a transaction runs in. `block_time` is in
/// seconds since the Unix epoch.
#[derive(Clone, Debug, PartialEq, Eq)]
pub struct Environment {
    pub chain_id: String,
    pub block_height: u64,
    pub block_time: u64,
}

impl Environment {
    pub fn new(chain_id: String, block_height: u64, block_time: u64) -> (r: Self)
        ensures
            r.chain_id == chain_id,
            r.block_height == block_height,
            r.block_time == block_time,
    {
        Self { chain_id, block_height, block_time }
    }
}

} // verus!
