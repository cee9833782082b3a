use vstd::prelude::*;

verus! {

/// The operations of the NFT keeper (none yet).
pub trait NftKeeperI {}

/// The keeper of the NFT module.
pub struct NftKeeper {}

impl NftKeeper {
    pub fn new() -> (r: Self) {
        Self {}
    }
}

impl NftKeeperI for NftKeeper {}

} // verus!
