use std::sync::Arc;
use vstd::prelude::*;

use super::keeper::NftKeeper;

verus! {

/// The NFT module, which shares its keeper.
pub struct NftModule {
    keeper: Arc<NftKeeper>,
}

impl NftModule {
    pub fn new(keeper: Arc<NftKeeper>) -> (r: Self)
        ensures
            r.keeper_of() == *keeper,
    {
        Self { keeper }
    }

    /// The keeper that the module shares.
    pub closed spec fn keeper_of(&self) -> NftKeeper {
        *self.keeper
    }

    pub fn keeper(&self) -> (r: &NftKeeper)
        ensures
            *r == self.keeper_of(),
    {
        &self.keeper
    }
}

} // verus!
