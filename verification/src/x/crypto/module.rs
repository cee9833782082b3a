use std::sync::Arc;
use vstd::prelude::*;

use super::keeper::CryptoKeeper;

verus! {

/// The crypto module, which shares its keeper.
pub struct CryptoModule {
    keeper: Arc<CryptoKeeper>,
}

impl CryptoModule {
    pub fn new(keeper: Arc<CryptoKeeper>) -> (r: Self)
        ensures
            r.keeper_of() == *keeper,
    {
        Self { keeper }
    }

    /// The keeper that the module shares.
    pub closed spec fn keeper_of(&self) -> CryptoKeeper {
        *self.keeper
    }

    pub fn keeper(&self) -> (r: &CryptoKeeper)
        ensures
            *r == self.keeper_of(),
    {
        &self.keeper
    }
}

} // verus!
