use vstd::prelude::*;

use crate::types::InterLiquidSdkError;

verus! {

/// A key that checks signatures of messages.
pub trait VerifyingKey {
    /// `Ok` when `sig` is a valid signature of `msg` under this key.
    fn verify(&self, msg: &[u8], sig: &[u8]) -> Result<(), InterLiquidSdkError>;
}

} // verus!
