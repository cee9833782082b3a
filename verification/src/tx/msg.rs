use vstd::prelude::*;

use crate::utils::sorted_map::SortedMap;

verus! {

/// A message of a transaction.
pub trait Msg {
    /// The addresses that must sign the message, as a set of 32-byte keys.
    fn signer_addresses(&self) -> SortedMap<()>;
}

} // verus!
