use vstd::prelude::*;

verus! {

/// A 32-byte address of an account or another entity.
pub type Address = [u8; 32];

} // verus!
