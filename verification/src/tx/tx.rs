use vstd::prelude::*;

use crate::types::SerializableAny;

verus! {

/// A transaction: a list of serialized messages.
pub trait Tx {
    fn msgs(&self) -> Vec<SerializableAny>;
}

} // verus!
