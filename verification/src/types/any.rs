use vstd::prelude::*;

verus! {

/// A serialized value with the name of its type, so that it can be read
/// back as the right type.
#[derive(Clone, Debug)]
pub struct SerializableAny {
    pub type_: String,
    pub value: Vec<u8>,
}

impl SerializableAny {
    pub fn new(type_: String, value: Vec<u8>) -> (r: Self)
        ensures
            r.type_ == type_,
            r.value == value,
    {
        Self { type_, value }
    }

    /// A copy of this value.
    pub fn duplicate(&self) -> (r: Self)
        ensures
            r.type_ == self.type_,
            r.value@ == self.value@,
    {
        Self { type_: self.type_.clone(), value: crate::trie::db::copy_bytes(self.value.as_slice()) }
    }
}

} // verus!
