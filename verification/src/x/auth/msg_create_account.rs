use vstd::prelude::*;

use super::msg_add_key::single_address;
use crate::hash::{append_bytes, sha256, sha256_spec};
use crate::tx::Msg;
use crate::types::{Address, SerializableAny};
use crate::utils::sorted_map::SortedMap;

verus! {

/// Creates an account, at an address derived from its creator and a seed,
/// with a first verifying key.
#[derive(Clone, Debug)]
pub struct MsgCreateAccount {
    pub creator: Address,
    pub address_seed: Vec<u8>,
    pub verifying_key: SerializableAny,
}

impl MsgCreateAccount {
    /// The address of the account to create: SHA-256 of the creator's
    /// address followed by the seed.
    pub fn account_address(&self) -> (r: Address)
        ensures
            r@ == sha256_spec(self.creator@ + self.address_seed@),
    {
        let mut buf: Vec<u8> = Vec::new();
        append_bytes(&mut buf, &self.creator);
        append_bytes(&mut buf, self.address_seed.as_slice());
        assert(buf@ =~= self.creator@ + self.address_seed@);
        sha256(buf.as_slice())
    }
}

impl Msg for MsgCreateAccount {
    /// The creator signs.
    fn signer_addresses(&self) -> (r: SortedMap<()>)
        ensures
            r.wf(),
            r@ == map![self.creator@ => ()],
    {
        single_address(&self.creator)
    }
}

} // verus!
