use vstd::prelude::*;

use crate::tx::Tx;
use crate::types::{Address, SerializableAny};
use crate::utils::sorted_map::SortedMap;

verus! {

/// The body of a transaction: its messages, its timeout (Unix seconds) and
/// its options.
#[derive(Clone, Debug)]
pub struct TxBody {
    pub msgs: Vec<SerializableAny>,
    pub timeout_seconds: u64,
    pub options: Vec<SerializableAny>,
}

/// How one signer authenticates: its address, nonce, the index of its
/// verifying key, and that key.
#[derive(Clone, Debug)]
pub struct AuthInfo {
    pub address: Address,
    pub nonce: u64,
    pub key_index: u64,
    pub verifying_key: SerializableAny,
}

/// A standard transaction: the body, and the authentication info and the
/// signature of each signer, by address.
pub struct StdTx {
    pub body: TxBody,
    pub auth_info: SortedMap<AuthInfo>,
    pub signature: SortedMap<Vec<u8>>,
}

impl Tx for StdTx {
    /// Copies of the messages of the body, in order.
    fn msgs(&self) -> (r: Vec<SerializableAny>)
        ensures
            r@.len() == self.body.msgs@.len(),
            forall|i: int|
                0 <= i < r@.len() ==> (#[trigger] r@[i]).type_ == self.body.msgs@[i].type_ && r@[i].value@
                    == self.body.msgs@[i].value@,
    {
        let mut r: Vec<SerializableAny> = Vec::new();
        let mut i: usize = 0;
        while i < self.body.msgs.len()
            invariant
                i <= self.body.msgs@.len(),
                r@.len() == i,
                forall|j: int|
                    0 <= j < i ==> (#[trigger] r@[j]).type_ == self.body.msgs@[j].type_ && r@[j].value@
                        == self.body.msgs@[j].value@,
            decreases self.body.msgs@.len() - i,
        {
            r.push(self.body.msgs[i].duplicate());
            i += 1;
        }
        r
    }
}

/// What the signers sign: the body, the authentication info and the chain.
pub struct SignDoc<'a> {
    pub body: &'a TxBody,
    pub auth_info: &'a SortedMap<AuthInfo>,
    pub chain_id: &'a str,
}

impl<'a> SignDoc<'a> {
    pub fn new(body: &'a TxBody, auth_info: &'a SortedMap<AuthInfo>, chain_id: &'a str) -> (r: Self)
        ensures
            r.body == body,
            r.auth_info == auth_info,
            r.chain_id == chain_id,
    {
        Self { body, auth_info, chain_id }
    }
}

} // verus!
