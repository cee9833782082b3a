use vstd::prelude::*;

use crate::hash::{entire_root, sha256, sha256_spec};

verus! {

/// What the transaction circuit makes public: the hashes of the
/// transaction, of its environment and of the accumulated logs before and
/// after it, and the entire root it ran against.
#[derive(Clone, Debug)]
pub struct PublicInputTx {
    pub tx_hash: [u8; 32],
    pub env_hash: [u8; 32],
    pub accum_logs_hash_prev: [u8; 32],
    pub accum_logs_hash_next: [u8; 32],
    pub entire_root: [u8; 32],
}

impl PublicInputTx {
    pub fn new(
        tx_hash: [u8; 32],
        env_hash: [u8; 32],
        accum_logs_hash_prev: [u8; 32],
        accum_logs_hash_next: [u8; 32],
        entire_root: [u8; 32],
    ) -> (r: Self)
        ensures
            r.tx_hash == tx_hash,
            r.env_hash == env_hash,
            r.accum_logs_hash_prev == accum_logs_hash_prev,
            r.accum_logs_hash_next == accum_logs_hash_next,
            r.entire_root == entire_root,
    {
        Self { tx_hash, env_hash, accum_logs_hash_prev, accum_logs_hash_next, entire_root }
    }
}

/// The public input of the transaction circuit, once the transaction has
/// run: the SHA-256 hashes of the serialized transaction, environment and
/// accumulated logs before and after it, and the entire root of the state
/// and keys roots it ran against.
pub fn public_input_tx(
    tx_bytes: &[u8],
    env_bytes: &[u8],
    accum_logs_bytes_prev: &[u8],
    accum_logs_bytes_next: &[u8],
    state_root: &[u8; 32],
    keys_root: &[u8; 32],
) -> (r: PublicInputTx)
    ensures
        r.tx_hash@ == sha256_spec(tx_bytes@),
        r.env_hash@ == sha256_spec(env_bytes@),
        r.accum_logs_hash_prev@ == sha256_spec(accum_logs_bytes_prev@),
        r.accum_logs_hash_next@ == sha256_spec(accum_logs_bytes_next@),
        r.entire_root@ == sha256_spec(state_root@ + keys_root@),
{
    PublicInputTx::new(
        sha256(tx_bytes),
        sha256(env_bytes),
        sha256(accum_logs_bytes_prev),
        sha256(accum_logs_bytes_next),
        entire_root(state_root, keys_root),
    )
}

} // verus!
