use vstd::prelude::*;

use crate::hash::{entire_root, sha256_spec};
use crate::types::InterLiquidSdkError;

verus! {

/// What the block circuit makes public: the root of the block's
/// transactions and the entire roots before and after the block.
#[derive(Clone, Debug)]
pub struct PublicInputBlock {
    pub txs_root: [u8; 32],
    pub entire_root_prev: [u8; 32],
    pub entire_root_next: [u8; 32],
}

impl PublicInputBlock {
    pub fn new(txs_root: [u8; 32], entire_root_prev: [u8; 32], entire_root_next: [u8; 32]) -> (r: Self)
        ensures
            r.txs_root == txs_root,
            r.entire_root_prev == entire_root_prev,
            r.entire_root_next == entire_root_next,
    {
        Self { txs_root, entire_root_prev, entire_root_next }
    }
}

/// What the block circuit is given: the roots before and after the block
/// and the proofs of the circuits below it.
#[derive(Clone, Debug)]
pub struct WitnessBlock {
    pub txs_root: [u8; 32],
    pub state_root_prev: [u8; 32],
    pub state_root_next: [u8; 32],
    pub keys_root_prev: [u8; 32],
    pub keys_root_next: [u8; 32],
    pub accum_logs_hash: [u8; 32],
    pub proof_tx_agg: Vec<u8>,
    pub proof_commit_state: Vec<u8>,
    pub proof_commit_keys: Vec<u8>,
}

impl WitnessBlock {
    pub fn new(
        txs_root: [u8; 32],
        state_root_prev: [u8; 32],
        state_root_next: [u8; 32],
        keys_root_prev: [u8; 32],
        keys_root_next: [u8; 32],
        accum_logs_hash: [u8; 32],
        proof_tx_agg: Vec<u8>,
        proof_commit_state: Vec<u8>,
        proof_commit_keys: Vec<u8>,
    ) -> (r: Self)
        ensures
            r.txs_root == txs_root,
            r.state_root_prev == state_root_prev,
            r.state_root_next == state_root_next,
            r.keys_root_prev == keys_root_prev,
            r.keys_root_next == keys_root_next,
            r.accum_logs_hash == accum_logs_hash,
            r.proof_tx_agg == proof_tx_agg,
            r.proof_commit_state == proof_commit_state,
            r.proof_commit_keys == proof_commit_keys,
    {
        Self {
            txs_root,
            state_root_prev,
            state_root_next,
            keys_root_prev,
            keys_root_next,
            accum_logs_hash,
            proof_tx_agg,
            proof_commit_state,
            proof_commit_keys,
        }
    }
}

/// The block circuit: the entire roots before and after the block, each
/// the hash of the state root followed by the keys root. It always succeeds.
pub fn circuit_block(witness: WitnessBlock) -> (r: Result<PublicInputBlock, InterLiquidSdkError>)
    ensures
        r matches Ok(p) && p.txs_root == witness.txs_root && p.entire_root_prev@ == sha256_spec(
            witness.state_root_prev@ + witness.keys_root_prev@,
        ) && p.entire_root_next@ == sha256_spec(witness.state_root_next@ + witness.keys_root_next@),
{
    let entire_root_prev = entire_root(&witness.state_root_prev, &witness.keys_root_prev);
    let entire_root_next = entire_root(&witness.state_root_next, &witness.keys_root_next);
    Ok(PublicInputBlock::new(witness.txs_root, entire_root_prev, entire_root_next))
}

} // verus!
