use vstd::prelude::*;

use crate::hash::{hash_pair, sha256_spec};
use crate::types::InterLiquidSdkError;

verus! {

/// What the transaction aggregation circuit makes public.
#[derive(Clone, Debug)]
pub struct PublicInputTxAgg {
    pub txs_root: [u8; 32],
    pub env_hash: [u8; 32],
    pub accum_diffs_hash_left_prev: [u8; 32],
    pub accum_diffs_hash_right_next: [u8; 32],
    pub entire_root: [u8; 32],
}

impl PublicInputTxAgg {
    pub fn new(
        txs_root: [u8; 32],
        env_hash: [u8; 32],
        accum_diffs_hash_left_prev: [u8; 32],
        accum_diffs_hash_right_next: [u8; 32],
        entire_root: [u8; 32],
    ) -> (r: Self)
        ensures
            r.txs_root == txs_root,
            r.env_hash == env_hash,
            r.accum_diffs_hash_left_prev == accum_diffs_hash_left_prev,
            r.accum_diffs_hash_right_next == accum_diffs_hash_right_next,
            r.entire_root == entire_root,
    {
        Self { txs_root, env_hash, accum_diffs_hash_left_prev, accum_diffs_hash_right_next, entire_root }
    }
}

/// What the transaction aggregation circuit is given: the two halves it
/// joins and their proofs.
#[derive(Clone, Debug)]
pub struct WitnessTxAgg {
    pub txs_root_left: [u8; 32],
    pub txs_root_right: [u8; 32],
    pub env_hash: [u8; 32],
    pub accum_diffs_hash_left_prev: [u8; 32],
    pub accum_diffs_hash_mid: [u8; 32],
    pub accum_diffs_hash_right_next: [u8; 32],
    pub entire_root: [u8; 32],
    pub proof_left: Vec<u8>,
    pub proof_right: Vec<u8>,
}

impl WitnessTxAgg {
    pub fn new(
        txs_root_left: [u8; 32],
        txs_root_right: [u8; 32],
        env_hash: [u8; 32],
        accum_diffs_hash_left_prev: [u8; 32],
        accum_diffs_hash_mid: [u8; 32],
        accum_diffs_hash_right_next: [u8; 32],
        entire_root: [u8; 32],
        proof_left: Vec<u8>,
        proof_right: Vec<u8>,
    ) -> (r: Self)
        ensures
            r.txs_root_left == txs_root_left,
            r.txs_root_right == txs_root_right,
            r.env_hash == env_hash,
            r.accum_diffs_hash_left_prev == accum_diffs_hash_left_prev,
            r.accum_diffs_hash_mid == accum_diffs_hash_mid,
            r.accum_diffs_hash_right_next == accum_diffs_hash_right_next,
            r.entire_root == entire_root,
            r.proof_left == proof_left,
            r.proof_right == proof_right,
    {
        Self {
            txs_root_left,
            txs_root_right,
            env_hash,
            accum_diffs_hash_left_prev,
            accum_diffs_hash_mid,
            accum_diffs_hash_right_next,
            entire_root,
            proof_left,
            proof_right,
        }
    }
}

/// The aggregation circuit: the transactions root of the two halves is the
/// hash of the left root followed by the right root; the outer hashes pass
/// through. It always succeeds.
pub fn circuit_tx_agg(witness: WitnessTxAgg) -> (r: Result<PublicInputTxAgg, InterLiquidSdkError>)
    ensures
        r matches Ok(p) && p.txs_root@ == sha256_spec(witness.txs_root_left@ + witness.txs_root_right@)
            && p.env_hash == witness.env_hash && p.accum_diffs_hash_left_prev == witness.accum_diffs_hash_left_prev
            && p.accum_diffs_hash_right_next == witness.accum_diffs_hash_right_next && p.entire_root
            == witness.entire_root,
{
    let tx_root = hash_pair(&witness.txs_root_left, &witness.txs_root_right);
    Ok(
        PublicInputTxAgg::new(
            tx_root,
            witness.env_hash,
            witness.accum_diffs_hash_left_prev,
            witness.accum_diffs_hash_right_next,
            witness.entire_root,
        ),
    )
}

} // verus!
