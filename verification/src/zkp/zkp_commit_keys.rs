use vstd::prelude::*;

use super::diff::{keys_fit, StateDiff};
use super::zkp_commit_state::{commit_outcome_holds, side_root};
use crate::hash::{sha256, sha256_spec};
use crate::trie::NibblePatriciaTrieRootPath;
use crate::types::InterLiquidSdkError;
use crate::utils::sorted_map::{bytes_equal, SortedMap};

verus! {

/// What the keys commitment circuit makes public: the keys roots before
/// and after, and the hash of the accumulated logs.
#[derive(Clone, Debug)]
pub struct PublicInputCommitKeys {
    pub keys_root_prev: [u8; 32],
    pub keys_root_next: [u8; 32],
    pub accum_logs_hash_final: [u8; 32],
}

impl PublicInputCommitKeys {
    pub fn new(keys_root_prev: [u8; 32], keys_root_next: [u8; 32], accum_logs_hash_final: [u8; 32]) -> (r: Self)
        ensures
            r.keys_root_prev == keys_root_prev,
            r.keys_root_next == keys_root_next,
            r.accum_logs_hash_final == accum_logs_hash_final,
    {
        Self { keys_root_prev, keys_root_next, accum_logs_hash_final }
    }
}

/// What the keys commitment circuit is given: the keys root before, the
/// changes of the accumulated logs by key, and a proof of the paths that
/// the changed keys take in the keys trie.
pub struct WitnessCommitKeys {
    pub keys_root_prev: [u8; 32],
    pub accum_logs_final: SortedMap<StateDiff>,
    pub keys_commit_path: NibblePatriciaTrieRootPath,
}

impl WitnessCommitKeys {
    pub fn new(
        keys_root_prev: [u8; 32],
        accum_logs_final: SortedMap<StateDiff>,
        keys_commit_path: NibblePatriciaTrieRootPath,
    ) -> (r: Self)
        ensures
            r.keys_root_prev == keys_root_prev,
            r.accum_logs_final == accum_logs_final,
            r.keys_commit_path == keys_commit_path,
    {
        Self { keys_root_prev, accum_logs_final, keys_commit_path }
    }
}

/// The public input of the keys commitment, as the pair of the root after
/// and the hash of the logs.
pub open spec fn commit_keys_view(r: Result<PublicInputCommitKeys, InterLiquidSdkError>) -> Result<
    (Seq<u8>, Seq<u8>),
    InterLiquidSdkError,
> {
    match r {
        Ok(p) => Ok((p.keys_root_next@, p.accum_logs_hash_final@)),
        Err(e) => Err(e),
    }
}

/// The keys commitment circuit: checks that the path, with every key that
/// was present before the logs, gives the keys root before; then gives the
/// keys root after the logs and the hash of the logs, whose serialized form
/// is `accum_logs_bytes_final`. The keys trie stores an empty value under
/// each key. Fails with the trie's error where a root cannot be computed,
/// and with `Other` where the root before differs.
pub fn circuit_commit_keys(witness: WitnessCommitKeys, accum_logs_bytes_final: &[u8]) -> (r: Result<
    PublicInputCommitKeys,
    InterLiquidSdkError,
>)
    requires
        witness.keys_commit_path.wf(),
        witness.accum_logs_final.wf(),
        keys_fit(witness.accum_logs_final),
    ensures
        commit_outcome_holds(
            witness.keys_commit_path,
            witness.accum_logs_final,
            false,
            witness.keys_root_prev@,
            commit_keys_view(r),
            sha256_spec(accum_logs_bytes_final@),
        ),
        r matches Ok(p) ==> p.keys_root_prev == witness.keys_root_prev,
{
    let path = &witness.keys_commit_path;
    let logs = &witness.accum_logs_final;
    let keys_root_prev = side_root(path, logs, true, false)?;
    if !bytes_equal(&keys_root_prev, &witness.keys_root_prev) {
        return Err(InterLiquidSdkError::Other(String::from_str("Inconsistent keys_root_prev and keys_commit_path")));
    }
    let keys_root_next = side_root(path, logs, false, false)?;
    let accum_logs_hash_final = sha256(accum_logs_bytes_final);
    Ok(PublicInputCommitKeys::new(witness.keys_root_prev, keys_root_next, accum_logs_hash_final))
}

} // verus!
