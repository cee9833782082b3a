use vstd::prelude::*;

use super::diff::{build_commit_leaves, commit_leaves, keys_fit, StateDiff};
use crate::hash::{sha256, sha256_spec};
use crate::trie::root_path::root_from_leaf_hashes;
use crate::trie::{Nibble, NibblePatriciaTrieError, NibblePatriciaTrieRootPath};
use crate::types::InterLiquidSdkError;
use crate::utils::sorted_map::{bytes_equal, SortedMap};

verus! {

/// What the state commitment circuit makes public: the state roots before
/// and after, and the hash of the accumulated changes.
#[derive(Clone, Debug)]
pub struct PublicInputCommitState {
    pub state_root_prev: [u8; 32],
    pub state_root_next: [u8; 32],
    pub accum_diffs_hash_final: [u8; 32],
}

impl PublicInputCommitState {
    pub fn new(state_root_prev: [u8; 32], state_root_next: [u8; 32], accum_diffs_hash_final: [u8; 32]) -> (r: Self)
        ensures
            r.state_root_prev == state_root_prev,
            r.state_root_next == state_root_next,
            r.accum_diffs_hash_final == accum_diffs_hash_final,
    {
        Self { state_root_prev, state_root_next, accum_diffs_hash_final }
    }
}

/// What the state commitment circuit is given: the state root before, the
/// accumulated changes by key, and a proof of the paths that the changed
/// keys take in the state trie.
pub struct WitnessCommitState {
    pub state_root_prev: [u8; 32],
    pub accum_diffs_final: SortedMap<StateDiff>,
    pub state_commit_path: NibblePatriciaTrieRootPath,
}

impl WitnessCommitState {
    pub fn new(
        state_root_prev: [u8; 32],
        accum_diffs_final: SortedMap<StateDiff>,
        state_commit_path: NibblePatriciaTrieRootPath,
    ) -> (r: Self)
        ensures
            r.state_root_prev == state_root_prev,
            r.accum_diffs_final == accum_diffs_final,
            r.state_commit_path == state_commit_path,
    {
        Self { state_root_prev, accum_diffs_final, state_commit_path }
    }
}

/// The root that a proof gives for the leaves that the changes give on one
/// side; `None` where a leaf has no branch of the proof above it.
pub open spec fn committed_root(
    path: NibblePatriciaTrieRootPath,
    diffs: SortedMap<StateDiff>,
    before: bool,
    state: bool,
) -> Option<Result<Seq<u8>, NibblePatriciaTrieError>> {
    match commit_leaves(path.nodes_branch@, diffs.entries@, before, state, diffs.size()) {
        Some(lh) => Some(root_from_leaf_hashes(path.nodes_branch, path.nodes_hashed, lh)),
        None => None,
    }
}

/// What a commitment circuit answers for a path, the changes, the root it
/// was told of before, and the root hash and changes hash it computes:
/// the root before must come out of the path with the old values, and the
/// root after is what the path gives with the new values.
pub open spec fn commit_outcome_holds(
    path: NibblePatriciaTrieRootPath,
    diffs: SortedMap<StateDiff>,
    state: bool,
    root_prev: Seq<u8>,
    r: Result<(Seq<u8>, Seq<u8>), InterLiquidSdkError>,
    changes_hash: Seq<u8>,
) -> bool {
    let prev = committed_root(path, diffs, true, state);
    let next = committed_root(path, diffs, false, state);
    match r {
        Ok((root_next, hash)) => prev == Some(Ok::<Seq<u8>, NibblePatriciaTrieError>(root_prev)) && next == Some(
            Ok::<Seq<u8>, NibblePatriciaTrieError>(root_next),
        ) && hash == changes_hash,
        Err(e) => match prev {
            None => e matches InterLiquidSdkError::Trie(t) && t is Other,
            Some(Err(t)) => e == InterLiquidSdkError::Trie(t),
            Some(Ok(h)) => if h != root_prev {
                e is Other
            } else {
                match next {
                    None => e matches InterLiquidSdkError::Trie(t) && t is Other,
                    Some(Err(t)) => e == InterLiquidSdkError::Trie(t),
                    Some(Ok(_)) => false,
                }
            },
        },
    }
}

/// A commitment that succeeds vouches for both roots: the path gives the
/// root it was told of from the values before the changes, and the root it
/// answers from the values after them; the hash it answers is the hash of
/// the changes. Where the path gives another root before, it fails with
/// `Other`.
pub proof fn law_commit_vouches_for_both_roots(
    path: NibblePatriciaTrieRootPath,
    diffs: SortedMap<StateDiff>,
    state: bool,
    root_prev: Seq<u8>,
    r: Result<(Seq<u8>, Seq<u8>), InterLiquidSdkError>,
    changes_hash: Seq<u8>,
    other_root: Seq<u8>,
)
    requires
        commit_outcome_holds(path, diffs, state, root_prev, r, changes_hash),
    ensures
        r matches Ok((root_next, hash)) ==> {
            &&& committed_root(path, diffs, true, state) == Some(Ok::<Seq<u8>, NibblePatriciaTrieError>(root_prev))
            &&& committed_root(path, diffs, false, state) == Some(Ok::<Seq<u8>, NibblePatriciaTrieError>(root_next))
            &&& hash == changes_hash
        },
        committed_root(path, diffs, true, state) == Some(Ok::<Seq<u8>, NibblePatriciaTrieError>(other_root))
            && other_root != root_prev ==> (r matches Err(e) && e is Other),
{
}

/// The public input of the state commitment, as the pair of the root after
/// and the hash of the changes.
pub open spec fn commit_state_view(r: Result<PublicInputCommitState, InterLiquidSdkError>) -> Result<
    (Seq<u8>, Seq<u8>),
    InterLiquidSdkError,
> {
    match r {
        Ok(p) => Ok((p.state_root_next@, p.accum_diffs_hash_final@)),
        Err(e) => Err(e),
    }
}

/// The root that `path` gives for the leaves of one side of the changes.
pub(crate) fn side_root(
    path: &NibblePatriciaTrieRootPath,
    diffs: &SortedMap<StateDiff>,
    before: bool,
    state: bool,
) -> (r: Result<[u8; 32], InterLiquidSdkError>)
    requires
        path.wf(),
        diffs.wf(),
        keys_fit(*diffs),
    ensures
        match committed_root(*path, *diffs, before, state) {
            None => r matches Err(e) && e matches InterLiquidSdkError::Trie(t) && t is Other,
            Some(Ok(h)) => r matches Ok(x) && x@ == h,
            Some(Err(t)) => r == Err::<[u8; 32], InterLiquidSdkError>(InterLiquidSdkError::Trie(t)),
        },
{
    let leaves = match build_commit_leaves(path, diffs, before, state) {
        Ok(l) => l,
        Err(e) => {
            return Err(InterLiquidSdkError::Trie(e));
        },
    };
    let no_callback = |_key: &Vec<Nibble>, _hash: &[u8; 32]| {};
    match path.root(leaves, Some(no_callback)) {
        Ok(h) => Ok(h),
        Err(e) => Err(InterLiquidSdkError::Trie(e)),
    }
}

/// The state commitment circuit: checks that the path, with the values
/// before the changes, gives the state root before; then gives the state
/// root after the changes and the hash of the changes, whose serialized
/// form is `accum_diffs_bytes_final`. Fails with the trie's error where a
/// root cannot be computed, and with `Other` where the root before differs.
pub fn circuit_commit_state(witness: WitnessCommitState, accum_diffs_bytes_final: &[u8]) -> (r: Result<
    PublicInputCommitState,
    InterLiquidSdkError,
>)
    requires
        witness.state_commit_path.wf(),
        witness.accum_diffs_final.wf(),
        keys_fit(witness.accum_diffs_final),
    ensures
        commit_outcome_holds(
            witness.state_commit_path,
            witness.accum_diffs_final,
            true,
            witness.state_root_prev@,
            commit_state_view(r),
            sha256_spec(accum_diffs_bytes_final@),
        ),
        r matches Ok(p) ==> p.state_root_prev == witness.state_root_prev,
{
    let path = &witness.state_commit_path;
    let diffs = &witness.accum_diffs_final;
    let state_root_prev = side_root(path, diffs, true, true)?;
    if !bytes_equal(&state_root_prev, &witness.state_root_prev) {
        return Err(
            InterLiquidSdkError::Other(
                String::from_str("Inconsistent state_sparse_tree_root_prev and state_commit_path"),
            ),
        );
    }
    let state_root_next = side_root(path, diffs, false, true)?;
    let accum_diffs_hash_final = sha256(accum_diffs_bytes_final);
    Ok(PublicInputCommitState::new(witness.state_root_prev, state_root_next, accum_diffs_hash_final))
}

} // verus!
