use vstd::prelude::*;

use crate::trie::nibble::{nibbles_from_bytes, nibbles_of, Nibble};
use crate::trie::key::no_parent_message;
use crate::trie::root_path::deepest_branch_on_path;
use crate::trie::{NibblePatriciaTrieError, NibblePatriciaTrieNodeLeaf, NibblePatriciaTrieRootPath};

verus! {

/// The key fragment that the leaf at `leaf_key` has in the trie that
/// `path` reveals: the part of the key below the deepest branch of the
/// path on the key's way down. Fails when no proper prefix of the key is a
/// branch of the path.
pub fn leaf_key_fragment_from_path(path: &NibblePatriciaTrieRootPath, leaf_key: &[Nibble]) -> (r: Result<
    Vec<Nibble>,
    NibblePatriciaTrieError,
>)
    requires
        path.wf(),
    ensures
        match deepest_branch_on_path(path.nodes_branch@, leaf_key@) {
            Some(j) => r matches Ok(f) && f@ == leaf_key@.skip(j),
            None => r matches Err(NibblePatriciaTrieError::Other(m)) && m@ == no_parent_message(),
        },
{
    path.leaf_key_fragment_from_path(leaf_key)
}

/// The full nibble key of the leaf for the byte key `leaf_key`, and the
/// leaf that proves that `leaf_value` is stored there, with the key
/// fragment that `path` gives it.
pub fn node_for_inclusion_proof(path: &NibblePatriciaTrieRootPath, leaf_key: &[u8], leaf_value: Vec<u8>) -> (r:
    Result<(Vec<Nibble>, NibblePatriciaTrieNodeLeaf), NibblePatriciaTrieError>)
    requires
        path.wf(),
        2 * leaf_key@.len() <= usize::MAX,
    ensures
        match deepest_branch_on_path(path.nodes_branch@, nibbles_of(leaf_key@)) {
            Some(j) => r matches Ok((k, l)) && k@ == nibbles_of(leaf_key@) && l.key_fragment@ == nibbles_of(
                leaf_key@,
            ).skip(j) && l.value@ == leaf_value@,
            None => r matches Err(NibblePatriciaTrieError::Other(m)) && m@ == no_parent_message(),
        },
{
    let leaf_key = nibbles_from_bytes(leaf_key);
    let leaf_key_fragment = leaf_key_fragment_from_path(path, leaf_key.as_slice())?;
    Ok((leaf_key, NibblePatriciaTrieNodeLeaf::new(leaf_key_fragment, leaf_value)))
}

} // verus!
