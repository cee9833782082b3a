use vstd::prelude::*;

verus! {

/// Errors of the nibble Patricia trie.
#[derive(Debug, Clone)]
pub enum NibblePatriciaTrieError {
    /// A node that the proof or the trie needs is missing.
    NotFound,
    /// A node has the wrong kind (a leaf where a branch is needed, or the
    /// other way round).
    InvalidNode,
    /// The proof does not establish what was asked of it.
    InvalidProof,
    /// The proof holds no branch node, or no leaf was asked for.
    EmptyProof,
    /// Any other failure, with a message.
    Other(String),
}

} // verus!
