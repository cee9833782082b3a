use vstd::prelude::*;

use super::error::NibblePatriciaTrieError;
use super::nibble::Nibble;
use super::node::{NibblePatriciaTrieNode, NibblePatriciaTrieNodeBranch, NibblePatriciaTrieNodeLeaf};
use crate::trie::db::copy_bytes;

verus! {

/// The lookup answer "no branch at this key".
pub open spec fn no_branch() -> Result<Option<NibblePatriciaTrieNodeBranch>, NibblePatriciaTrieError> {
    Ok(None)
}

/// `f` was called with a key whose nibbles are `key` and answered `out`.
pub open spec fn branch_lookup_answered<F: Fn(&[Nibble]) -> Result<Option<NibblePatriciaTrieNodeBranch>, NibblePatriciaTrieError>>(
    f: F,
    key: Seq<u8>,
    out: Result<Option<NibblePatriciaTrieNodeBranch>, NibblePatriciaTrieError>,
) -> bool {
    exists|s: &[Nibble]| s@ == key && #[trigger] f.ensures((s,), out)
}

/// Every leaf that `f` answers has a key fragment no longer than the key it
/// was asked for.
pub open spec fn leaves_fit_keys<F: Fn(&[Nibble]) -> Result<NibblePatriciaTrieNode, NibblePatriciaTrieError>>(f: F) -> bool {
    forall|s: &[Nibble], l: NibblePatriciaTrieNodeLeaf|
        #[trigger] f.ensures((s,), Ok(NibblePatriciaTrieNode::Leaf(l))) ==> l.key_fragment@.len() <= s@.len()
}

/// Every leaf that `f` answers for `key` has a key fragment no longer than
/// `key`.
pub open spec fn leaf_fits_key<F: Fn(&[Nibble]) -> Result<NibblePatriciaTrieNode, NibblePatriciaTrieError>>(
    f: F,
    key: Seq<u8>,
) -> bool {
    forall|s: &[Nibble], l: NibblePatriciaTrieNodeLeaf|
        s@ == key && #[trigger] f.ensures((s,), Ok(NibblePatriciaTrieNode::Leaf(l))) ==> l.key_fragment@.len()
            <= key.len()
}

/// The message of the error that the search for a leaf's parent gives when
/// no proper prefix of the key is a branch.
pub open spec fn no_parent_message() -> Seq<char> {
    "Root node with empty key fragment must catch the key path in the loop"@
}

/// Every branch that `f` answers has a key fragment no longer than the key
/// it was asked for.
pub open spec fn branches_fit_keys<F: Fn(&[Nibble]) -> Result<NibblePatriciaTrieNode, NibblePatriciaTrieError>>(f: F) -> bool {
    forall|s: &[Nibble], b: NibblePatriciaTrieNodeBranch|
        #[trigger] f.ensures((s,), Ok(NibblePatriciaTrieNode::Branch(b))) ==> b.key_fragment@.len() <= s@.len()
}

/// `g` answered a branch with the same fragment and children as `b` when
/// asked for the node at `key`.
pub open spec fn answered_branch<G: Fn(&[Nibble]) -> Result<NibblePatriciaTrieNode, NibblePatriciaTrieError>>(
    g: G,
    key: Seq<u8>,
    b: NibblePatriciaTrieNodeBranch,
) -> bool {
    exists|s: &[Nibble], b0: NibblePatriciaTrieNodeBranch|
        s@ == key && #[trigger] g.ensures((s,), Ok(NibblePatriciaTrieNode::Branch(b0)))
            && b0.key_fragment@ == b.key_fragment@ && b0.child_key_indices@ == b.child_key_indices@
}

/// `h` answered, for some key `s` and child index, a child fragment `f`
/// and the hash `hash`, where `key` is `s` followed by `f`.
pub open spec fn answered_child<H: Fn(&[Nibble], Nibble) -> Result<(Vec<Nibble>, [u8; 32]), NibblePatriciaTrieError>>(
    h: H,
    key: Seq<u8>,
    hash: [u8; 32],
) -> bool {
    exists|s: &[Nibble], idx: Nibble, out: Result<(Vec<Nibble>, [u8; 32]), NibblePatriciaTrieError>|
        #[trigger] h.ensures((s, idx), out) && (out matches Ok((f, hh)) && hh == hash && key == s@ + f@)
}

/// What the search for the parent of `leaf_key` returns, given the answers
/// of the lookup: the answers are for the proper prefixes of the key, the
/// longest first; the search stops at the first answer that is an error or
/// a branch.
pub open spec fn search_outcome(
    leaf_key: Seq<u8>,
    outs: Seq<Result<Option<NibblePatriciaTrieNodeBranch>, NibblePatriciaTrieError>>,
    r: Result<Vec<Nibble>, NibblePatriciaTrieError>,
) -> bool {
    &&& outs.len() <= leaf_key.len()
    &&& forall|t: int| 0 <= t < outs.len() - 1 ==> #[trigger] outs[t] == no_branch()
    &&& match r {
        Ok(p) => outs.len() > 0 && (outs.last() matches Ok(Some(_))) && p@ == leaf_key.take(
            leaf_key.len() - outs.len(),
        ),
        Err(e) => (outs.len() > 0 && outs.last() == Err::<Option<NibblePatriciaTrieNodeBranch>, NibblePatriciaTrieError>(e))
            || (outs.len() == leaf_key.len() && (outs.len() == 0 || outs.last() == no_branch())
            && (e matches NibblePatriciaTrieError::Other(m) && m@ == no_parent_message())),
    }
}

/// Finds the branch that the search for `leaf_key` ends at: it asks
/// `get_node` for each proper prefix of the key, the longest first, and
/// returns the first prefix at which there is a branch. A lookup error
/// stops the search; when no prefix has a branch the search fails, since a
/// trie's root (at the empty key) would have caught it.
pub fn search_near_leaf_parent_key<G>(leaf_key: &[Nibble], get_node: G) -> (r: Result<
    Vec<Nibble>,
    NibblePatriciaTrieError,
>) where G: Fn(&[Nibble]) -> Result<Option<NibblePatriciaTrieNodeBranch>, NibblePatriciaTrieError>
    requires
        forall|s: &[Nibble]| #[trigger] get_node.requires((s,)),
    ensures
        exists|outs: Seq<Result<Option<NibblePatriciaTrieNodeBranch>, NibblePatriciaTrieError>>|
            #[trigger] search_outcome(leaf_key@, outs, r) && forall|t: int|
                0 <= t < outs.len() ==> branch_lookup_answered(
                    get_node,
                    leaf_key@.take(leaf_key@.len() - 1 - t),
                    #[trigger] outs[t],
                ),
{
    let key_len = leaf_key.len();
    let ghost mut outs: Seq<Result<Option<NibblePatriciaTrieNodeBranch>, NibblePatriciaTrieError>> = Seq::empty();
    let mut i: usize = key_len;
    while i > 0
        invariant
            i <= key_len,
            key_len == leaf_key@.len(),
            outs.len() == key_len - i,
            forall|s: &[Nibble]| #[trigger] get_node.requires((s,)),
            forall|t: int| 0 <= t < outs.len() ==> #[trigger] outs[t] == no_branch(),
            forall|t: int|
                0 <= t < outs.len() ==> branch_lookup_answered(
                    get_node,
                    leaf_key@.take(leaf_key@.len() - 1 - t),
                    #[trigger] outs[t],
                ),
        decreases i,
    {
        i -= 1;
        let key_path = vstd::slice::slice_subrange(leaf_key, 0, i);
        let out = get_node(key_path);
        let ghost outs1 = outs.push(out);
        assert(key_path@ == leaf_key@.take(i as int));
        assert(branch_lookup_answered(get_node, leaf_key@.take(leaf_key@.len() - 1 - outs.len()), out));
        assert forall|t: int|
            0 <= t < outs1.len() implies branch_lookup_answered(
                get_node,
                leaf_key@.take(leaf_key@.len() - 1 - t),
                #[trigger] outs1[t],
            ) by {
            if t < outs.len() {
                assert(outs1[t] == outs[t]);
            }
        }
        match out {
            Err(e) => {
                let r: Result<Vec<Nibble>, NibblePatriciaTrieError> = Err(e);
                assert(search_outcome(leaf_key@, outs1, r)) by {
                    assert forall|t: int| 0 <= t < outs1.len() - 1 implies #[trigger] outs1[t] == no_branch() by {
                        assert(outs1[t] == outs[t]);
                    }
                }
                return r;
            },
            Ok(Some(_node)) => {
                let p = copy_bytes(key_path);
                let r: Result<Vec<Nibble>, NibblePatriciaTrieError> = Ok(p);
                assert(search_outcome(leaf_key@, outs1, r)) by {
                    assert forall|t: int| 0 <= t < outs1.len() - 1 implies #[trigger] outs1[t] == no_branch() by {
                        assert(outs1[t] == outs[t]);
                    }
                }
                return r;
            },
            Ok(None) => {
                proof {
                    outs = outs1;
                }
            },
        }
    }
    let r: Result<Vec<Nibble>, NibblePatriciaTrieError> = Err(
        NibblePatriciaTrieError::Other(
            String::from_str("Root node with empty key fragment must catch the key path in the loop"),
        ),
    );
    assert(search_outcome(leaf_key@, outs, r));
    r
}

/// A search that succeeds ends at the longest proper prefix of the key that
/// holds a branch: the prefix it returns is shorter than the key, the
/// lookup there answered a branch, and the lookup at every longer proper
/// prefix answered that there is none.
pub proof fn law_search_stops_at_longest_branch(
    leaf_key: Seq<u8>,
    outs: Seq<Result<Option<NibblePatriciaTrieNodeBranch>, NibblePatriciaTrieError>>,
    p: Vec<Nibble>,
)
    requires
        search_outcome(leaf_key, outs, Ok(p)),
    ensures
        p@.len() < leaf_key.len(),
        p@ == leaf_key.take(p@.len() as int),
        outs[leaf_key.len() - 1 - p@.len()] matches Ok(Some(_)),
        forall|q: int|
            #![trigger leaf_key.take(q)]
            p@.len() < q < leaf_key.len() ==> outs[leaf_key.len() - 1 - q] == no_branch(),
{
    assert forall|q: int|
        #![trigger leaf_key.take(q)]
        p@.len() < q < leaf_key.len() implies outs[leaf_key.len() - 1 - q] == no_branch() by {
        let t = leaf_key.len() - 1 - q;
        assert(0 <= t < outs.len() - 1);
        assert(outs[t] == no_branch());
    }
}

/// Finds the key of the parent of the leaf at `leaf_key`: the leaf's key
/// with the leaf's key fragment cut off. Fails with `InvalidNode` when the
/// node at `leaf_key` is a branch, and with the lookup's error when the
/// lookup fails.
pub fn leaf_parent_key<G>(leaf_key: &[Nibble], get_node: &G) -> (r: Result<
    (Vec<Nibble>, NibblePatriciaTrieNodeLeaf),
    NibblePatriciaTrieError,
>) where G: Fn(&[Nibble]) -> Result<NibblePatriciaTrieNode, NibblePatriciaTrieError>
    requires
        forall|s: &[Nibble]| #[trigger] get_node.requires((s,)),
        leaf_fits_key(*get_node, leaf_key@),
    ensures
        exists|out: Result<NibblePatriciaTrieNode, NibblePatriciaTrieError>|
            #[trigger] get_node.ensures((leaf_key,), out) && match out {
                Ok(NibblePatriciaTrieNode::Leaf(l)) => (r matches Ok((p, l2)) && l2 == l && p@
                    == leaf_key@.take(leaf_key@.len() - l.key_fragment@.len())),
                Ok(NibblePatriciaTrieNode::Branch(_)) => r matches Err(NibblePatriciaTrieError::InvalidNode),
                Err(e) => r == Err::<(Vec<Nibble>, NibblePatriciaTrieNodeLeaf), NibblePatriciaTrieError>(e),
            },
{
    let leaf_node = get_node(leaf_key);
    match leaf_node {
        Ok(NibblePatriciaTrieNode::Leaf(leaf)) => {
            let end = leaf_key.len() - leaf.key_fragment.len();
            let parent_key = copy_bytes(vstd::slice::slice_subrange(leaf_key, 0, end));
            Ok((parent_key, leaf))
        },
        Ok(NibblePatriciaTrieNode::Branch(_)) => Err(NibblePatriciaTrieError::InvalidNode),
        Err(e) => Err(e),
    }
}

} // verus!
