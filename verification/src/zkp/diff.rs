use vstd::prelude::*;

use crate::hash::{sha256, sha256_spec};
use crate::trie::nibble::{nibbles_from_bytes, nibbles_of};
use crate::trie::node::leaf_hash_spec;
use crate::trie::root_path::{deepest_branch_on_path, leaf_hashes_view};
use crate::trie::{NibblePatriciaTrieError, NibblePatriciaTrieNodeBranch, NibblePatriciaTrieNodeLeaf, NibblePatriciaTrieRootPath};
use crate::utils::sorted_map::SortedMap;

verus! {

/// The change of one stored key over a run of transactions: its value
/// before and after, `None` where the key was absent.
#[derive(Clone, Debug)]
pub struct StateDiff {
    pub before: Option<Vec<u8>>,
    pub after: Option<Vec<u8>>,
}

/// The side of a change that a trie is committed to.
pub open spec fn side_of(d: StateDiff, before: bool) -> Option<Vec<u8>> {
    if before {
        d.before
    } else {
        d.after
    }
}

/// The byte key and value of the leaf that a change gives on one side,
/// when the key is present there. The state trie stores each value under
/// the SHA-256 of its key; the keys trie stores an empty value under the
/// key itself.
pub open spec fn leaf_source(key: Seq<u8>, d: StateDiff, before: bool, state: bool) -> Option<(Seq<u8>, Seq<u8>)> {
    match side_of(d, before) {
        Some(v) => if state {
            Some((sha256_spec(key), v@))
        } else {
            Some((key, Seq::<u8>::empty()))
        },
        None => None,
    }
}

/// The hashes of the inclusion leaves (by full nibble key) that the first
/// `n` changes give, each leaf with the key fragment below the deepest
/// branch of the proof on its way; later changes override earlier ones at
/// the same key. `None` when some leaf has no branch of the proof above it.
pub open spec fn commit_leaves(
    branches: Map<Seq<u8>, NibblePatriciaTrieNodeBranch>,
    entries: Seq<(Vec<u8>, StateDiff)>,
    before: bool,
    state: bool,
    n: nat,
) -> Option<Map<Seq<u8>, Seq<u8>>>
    decreases n,
{
    if n == 0 {
        Some(Map::empty())
    } else {
        match commit_leaves(branches, entries, before, state, (n - 1) as nat) {
            None => None,
            Some(m) => match leaf_source(entries[n - 1].0@, entries[n - 1].1, before, state) {
                None => Some(m),
                Some((kb, v)) => {
                    let nk = nibbles_of(kb);
                    match deepest_branch_on_path(branches, nk) {
                        Some(j) => Some(m.insert(nk, leaf_hash_spec(nk.skip(j), v))),
                        None => None,
                    }
                },
            },
        }
    }
}

/// Where each leaf comes from: the trie before the changes holds the values
/// before, the trie after holds the values after; the state trie keeps each
/// value under the SHA-256 of its key, the keys trie keeps an empty value
/// under the key itself; an absent side gives no leaf.
pub proof fn law_leaf_sources(key: Seq<u8>, d: StateDiff)
    ensures
        leaf_source(key, d, true, true) == (match d.before {
            Some(v) => Some((sha256_spec(key), v@)),
            None => None,
        }),
        leaf_source(key, d, false, true) == (match d.after {
            Some(v) => Some((sha256_spec(key), v@)),
            None => None,
        }),
        leaf_source(key, d, true, false) == (if d.before is Some {
            Some((key, Seq::<u8>::empty()))
        } else {
            None
        }),
        leaf_source(key, d, false, false) == (if d.after is Some {
            Some((key, Seq::<u8>::empty()))
        } else {
            None
        }),
{
}

/// Once a leaf lacks a branch above it, the leaves stay undefined.
proof fn lemma_commit_leaves_stay_none(
    branches: Map<Seq<u8>, NibblePatriciaTrieNodeBranch>,
    entries: Seq<(Vec<u8>, StateDiff)>,
    before: bool,
    state: bool,
    n: nat,
    m: nat,
)
    requires
        n <= m,
        commit_leaves(branches, entries, before, state, n) is None,
    ensures
        commit_leaves(branches, entries, before, state, m) is None,
    decreases m - n,
{
    if n < m {
        lemma_commit_leaves_stay_none(branches, entries, before, state, n, (m - 1) as nat);
    }
}

/// Every key of the changes is short enough to be split into nibbles.
pub open spec fn keys_fit(diffs: SortedMap<StateDiff>) -> bool {
    forall|t: int| 0 <= t < diffs.size() ==> 2 * (#[trigger] diffs.key_at(t)).len() <= usize::MAX
}

/// Builds the inclusion leaves that the changes give on one side (see
/// `commit_leaves`), proving each leaf with `path`.
pub fn build_commit_leaves(
    path: &NibblePatriciaTrieRootPath,
    diffs: &SortedMap<StateDiff>,
    before: bool,
    state: bool,
) -> (r: Result<SortedMap<NibblePatriciaTrieNodeLeaf>, NibblePatriciaTrieError>)
    requires
        path.wf(),
        diffs.wf(),
        keys_fit(*diffs),
    ensures
        match r {
            Ok(m) => m.wf() && commit_leaves(path.nodes_branch@, diffs.entries@, before, state, diffs.size())
                == Some(leaf_hashes_view(m@)),
            Err(e) => commit_leaves(path.nodes_branch@, diffs.entries@, before, state, diffs.size()) is None
                && e is Other,
        },
{
    let mut leaves: SortedMap<NibblePatriciaTrieNodeLeaf> = SortedMap::new();
    assert(leaf_hashes_view(leaves@) =~= Map::<Seq<u8>, Seq<u8>>::empty());
    let mut i: usize = 0;
    while i < diffs.entries.len()
        invariant
            path.wf(),
            diffs.wf(),
            keys_fit(*diffs),
            leaves.wf(),
            i <= diffs.size(),
            commit_leaves(path.nodes_branch@, diffs.entries@, before, state, i as nat) == Some(
                leaf_hashes_view(leaves@),
            ),
        decreases diffs.size() - i,
    {
        let key = &diffs.entries[i].0;
        let diff = &diffs.entries[i].1;
        let side = if before {
            &diff.before
        } else {
            &diff.after
        };
        assert(2 * diffs.key_at(i as int).len() <= usize::MAX);
        match side {
            Some(v) => {
                let leaf_key_bytes: Vec<u8> = if state {
                    let h = sha256(key.as_slice());
                    let mut b: Vec<u8> = Vec::new();
                    crate::hash::append_bytes(&mut b, &h);
                    assert(b@ =~= h@);
                    b
                } else {
                    crate::trie::db::copy_bytes(key.as_slice())
                };
                let value: Vec<u8> = if state {
                    crate::trie::db::copy_bytes(v.as_slice())
                } else {
                    Vec::new()
                };
                assert(leaf_source(key@, *diff, before, state) == Some((leaf_key_bytes@, value@)));
                let leaf_key = nibbles_from_bytes(leaf_key_bytes.as_slice());
                let leaf = match path.node_for_inclusion_proof(leaf_key.as_slice(), value) {
                    Ok(l) => l,
                    Err(e) => {
                        proof {
                            lemma_commit_leaves_stay_none(
                                path.nodes_branch@,
                                diffs.entries@,
                                before,
                                state,
                                (i + 1) as nat,
                                diffs.size(),
                            );
                        }
                        return Err(e);
                    },
                };
                let ghost before_map = leaves@;
                let ghost gleaf = leaf;
                leaves.insert(leaf_key, leaf);
                assert(leaf_hashes_view(leaves@) =~= leaf_hashes_view(before_map).insert(
                    nibbles_of(leaf_key_bytes@),
                    leaf_hash_spec(gleaf.key_fragment@, gleaf.value@),
                ));
            },
            None => {},
        }
        i += 1;
    }
    Ok(leaves)
}

} // verus!
