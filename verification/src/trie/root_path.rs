use vstd::prelude::*;

use super::error::NibblePatriciaTrieError;
use super::key::{
    answered_branch, answered_child, branch_lookup_answered, branches_fit_keys, leaf_parent_key,
    leaves_fit_keys, no_branch, no_parent_message, search_near_leaf_parent_key, search_outcome,
};
use super::nibble::Nibble;
use super::node::{
    NibblePatriciaTrieNode, branch_hash_spec, hashes_view, leaf_hash_spec, opt_hash_view, NibblePatriciaTrieNodeBranch,
    NibblePatriciaTrieNodeLeaf,
};
use crate::hash::concat_bytes;
use crate::trie::db::copy_bytes;
use crate::utils::sorted_map::{
    bytes_equal, has_prefix, is_prefix_of, lex_compare,
    first_value_with_prefix, has_key_with_prefix, is_least_key_with_prefix, lemma_empty_prefix,
    lemma_least_key_same_keys, least_key_with_prefix, SortedMap,
};

verus! {

/// The part of a trie that a proof reveals: the branch nodes on the paths to
/// the proven leaves, and the hashes of the subtrees beside those paths,
/// each under its full key.
pub struct NibblePatriciaTrieRootPath {
    pub nodes_branch: SortedMap<NibblePatriciaTrieNodeBranch>,
    pub nodes_hashed: SortedMap<[u8; 32]>,
}

/// The largest `j < i` at which a prefix of `key` is a branch of
/// `branches`.
pub open spec fn deepest_branch_prefix(
    branches: Map<Seq<u8>, NibblePatriciaTrieNodeBranch>,
    key: Seq<u8>,
    i: int,
) -> Option<int>
    decreases i,
{
    if i <= 0 {
        None
    } else if branches.contains_key(key.take(i - 1)) {
        Some(i - 1)
    } else {
        deepest_branch_prefix(branches, key, i - 1)
    }
}

/// The deepest proper prefix of `key` that is a branch of `branches`.
pub open spec fn deepest_branch_on_path(branches: Map<Seq<u8>, NibblePatriciaTrieNodeBranch>, key: Seq<u8>) -> Option<int> {
    deepest_branch_prefix(branches, key, key.len() as int)
}

/// Characterizes `deepest_branch_prefix`: `j` is the answer when the prefix
/// of length `j` is a branch and no longer prefix below `i` is.
pub proof fn lemma_deepest_branch_prefix(
    branches: Map<Seq<u8>, NibblePatriciaTrieNodeBranch>,
    key: Seq<u8>,
    i: int,
)
    ensures
        deepest_branch_prefix(branches, key, i) matches Some(j) ==> 0 <= j < i && branches.contains_key(key.take(j))
            && forall|k: int| j < k < i ==> !branches.contains_key(#[trigger] key.take(k)),
        deepest_branch_prefix(branches, key, i) is None ==> forall|k: int|
            0 <= k < i ==> !branches.contains_key(#[trigger] key.take(k)),
    decreases i,
{
    if i > 0 {
        lemma_deepest_branch_prefix(branches, key, i - 1);
    }
}

/// A proof of non-inclusion of `key`: the deepest branch of the proof on the
/// key's path has no child at the key's next nibble.
pub open spec fn non_inclusion_shown(branches: Map<Seq<u8>, NibblePatriciaTrieNodeBranch>, key: Seq<u8>) -> bool {
    match deepest_branch_on_path(branches, key) {
        Some(j) => !branches[key.take(j)].child_key_indices@.contains(key[j]),
        None => false,
    }
}

/// Hashes as byte strings.
pub open spec fn hashes_map_view(m: Map<Seq<u8>, [u8; 32]>) -> Map<Seq<u8>, Seq<u8>> {
    m.map_values(|h: [u8; 32]| h@)
}

/// The hashes of leaves, by key.
pub open spec fn leaf_hashes_view(m: Map<Seq<u8>, NibblePatriciaTrieNodeLeaf>) -> Map<Seq<u8>, Seq<u8>> {
    m.map_values(|l: NibblePatriciaTrieNodeLeaf| leaf_hash_spec(l.key_fragment@, l.value@))
}

/// The hashes that a branch at `key` finds for its children among the
/// hashed nodes `m`: for each child index, the hash under the least key
/// that starts with the branch's key followed by the index.
pub open spec fn child_hashes_in(m: Map<Seq<u8>, Seq<u8>>, key: Seq<u8>, indices: Seq<u8>) -> Seq<Option<Seq<u8>>> {
    Seq::new(indices.len(), |j: int| first_value_with_prefix(m, key.push(indices[j])))
}

/// Hashes the branch `b` at `key` from the hashed nodes `m`, and adds its
/// hash to them when it has one.
pub open spec fn hash_branch_into(m: Map<Seq<u8>, Seq<u8>>, key: Seq<u8>, b: NibblePatriciaTrieNodeBranch) -> Map<Seq<u8>, Seq<u8>> {
    match branch_hash_spec(b.key_fragment@, b.child_key_indices@, child_hashes_in(m, key, b.child_key_indices@)) {
        Some(h) => m.insert(key, h),
        None => m,
    }
}

/// Hashes, in order, the branches of `entries` whose key has length `d`.
pub open spec fn hash_depth(
    m: Map<Seq<u8>, Seq<u8>>,
    entries: Seq<(Vec<u8>, NibblePatriciaTrieNodeBranch)>,
    d: int,
) -> Map<Seq<u8>, Seq<u8>>
    decreases entries.len(),
{
    if entries.len() == 0 {
        m
    } else {
        let m1 = hash_depth(m, entries.drop_last(), d);
        if entries.last().0@.len() == d {
            hash_branch_into(m1, entries.last().0@, entries.last().1)
        } else {
            m1
        }
    }
}

/// Hashes the branches of `entries` depth by depth, from depth `top` down
/// to depth `d`.
pub open spec fn hash_levels(
    m: Map<Seq<u8>, Seq<u8>>,
    entries: Seq<(Vec<u8>, NibblePatriciaTrieNodeBranch)>,
    top: int,
    d: int,
) -> Map<Seq<u8>, Seq<u8>>
    decreases top + 1 - d,
{
    if d > top {
        m
    } else {
        hash_depth(hash_levels(m, entries, top, d + 1), entries, d)
    }
}

/// The length of the longest key of `entries`.
pub open spec fn max_key_len(entries: Seq<(Vec<u8>, NibblePatriciaTrieNodeBranch)>) -> nat
    decreases entries.len(),
{
    if entries.len() == 0 {
        0
    } else {
        let m = max_key_len(entries.drop_last());
        if entries.last().0@.len() > m {
            entries.last().0@.len()
        } else {
            m
        }
    }
}

/// The root hash that a proof yields when the given leaf hashes (by full
/// key) join (and override) its hashed nodes: every branch of the proof is
/// hashed, deepest first, each from the hashes found under its children's
/// keys, and adds its hash when it has one; the root is the hash under the
/// least key. A proof without branches is empty; one that ends with no hash
/// at all is invalid.
pub open spec fn root_from_leaf_hashes(
    branches: SortedMap<NibblePatriciaTrieNodeBranch>,
    hashed: SortedMap<[u8; 32]>,
    leaf_hashes: Map<Seq<u8>, Seq<u8>>,
) -> Result<Seq<u8>, NibblePatriciaTrieError> {
    if branches.size() == 0 {
        Err(NibblePatriciaTrieError::EmptyProof)
    } else {
        let m0 = hashes_map_view(hashed@).union_prefer_right(leaf_hashes);
        let m = hash_levels(m0, branches.entries@, max_key_len(branches.entries@) as int, 0);
        match first_value_with_prefix(m, Seq::<u8>::empty()) {
            Some(h) => Ok(h),
            None => Err(NibblePatriciaTrieError::InvalidProof),
        }
    }
}

/// The root hash that a proof yields with the given inclusion leaves: see
/// `root_from_leaf_hashes`, with the hashes of the leaves.
pub open spec fn root_spec(
    branches: SortedMap<NibblePatriciaTrieNodeBranch>,
    hashed: SortedMap<[u8; 32]>,
    leaves: SortedMap<NibblePatriciaTrieNodeLeaf>,
) -> Result<Seq<u8>, NibblePatriciaTrieError> {
    root_from_leaf_hashes(branches, hashed, leaf_hashes_view(leaves@))
}

/// Every key of `keys` starts with `p`.
pub open spec fn all_keys_have_prefix(keys: Map<Seq<u8>, ()>, p: Seq<u8>) -> bool {
    forall|k: Seq<u8>| #[trigger] keys.contains_key(k) ==> is_prefix_of(p, k)
}

/// The iterated keys cover every child of the branch whose full key is
/// `full`: each child index starts some iterated key, and each iterated key
/// continues `full` with one of the child indices.
pub open spec fn children_all_iterated(full: Seq<u8>, children: Seq<u8>, keys: Map<Seq<u8>, ()>) -> bool {
    &&& forall|j: int| 0 <= j < children.len() ==> has_key_with_prefix(keys, full.push(#[trigger] children[j]))
    &&& forall|k: Seq<u8>|
        #[trigger] keys.contains_key(k) ==> is_prefix_of(full, k) && k.len() > full.len() && children.contains(
            k[full.len() as int],
        )
}

/// Some branch of the proof lies at or below the key `c`.
pub open spec fn leads_to_branch(branches: Map<Seq<u8>, NibblePatriciaTrieNodeBranch>, c: Seq<u8>) -> bool {
    has_key_with_prefix(branches, c)
}

/// The proof admits the leaf key `x`: the deepest branch of the proof on
/// the key's path has a child at the key's next nibble.
pub open spec fn admitted(branches: Map<Seq<u8>, NibblePatriciaTrieNodeBranch>, x: Seq<u8>) -> bool {
    match deepest_branch_on_path(branches, x) {
        Some(j) => branches[x.take(j)].child_key_indices@.contains(x[j]),
        None => false,
    }
}

/// Whether the keys `keys` are, as far as a proof (its branches and its
/// hashed nodes) shows, all the leaf keys under `prefix`: every key starts
/// with the prefix and is admitted by the proof; every child of every
/// branch of the proof at or under the prefix either leads to another
/// branch of the proof or starts some key; and the child on the prefix's
/// path of every branch strictly above the prefix leads to a branch, starts
/// some key, or holds a hashed node outside the prefix. On a proof that
/// holds every branch of a trie on or under the prefix, all the trie's
/// leaves under the prefix pass, and keys that pass miss no leaf under the
/// prefix: see `law_iteration_of_all_leaves_is_complete` and
/// `law_complete_iteration_misses_no_leaf`.
pub open spec fn iter_complete_spec(
    branches: Map<Seq<u8>, NibblePatriciaTrieNodeBranch>,
    hashed: Map<Seq<u8>, [u8; 32]>,
    prefix: Seq<u8>,
    keys: Map<Seq<u8>, ()>,
) -> bool {
    &&& all_keys_have_prefix(keys, prefix)
    &&& forall|x: Seq<u8>| #[trigger] keys.contains_key(x) ==> admitted(branches, x)
    &&& forall|k: Seq<u8>, i: u8|
        #[trigger] branches.contains_key(k) && is_prefix_of(prefix, k) && #[trigger] branches[k].child_key_indices@.contains(i)
            ==> leads_to_branch(branches, k.push(i)) || has_key_with_prefix(keys, k.push(i))
    &&& above_prefix_covered(branches, hashed, prefix, keys)
}

/// The child `c` (a prefix of the iteration's prefix) of a branch above the
/// prefix is accounted for: a branch of the proof lies under it, a key
/// starts with it, or a hashed node under it lies outside the prefix (so no
/// leaf under the prefix hangs there).
pub open spec fn path_child_covered(
    branches: Map<Seq<u8>, NibblePatriciaTrieNodeBranch>,
    hashed: Map<Seq<u8>, [u8; 32]>,
    prefix: Seq<u8>,
    keys: Map<Seq<u8>, ()>,
    c: Seq<u8>,
) -> bool {
    ||| leads_to_branch(branches, c)
    ||| has_key_with_prefix(keys, c)
    ||| exists|x: Seq<u8>| #[trigger] hashed.contains_key(x) && is_prefix_of(c, x) && !is_prefix_of(prefix, x)
}

/// Every branch of the proof strictly above the prefix that has a child on
/// the prefix's path has that child accounted for.
pub open spec fn above_prefix_covered(
    branches: Map<Seq<u8>, NibblePatriciaTrieNodeBranch>,
    hashed: Map<Seq<u8>, [u8; 32]>,
    prefix: Seq<u8>,
    keys: Map<Seq<u8>, ()>,
) -> bool {
    forall|k: Seq<u8>|
        #[trigger] branches.contains_key(k) && is_prefix_of(k, prefix) && k.len() < prefix.len()
            && branches[k].child_key_indices@.contains(prefix[k.len() as int]) ==> path_child_covered(
            branches,
            hashed,
            prefix,
            keys,
            prefix.take(k.len() + 1int),
        )
}

/// Whether `b` is among the bytes of `v`.
fn contains_byte(v: &[u8], b: u8) -> (r: bool)
    ensures
        r == v@.contains(b),
{
    let mut i: usize = 0;
    while i < v.len()
        invariant
            i <= v.len(),
            forall|j: int| 0 <= j < i ==> v@[j] != b,
        decreases v.len() - i,
    {
        if v[i] == b {
            assert(v@[i as int] == b);
            return true;
        }
        i += 1;
    }
    false
}

/// Whether some hashed node under `c` lies outside `prefix`.
fn hashed_outside(hashed: &SortedMap<[u8; 32]>, c: &[u8], prefix: &[u8]) -> (r: bool)
    requires
        hashed.wf(),
    ensures
        r == exists|x: Seq<u8>| #[trigger] hashed@.contains_key(x) && is_prefix_of(c@, x) && !is_prefix_of(prefix@, x),
{
    let mut i: usize = 0;
    while i < hashed.entries.len()
        invariant
            i <= hashed.size(),
            hashed.wf(),
            forall|j: int| 0 <= j < i ==> !(is_prefix_of(c@, #[trigger] hashed.key_at(j)) && !is_prefix_of(prefix@, hashed.key_at(j))),
        decreases hashed.size() - i,
    {
        let k = hashed.entries[i].0.as_slice();
        if has_prefix(k, c) && !has_prefix(k, prefix) {
            proof {
                hashed.lemma_index_of(i as int);
            }
            return true;
        }
        i += 1;
    }
    assert forall|x: Seq<u8>| #[trigger] hashed@.contains_key(x) implies !(is_prefix_of(c@, x) && !is_prefix_of(prefix@, x)) by {
        let j = hashed.index_of(x);
        assert(hashed.key_at(j) == x);
    }
    false
}


/// Whether every key of `keys` starts with `p`.
fn all_have_prefix(keys: &SortedMap<()>, p: &[u8]) -> (r: bool)
    requires
        keys.wf(),
    ensures
        r == all_keys_have_prefix(keys@, p@),
{
    let mut i: usize = 0;
    while i < keys.entries.len()
        invariant
            i <= keys.size(),
            keys.wf(),
            forall|j: int| 0 <= j < i ==> is_prefix_of(p@, #[trigger] keys.key_at(j)),
        decreases keys.size() - i,
    {
        if !has_prefix(keys.entries[i].0.as_slice(), p) {
            proof {
                keys.lemma_index_of(i as int);
            }
            return false;
        }
        i += 1;
    }
    assert forall|k: Seq<u8>| #[trigger] keys@.contains_key(k) implies is_prefix_of(p@, k) by {
        let j = keys.index_of(k);
    }
    true
}

/// Whether some key of `keys` starts with `p`.
fn any_has_prefix<V>(keys: &SortedMap<V>, p: &[u8]) -> (r: bool)
    requires
        keys.wf(),
    ensures
        r == has_key_with_prefix(keys@, p@),
{
    let pos = keys.first_with_prefix(p);
    proof {
        keys.lemma_first_with_prefix(p@, pos);
    }
    pos.is_some()
}

/// Every branch among the nodes `m` is one that `g` answered at its key.
pub open spec fn nodes_sound<G: Fn(&[Nibble]) -> Result<NibblePatriciaTrieNode, NibblePatriciaTrieError>>(
    g: G,
    m: Map<Seq<u8>, NibblePatriciaTrieNode>,
) -> bool {
    forall|k: Seq<u8>|
        #[trigger] m.contains_key(k) ==> match m[k] {
            NibblePatriciaTrieNode::Branch(b) => answered_branch(g, k, b),
            NibblePatriciaTrieNode::Leaf(_) => true,
        }
}

/// Every branch of `m` is one that `g` answered at its key.
pub open spec fn branches_sound<G: Fn(&[Nibble]) -> Result<NibblePatriciaTrieNode, NibblePatriciaTrieError>>(
    g: G,
    m: Map<Seq<u8>, NibblePatriciaTrieNodeBranch>,
) -> bool {
    forall|k: Seq<u8>| #[trigger] m.contains_key(k) ==> answered_branch(g, k, m[k])
}

/// Every hash of `m` is one that `h` answered for a child, at the child's
/// full key.
pub open spec fn hashes_sound<H: Fn(&[Nibble], Nibble) -> Result<(Vec<Nibble>, [u8; 32]), NibblePatriciaTrieError>>(
    h: H,
    m: Map<Seq<u8>, [u8; 32]>,
) -> bool {
    forall|k: Seq<u8>| #[trigger] m.contains_key(k) ==> answered_child(h, k, m[k])
}

/// The hash under the least key of `hashed` that starts with `prefix`.
fn child_hash_in(hashed: &SortedMap<[u8; 32]>, prefix: &[u8]) -> (r: Option<[u8; 32]>)
    requires
        hashed.wf(),
    ensures
        opt_hash_view(r) == first_value_with_prefix(hashes_map_view(hashed@), prefix@),
{
    let pos = hashed.first_with_prefix(prefix);
    proof {
        hashed.lemma_first_with_prefix(prefix@, pos);
        assert(hashed@.dom() =~= hashes_map_view(hashed@).dom());
        lemma_least_key_same_keys(hashed@, hashes_map_view(hashed@), prefix@);
    }
    match pos {
        Some(p) => {
            assert(is_least_key_with_prefix(hashed@, prefix@, hashed.key_at(p as int)));
            Some(hashed.entries[p].1)
        },
        None => None,
    }
}

/// The length of the longest key of the map.
fn max_key_length(branches: &SortedMap<NibblePatriciaTrieNodeBranch>) -> (r: usize)
    ensures
        r == max_key_len(branches.entries@),
{
    let mut m: usize = 0;
    let mut i: usize = 0;
    while i < branches.entries.len()
        invariant
            i <= branches.entries@.len(),
            m == max_key_len(branches.entries@.take(i as int)),
        decreases branches.entries@.len() - i,
    {
        assert(branches.entries@.take(i + 1).drop_last() =~= branches.entries@.take(i as int));
        if branches.entries[i].0.len() > m {
            m = branches.entries[i].0.len();
        }
        i += 1;
    }
    assert(branches.entries@.take(i as int) =~= branches.entries@);
    m
}

impl NibblePatriciaTrieRootPath {
    /// Well-formedness: both maps are ordered maps.
    pub open spec fn wf(self) -> bool {
        self.nodes_branch.wf() && self.nodes_hashed.wf()
    }

    /// A proof from its branch nodes and its hashed nodes, each map keyed by
    /// the full key of the node.
    pub fn new(
        nodes_branch: SortedMap<NibblePatriciaTrieNodeBranch>,
        nodes_hashed: SortedMap<[u8; 32]>,
    ) -> (r: Self)
        requires
            nodes_branch.wf(),
            nodes_hashed.wf(),
        ensures
            r.wf(),
            r.nodes_branch == nodes_branch,
            r.nodes_hashed == nodes_hashed,
    {
        Self { nodes_branch, nodes_hashed }
    }

    /// Verifies the non-inclusion of `leaf_key`: walking the key's proper
    /// prefixes from the longest, the first one that is a branch of the
    /// proof must lack the child at the next nibble of the key. Fails with
    /// `InvalidProof` otherwise, and when no prefix is a branch.
    pub fn verify_non_inclusion(&self, leaf_key: &[Nibble]) -> (r: Result<(), NibblePatriciaTrieError>)
        requires
            self.wf(),
        ensures
            r is Ok <==> non_inclusion_shown(self.nodes_branch@, leaf_key@),
            r matches Err(e) ==> e is InvalidProof,
    {
        proof {
            lemma_deepest_branch_prefix(self.nodes_branch@, leaf_key@, leaf_key@.len() as int);
        }
        let key_len = leaf_key.len();
        let mut i: usize = key_len;
        while i > 0
            invariant
                i <= key_len,
                key_len == leaf_key@.len(),
                self.wf(),
                forall|k: int| i <= k < key_len ==> !self.nodes_branch@.contains_key(#[trigger] leaf_key@.take(k)),
            decreases i,
        {
            i -= 1;
            let key_path = vstd::slice::slice_subrange(leaf_key, 0, i);
            assert(key_path@ == leaf_key@.take(i as int));
            match self.nodes_branch.get(key_path) {
                Some(node) => {
                    proof {
                        lemma_deepest_on_path(self.nodes_branch@, leaf_key@, i as int);
                    }
                    if !node.has_child(leaf_key[i]) {
                        return Ok(());
                    }
                    return Err(NibblePatriciaTrieError::InvalidProof);
                },
                None => {},
            }
        }
        proof {
            lemma_no_branch_on_path(self.nodes_branch@, leaf_key@);
        }
        Err(NibblePatriciaTrieError::InvalidProof)
    }

    /// The key fragment that the leaf at `leaf_key` has in the trie this
    /// proof reveals: the part of the key below the deepest branch of the
    /// proof on the key's path. Fails when no proper prefix of the key is a
    /// branch of the proof.
    pub fn leaf_key_fragment_from_path(&self, leaf_key: &[Nibble]) -> (r: Result<Vec<Nibble>, NibblePatriciaTrieError>)
        requires
            self.wf(),
        ensures
            match deepest_branch_on_path(self.nodes_branch@, leaf_key@) {
                Some(j) => r matches Ok(f) && f@ == leaf_key@.skip(j),
                None => r matches Err(NibblePatriciaTrieError::Other(m)) && m@ == no_parent_message(),
            },
    {
        let branches = &self.nodes_branch;
        let lookup = move |key: &[Nibble]| -> (o: Result<Option<NibblePatriciaTrieNodeBranch>, NibblePatriciaTrieError>)
            requires
                branches.wf(),
            ensures
                o is Ok,
                o.unwrap() is Some <==> branches@.contains_key(key@),
            {
                match branches.get(key) {
                    Some(b) => Ok(Some(b.duplicate())),
                    None => Ok(None),
                }
            };
        let parent_key = search_near_leaf_parent_key(leaf_key, lookup);
        proof {
            lemma_search_over_branches(branches@, leaf_key@, lookup, parent_key);
            lemma_deepest_branch_prefix(branches@, leaf_key@, leaf_key@.len() as int);
        }
        match parent_key {
            Ok(p) => {
                let start = p.len();
                assert(deepest_branch_on_path(self.nodes_branch@, leaf_key@) matches Some(j) && j == start);
                let f = copy_bytes(vstd::slice::slice_subrange(leaf_key, start, leaf_key.len()));
                assert(f@ =~= leaf_key@.skip(start as int));
                Ok(f)
            },
            Err(e) => {
                assert(deepest_branch_on_path(self.nodes_branch@, leaf_key@) is None);
                Err(e)
            },
        }
    }

    /// The leaf node that proves the inclusion of `leaf_value` at
    /// `leaf_key`: the key fragment that the proof gives the leaf, and the
    /// value.
    pub fn node_for_inclusion_proof(&self, leaf_key: &[Nibble], leaf_value: Vec<u8>) -> (r: Result<
        NibblePatriciaTrieNodeLeaf,
        NibblePatriciaTrieError,
    >)
        requires
            self.wf(),
        ensures
            match deepest_branch_on_path(self.nodes_branch@, leaf_key@) {
                Some(j) => r matches Ok(l) && l.key_fragment@ == leaf_key@.skip(j) && l.value@ == leaf_value@,
                None => r matches Err(NibblePatriciaTrieError::Other(m)) && m@ == no_parent_message(),
            },
    {
        let leaf_key_fragment = self.leaf_key_fragment_from_path(leaf_key)?;
        Ok(NibblePatriciaTrieNodeLeaf::new(leaf_key_fragment, leaf_value))
    }
}

/// `g` answered a leaf for `leaf_key` whose key, without the leaf's key
/// fragment, is `parent`: the key of the leaf's parent branch.
pub open spec fn answered_leaf_parent<G: Fn(&[Nibble]) -> Result<NibblePatriciaTrieNode, NibblePatriciaTrieError>>(
    g: G,
    leaf_key: Seq<u8>,
    parent: Seq<u8>,
) -> bool {
    exists|s: &[Nibble], l: NibblePatriciaTrieNodeLeaf|
        s@ == leaf_key && #[trigger] g.ensures((s,), Ok(NibblePatriciaTrieNode::Leaf(l))) && parent == leaf_key.take(
            leaf_key.len() - l.key_fragment@.len(),
        )
}

/// Child `i` of the branch at `key` is accounted for: some key of `keys`
/// lies under it, or `h` answered a fragment `f` for it and `hashed` holds a
/// hash at the child's full key `key + f`.
pub open spec fn child_accounted<H: Fn(&[Nibble], Nibble) -> Result<(Vec<Nibble>, [u8; 32]), NibblePatriciaTrieError>>(
    h: H,
    keys: Set<Seq<u8>>,
    hashed: Map<Seq<u8>, [u8; 32]>,
    key: Seq<u8>,
    i: Nibble,
) -> bool {
    (exists|k: Seq<u8>| #[trigger] keys.contains(k) && is_prefix_of(key.push(i), k)) || (exists|
        s: &[Nibble],
        f: Vec<Nibble>,
        hh: [u8; 32],
    |
        s@ == key && #[trigger] h.ensures((s, i), Ok::<(Vec<Nibble>, [u8; 32]), NibblePatriciaTrieError>((f, hh)))
            && hashed.contains_key(key + f@))
}

/// Every child of every branch of `nb` is accounted for.
pub open spec fn children_accounted<H: Fn(&[Nibble], Nibble) -> Result<(Vec<Nibble>, [u8; 32]), NibblePatriciaTrieError>>(
    h: H,
    keys: Set<Seq<u8>>,
    hashed: Map<Seq<u8>, [u8; 32]>,
    nb: Map<Seq<u8>, NibblePatriciaTrieNodeBranch>,
) -> bool {
    forall|k: Seq<u8>, j: int|
        nb.contains_key(k) && 0 <= j < nb[k].child_key_indices@.len() ==> child_accounted(
            h,
            keys,
            hashed,
            k,
            #[trigger] nb[k].child_key_indices@[j],
        )
}

/// A child stays accounted for when keys and hashes are only added.
proof fn lemma_child_accounted_grows<H: Fn(&[Nibble], Nibble) -> Result<(Vec<Nibble>, [u8; 32]), NibblePatriciaTrieError>>(
    h: H,
    keys1: Set<Seq<u8>>,
    keys2: Set<Seq<u8>>,
    hashed1: Map<Seq<u8>, [u8; 32]>,
    hashed2: Map<Seq<u8>, [u8; 32]>,
    key: Seq<u8>,
    i: Nibble,
)
    requires
        child_accounted(h, keys1, hashed1, key, i),
        keys1.subset_of(keys2),
        forall|k: Seq<u8>| #[trigger] hashed1.contains_key(k) ==> hashed2.contains_key(k),
    ensures
        child_accounted(h, keys2, hashed2, key, i),
{
    if exists|k: Seq<u8>| #[trigger] keys1.contains(k) && is_prefix_of(key.push(i), k) {
        let k = choose|k: Seq<u8>| #[trigger] keys1.contains(k) && is_prefix_of(key.push(i), k);
        assert(keys2.contains(k));
    } else {
        let (s, f, hh) = choose|s: &[Nibble], f: Vec<Nibble>, hh: [u8; 32]|
            s@ == key && #[trigger] h.ensures((s, i), Ok::<(Vec<Nibble>, [u8; 32]), NibblePatriciaTrieError>((f, hh)))
                && hashed1.contains_key(key + f@);
        assert(hashed2.contains_key(key + f@));
    }
}

/// Every child of a set of branches stays accounted for when keys and
/// hashes are only added.
proof fn lemma_children_accounted_grows<H: Fn(&[Nibble], Nibble) -> Result<(Vec<Nibble>, [u8; 32]), NibblePatriciaTrieError>>(
    h: H,
    keys1: Set<Seq<u8>>,
    keys2: Set<Seq<u8>>,
    hashed1: Map<Seq<u8>, [u8; 32]>,
    hashed2: Map<Seq<u8>, [u8; 32]>,
    nb: Map<Seq<u8>, NibblePatriciaTrieNodeBranch>,
)
    requires
        children_accounted(h, keys1, hashed1, nb),
        keys1.subset_of(keys2),
        forall|k: Seq<u8>| #[trigger] hashed1.contains_key(k) ==> hashed2.contains_key(k),
    ensures
        children_accounted(h, keys2, hashed2, nb),
{
    assert forall|k: Seq<u8>, j: int| nb.contains_key(k) && 0 <= j < nb[k].child_key_indices@.len() implies child_accounted(
        h,
        keys2,
        hashed2,
        k,
        #[trigger] nb[k].child_key_indices@[j],
    ) by {
        lemma_child_accounted_grows(h, keys1, keys2, hashed1, hashed2, k, nb[k].child_key_indices@[j]);
    }
}

/// `g` answered a branch for `key` whose key, without the branch's key
/// fragment, is `parent`: the key of the branch's parent.
pub open spec fn answered_branch_parent<G: Fn(&[Nibble]) -> Result<NibblePatriciaTrieNode, NibblePatriciaTrieError>>(
    g: G,
    key: Seq<u8>,
    parent: Seq<u8>,
) -> bool {
    exists|s: &[Nibble], b: NibblePatriciaTrieNodeBranch|
        s@ == key && #[trigger] g.ensures((s,), Ok(NibblePatriciaTrieNode::Branch(b))) && parent == key.take(
            key.len() - b.key_fragment@.len(),
        )
}

/// `g` answered a node of the wrong kind: a branch at a leaf key, or a leaf
/// at the key of the parent of a leaf or of a branch.
pub open spec fn wrong_kind_answered<G: Fn(&[Nibble]) -> Result<NibblePatriciaTrieNode, NibblePatriciaTrieError>>(
    g: G,
    leaf_keys: Map<Seq<u8>, ()>,
) -> bool {
    ||| exists|s: &[Nibble], b: NibblePatriciaTrieNodeBranch|
        leaf_keys.contains_key(s@) && #[trigger] g.ensures((s,), Ok(NibblePatriciaTrieNode::Branch(b)))
    ||| exists|s: &[Nibble], l: NibblePatriciaTrieNodeLeaf, q: Seq<u8>|
        #[trigger] g.ensures((s,), Ok(NibblePatriciaTrieNode::Leaf(l))) && #[trigger] answered_leaf_parent(g, q, s@)
    ||| exists|s: &[Nibble], l: NibblePatriciaTrieNodeLeaf, q: Seq<u8>|
        #[trigger] g.ensures((s,), Ok(NibblePatriciaTrieNode::Leaf(l))) && #[trigger] answered_branch_parent(g, q, s@)
}

/// `h` answered, for the child at index `i` of the node at `k`, the rest
/// `f` of the child's key, with `x == k + f`.
pub open spec fn answered_child_of<H: Fn(&[Nibble], Nibble) -> Result<(Vec<Nibble>, [u8; 32]), NibblePatriciaTrieError>>(
    h: H,
    k: Seq<u8>,
    i: Nibble,
    x: Seq<u8>,
) -> bool {
    exists|s: &[Nibble], f: Vec<Nibble>, hh: [u8; 32]|
        s@ == k && #[trigger] h.ensures((s, i), Ok::<(Vec<Nibble>, [u8; 32]), NibblePatriciaTrieError>((f, hh))) && x
            == k + f@
}

/// `x` is the full key that `h` answered for the child at index `i` of the
/// branch at `k`, and no key of `keys` lies under that child.
pub open spec fn hashed_child_of<H: Fn(&[Nibble], Nibble) -> Result<(Vec<Nibble>, [u8; 32]), NibblePatriciaTrieError>>(
    h: H,
    keys: Set<Seq<u8>>,
    k: Seq<u8>,
    i: Nibble,
    x: Seq<u8>,
) -> bool {
    &&& answered_child_of(h, k, i, x)
    &&& !exists|q: Seq<u8>| #[trigger] keys.contains(q) && is_prefix_of(k.push(i), q)
}

/// Each hash of `hashed` is recorded (in `hsrc` and `hidx`) as the answer
/// of `h` for a child of a branch among `owners`, no shorter than `depth`,
/// and no marked node of `m` lies under that child.
spec fn hashes_sourced<H: Fn(&[Nibble], Nibble) -> Result<(Vec<Nibble>, [u8; 32]), NibblePatriciaTrieError>>(
    h: H,
    hashed: Map<Seq<u8>, [u8; 32]>,
    hsrc: Map<Seq<u8>, Seq<u8>>,
    hidx: Map<Seq<u8>, u8>,
    owners: Set<Seq<u8>>,
    m: Map<Seq<u8>, NibblePatriciaTrieNode>,
    depth: int,
) -> bool {
    forall|x: Seq<u8>|
        #[trigger] hashed.contains_key(x) ==> hsrc.contains_key(x) && hidx.contains_key(x) && answered_child_of(
            h,
            hsrc[x],
            hidx[x],
            x,
        ) && owners.contains(hsrc[x]) && hsrc[x].len() >= depth && !has_key_with_prefix(m, hsrc[x].push(hidx[x]))
}

/// The branch at `k` is the parent of `o`, a leaf key or a branch of the
/// proof `nb`, as `g` answered.
pub open spec fn parent_of_proof_node<G: Fn(&[Nibble]) -> Result<NibblePatriciaTrieNode, NibblePatriciaTrieError>>(
    g: G,
    leaf_keys: Map<Seq<u8>, ()>,
    nb: Map<Seq<u8>, NibblePatriciaTrieNodeBranch>,
    o: Seq<u8>,
    k: Seq<u8>,
) -> bool {
    ||| leaf_keys.contains_key(o) && answered_leaf_parent(g, o, k)
    ||| nb.contains_key(o) && answered_branch_parent(g, o, k)
}

/// `from_leafs` asks `g` about the key `k`: a leaf key, the parent (as `g`
/// answered) of a leaf key, or the parent of a key at which `g` answered a
/// branch.
pub open spec fn node_lookup_asked<G: Fn(&[Nibble]) -> Result<NibblePatriciaTrieNode, NibblePatriciaTrieError>>(
    g: G,
    leaf_keys: Map<Seq<u8>, ()>,
    k: Seq<u8>,
) -> bool {
    ||| leaf_keys.contains_key(k)
    ||| exists|l: Seq<u8>| leaf_keys.contains_key(l) && #[trigger] answered_leaf_parent(g, l, k)
    ||| exists|q: Seq<u8>| #[trigger] answered_branch_parent(g, q, k)
}

/// `from_leafs` asks `h` about the child at index `i` of the key `k` only
/// where `g` answered a branch with a child at `i`.
pub open spec fn child_lookup_asked<G: Fn(&[Nibble]) -> Result<NibblePatriciaTrieNode, NibblePatriciaTrieError>>(
    g: G,
    k: Seq<u8>,
    i: Nibble,
) -> bool {
    exists|s: &[Nibble], b: NibblePatriciaTrieNodeBranch|
        s@ == k && #[trigger] g.ensures((s,), Ok(NibblePatriciaTrieNode::Branch(b))) && b.child_key_indices@.contains(i)
}

/// The lookups that `from_leafs` makes all succeed: `g` gives no error and
/// no node of the wrong kind on the keys it is asked about, and `h` gives
/// no error on the children it is asked about.
pub open spec fn lookups_succeed<
    G: Fn(&[Nibble]) -> Result<NibblePatriciaTrieNode, NibblePatriciaTrieError>,
    H: Fn(&[Nibble], Nibble) -> Result<(Vec<Nibble>, [u8; 32]), NibblePatriciaTrieError>,
>(g: G, h: H, leaf_keys: Map<Seq<u8>, ()>) -> bool {
    &&& !wrong_kind_answered(g, leaf_keys)
    &&& forall|s: &[Nibble], e: NibblePatriciaTrieError|
        node_lookup_asked(g, leaf_keys, s@) ==> !#[trigger] g.ensures((s,), Err::<NibblePatriciaTrieNode, NibblePatriciaTrieError>(e))
    &&& forall|s: &[Nibble], n: Nibble, e: NibblePatriciaTrieError|
        child_lookup_asked(g, s@, n) ==> !#[trigger] h.ensures((s, n), Err::<(Vec<Nibble>, [u8; 32]), NibblePatriciaTrieError>(e))
}

/// What a proof built for the leaf keys `leaf_keys` holds: every branch is
/// one that `g` gave at its key, every hash one that `h` gave for a child;
/// the parent of each leaf and of each branch of the proof is a branch of
/// the proof (or one of the leaf keys), and each branch of the proof is
/// such a parent; every hash is under the full key of a child of a branch
/// of the proof under which no leaf key and no branch of the proof lies;
/// and every child of every branch of
/// the proof lies over a leaf key or a branch of the proof, or has its hash
/// in the proof under the full key that `h` gave for it.
pub open spec fn built_from_leafs<
    G: Fn(&[Nibble]) -> Result<NibblePatriciaTrieNode, NibblePatriciaTrieError>,
    H: Fn(&[Nibble], Nibble) -> Result<(Vec<Nibble>, [u8; 32]), NibblePatriciaTrieError>,
>(g: G, h: H, leaf_keys: Map<Seq<u8>, ()>, p: NibblePatriciaTrieRootPath) -> bool {
    &&& p.wf()
    &&& branches_sound(g, p.nodes_branch@)
    &&& hashes_sound(h, p.nodes_hashed@)
    &&& forall|l: Seq<u8>|
        #[trigger] leaf_keys.contains_key(l) ==> exists|pk: Seq<u8>|
            #[trigger] answered_leaf_parent(g, l, pk) && (p.nodes_branch@.contains_key(pk) || leaf_keys.contains_key(pk))
    &&& forall|k: Seq<u8>|
        #[trigger] p.nodes_branch@.contains_key(k) ==> exists|pk: Seq<u8>|
            #[trigger] answered_branch_parent(g, k, pk) && (p.nodes_branch@.contains_key(pk) || leaf_keys.contains_key(
                pk,
            ))
    &&& children_accounted(h, leaf_keys.dom() + p.nodes_branch@.dom(), p.nodes_hashed@, p.nodes_branch@)
    &&& forall|k: Seq<u8>|
        #[trigger] p.nodes_branch@.contains_key(k) ==> exists|o: Seq<u8>|
            #[trigger] parent_of_proof_node(g, leaf_keys, p.nodes_branch@, o, k)
    &&& forall|x: Seq<u8>|
        #[trigger] p.nodes_hashed@.contains_key(x) ==> exists|k: Seq<u8>, i: Nibble|
            p.nodes_branch@.contains_key(k) && #[trigger] hashed_child_of(
                h,
                leaf_keys.dom() + p.nodes_branch@.dom(),
                k,
                i,
                x,
            )
}

/// Each key of the marked nodes `m` is a leaf key, a branch of the proof
/// `nb`, or a marked branch (in `marked`) no longer than `bound`, still to
/// be added to the proof.
spec fn marks_pending(
    m: Map<Seq<u8>, NibblePatriciaTrieNode>,
    leaves: Map<Seq<u8>, ()>,
    nb: Map<Seq<u8>, NibblePatriciaTrieNodeBranch>,
    marked: Map<Seq<u8>, ()>,
    bound: int,
) -> bool {
    forall|k: Seq<u8>|
        #[trigger] m.contains_key(k) ==> leaves.contains_key(k) || nb.contains_key(k) || (marked.contains_key(k)
            && m[k] is Branch && k.len() <= bound)
}

/// The length of the longest key of the set.
fn max_marked_len(keys: &SortedMap<()>) -> (r: usize)
    ensures
        forall|j: int| 0 <= j < keys.size() ==> #[trigger] keys.key_at(j).len() <= r,
{
    let mut m: usize = 0;
    let mut i: usize = 0;
    while i < keys.entries.len()
        invariant
            i <= keys.size(),
            forall|j: int| 0 <= j < i ==> #[trigger] keys.key_at(j).len() <= m,
        decreases keys.size() - i,
    {
        if keys.entries[i].0.len() > m {
            m = keys.entries[i].0.len();
        }
        i += 1;
    }
    m
}

impl NibblePatriciaTrieRootPath {
    /// Builds an inclusion (or non-inclusion) proof for the leaves at
    /// `leaf_keys`: it marks each leaf and its parent branch, then, from the
    /// deepest marked depth up to the root, adds each marked branch to the
    /// proof, the hashes of its children that are not marked (under their
    /// full keys), and marks its parent branch.
    ///
    /// What the proof holds is `built_from_leafs`: every branch is one that
    /// `get_node` gave at its key and every hash one that
    /// `get_child_node_fragment_and_hash` gave for a child; the parent of
    /// each leaf and of each branch of the proof is in the proof (unless it
    /// is one of the leaf keys); every child of every branch of the proof
    /// lies over a leaf key or a branch of the proof, or has its hash in the
    /// proof under its full key. Each marked branch, whatever its depth, is
    /// visited once its depth is reached. For lookups that read a trie, the
    /// proof gives back the trie's root: see
    /// `law_inclusion_proof_gives_root`. Without leaf keys the proof is
    /// empty. It fails only with an error that a lookup gave on a key it
    /// asks about (`node_lookup_asked`, `child_lookup_asked`), or with
    /// `InvalidNode` when `get_node` gives a branch at a leaf key or a leaf
    /// at a parent's key; when those lookups all succeed
    /// (`lookups_succeed`), it succeeds.
    pub fn from_leafs<G, H>(
        leaf_keys: SortedMap<()>,
        get_node: &G,
        get_child_node_fragment_and_hash: &H,
    ) -> (r: Result<Self, NibblePatriciaTrieError>) where
        G: Fn(&[Nibble]) -> Result<NibblePatriciaTrieNode, NibblePatriciaTrieError>,
        H: Fn(&[Nibble], Nibble) -> Result<(Vec<Nibble>, [u8; 32]), NibblePatriciaTrieError>,

        requires
            leaf_keys.wf(),
            forall|s: &[Nibble]| #[trigger] get_node.requires((s,)),
            forall|s: &[Nibble], n: Nibble| #[trigger] get_child_node_fragment_and_hash.requires((s, n)),
            leaves_fit_keys(*get_node),
            branches_fit_keys(*get_node),
        ensures
            leaf_keys.size() == 0 ==> (r matches Err(e) && e is EmptyProof),
            r matches Err(e) ==> (leaf_keys.size() == 0 && e is EmptyProof) || (e is InvalidNode && wrong_kind_answered(
                *get_node,
                leaf_keys@,
            )) || (exists|s: &[Nibble]|
                node_lookup_asked(*get_node, leaf_keys@, s@) && #[trigger] get_node.ensures(
                    (s,),
                    Err::<NibblePatriciaTrieNode, NibblePatriciaTrieError>(e),
                )) || (exists|s: &[Nibble], n: Nibble|
                child_lookup_asked(*get_node, s@, n) && #[trigger] get_child_node_fragment_and_hash.ensures(
                    (s, n),
                    Err::<(Vec<Nibble>, [u8; 32]), NibblePatriciaTrieError>(e),
                )),
            leaf_keys.size() > 0 && lookups_succeed(*get_node, *get_child_node_fragment_and_hash, leaf_keys@) ==> r is Ok,
            r matches Ok(p) ==> built_from_leafs(*get_node, *get_child_node_fragment_and_hash, leaf_keys@, p),
    {
        let mut marked_nodes: SortedMap<NibblePatriciaTrieNode> = SortedMap::new();
        let mut marked_keys: SortedMap<()> = SortedMap::new();
        let mut i: usize = 0;
        let ghost mut parents: Map<Seq<u8>, Seq<u8>> = Map::empty();
        let ghost mut origin: Map<Seq<u8>, Seq<u8>> = Map::empty();
        while i < leaf_keys.entries.len()
            invariant
                i <= leaf_keys.size(),
                leaf_keys.wf(),
                marked_nodes.wf(),
                marked_keys.wf(),
                forall|s: &[Nibble]| #[trigger] get_node.requires((s,)),
                leaves_fit_keys(*get_node),
                nodes_sound(*get_node, marked_nodes@),
                forall|k: Seq<u8>| #[trigger] marked_keys@.contains_key(k) ==> marked_nodes@.contains_key(k),
                i > 0 ==> marked_nodes.size() > 0,
                marked_nodes.size() > 0 ==> i > 0,
                forall|k: Seq<u8>|
                    #[trigger] marked_nodes@.contains_key(k) ==> leaf_keys@.contains_key(k) || (marked_keys@.contains_key(k)
                        && marked_nodes@[k] is Branch),
                forall|k: Seq<u8>|
                    #[trigger] marked_nodes@.contains_key(k) && marked_nodes@[k] is Branch ==> origin.contains_key(k)
                        && parent_of_proof_node(*get_node, leaf_keys@, Map::empty(), origin[k], k),
                forall|t: int| 0 <= t < i ==> marked_nodes@.contains_key(#[trigger] leaf_keys.key_at(t)),
                forall|t: int|
                    0 <= t < i ==> parents.contains_key(#[trigger] leaf_keys.key_at(t)) && answered_leaf_parent(
                        *get_node,
                        leaf_keys.key_at(t),
                        parents[leaf_keys.key_at(t)],
                    ) && marked_nodes@.contains_key(parents[leaf_keys.key_at(t)]),
            decreases leaf_keys.size() - i,
        {
            let leaf_key = &leaf_keys.entries[i].0;
            let ghost before = marked_nodes@;
            proof {
                leaf_keys.lemma_index_of(i as int);
            }
            let leaf_slice = leaf_key.as_slice();
            assert(leaf_keys@.contains_key(leaf_slice@));
            let (parent_key, leaf_node) = match leaf_parent_key(leaf_slice, get_node) {
                Ok(found) => found,
                Err(e) => {
                    proof {
                        let out = choose|out: Result<NibblePatriciaTrieNode, NibblePatriciaTrieError>|
                            #[trigger] get_node.ensures((leaf_slice,), out) && match out {
                                Ok(NibblePatriciaTrieNode::Leaf(l)) => false,
                                Ok(NibblePatriciaTrieNode::Branch(_)) => e is InvalidNode,
                                Err(e2) => e == e2,
                            };
                        match out {
                            Ok(NibblePatriciaTrieNode::Branch(b)) => {
                                assert(get_node.ensures((leaf_slice,), Ok(NibblePatriciaTrieNode::Branch(b))));
                            },
                            Err(e2) => {
                                assert(node_lookup_asked(*get_node, leaf_keys@, leaf_slice@));
                                assert(get_node.ensures((leaf_slice,), Err::<NibblePatriciaTrieNode, NibblePatriciaTrieError>(e)));
                            },
                            _ => {},
                        }
                    }
                    return Err(e);
                },
            };
            assert(answered_leaf_parent(*get_node, leaf_key@, parent_key@));
            let parent_slice = parent_key.as_slice();
            let parent_node = get_node(parent_slice);
            let parent_branch = match parent_node {
                Ok(NibblePatriciaTrieNode::Branch(parent_branch)) => parent_branch,
                Ok(NibblePatriciaTrieNode::Leaf(l)) => {
                    assert(get_node.ensures((parent_slice,), Ok(NibblePatriciaTrieNode::Leaf(l))));
                    assert(wrong_kind_answered(*get_node, leaf_keys@));
                    return Err(NibblePatriciaTrieError::InvalidNode);
                },
                Err(e) => {
                    assert(node_lookup_asked(*get_node, leaf_keys@, parent_slice@));
                    assert(get_node.ensures((parent_slice,), Err::<NibblePatriciaTrieNode, NibblePatriciaTrieError>(e)));
                    return Err(e);
                },
            };
            let ghost pb = parent_branch;
            assert(answered_branch(*get_node, parent_key@, pb));
            marked_nodes.insert(copy_bytes(parent_key.as_slice()), NibblePatriciaTrieNode::Branch(parent_branch));
            marked_keys.insert(copy_bytes(parent_key.as_slice()), ());
            marked_nodes.insert(copy_bytes(leaf_key.as_slice()), NibblePatriciaTrieNode::Leaf(leaf_node));
            marked_keys.insert(copy_bytes(leaf_key.as_slice()), ());
            proof {
                marked_nodes.lemma_first_is_least(leaf_key@);
                leaf_keys.lemma_index_of(i as int);
                assert(answered_leaf_parent(*get_node, leaf_key@, parent_key@));
                assert(leaf_keys.key_at(i as int) == leaf_key@);
                assert forall|t: int| 0 <= t < i + 1 implies marked_nodes@.contains_key(#[trigger] leaf_keys.key_at(t)) by {
                    if t < i {
                        assert(before.contains_key(leaf_keys.key_at(t)));
                    }
                }
                parents = parents.insert(leaf_key@, parent_key@);
                let ghost origin_before = origin;
                origin = origin.insert(parent_key@, leaf_key@);
                assert forall|k: Seq<u8>| #[trigger] marked_nodes@.contains_key(k) && marked_nodes@[k] is Branch implies origin.contains_key(k)
                    && parent_of_proof_node(*get_node, leaf_keys@, Map::empty(), origin[k], k) by {
                    if k != parent_key@ {
                        assert(before.contains_key(k));
                        assert(origin[k] == origin_before[k]);
                    }
                }
                assert forall|t: int| 0 <= t < i + 1 implies parents.contains_key(#[trigger] leaf_keys.key_at(t))
                    && answered_leaf_parent(*get_node, leaf_keys.key_at(t), parents[leaf_keys.key_at(t)])
                    && marked_nodes@.contains_key(parents[leaf_keys.key_at(t)]) by {
                    if leaf_keys.key_at(t) != leaf_key@ {
                        assert(before.contains_key(parents[leaf_keys.key_at(t)]));
                    }
                }
            }
            i += 1;
        }
        if marked_nodes.is_empty() {
            return Err(NibblePatriciaTrieError::EmptyProof);
        }
        let mut depth = max_marked_len(&marked_keys);
        let mut slf = Self::new(SortedMap::new(), SortedMap::new());
        assert(slf.nodes_branch@ =~= Map::<Seq<u8>, NibblePatriciaTrieNodeBranch>::empty());
        assert(slf.nodes_hashed@ =~= Map::<Seq<u8>, [u8; 32]>::empty());
        proof {
            assert forall|l: Seq<u8>| #[trigger] leaf_keys@.contains_key(l) implies parents.contains_key(l)
                && answered_leaf_parent(*get_node, l, parents[l]) && marked_nodes@.contains_key(parents[l]) by {
                let t = leaf_keys.index_of(l);
                assert(leaf_keys.key_at(t) == l);
            }
            assert forall|k: Seq<u8>| #[trigger] marked_nodes@.contains_key(k) implies leaf_keys@.contains_key(k)
                || slf.nodes_branch@.contains_key(k) || (marked_keys@.contains_key(k) && marked_nodes@[k] is Branch
                && k.len() <= depth) by {
                if !leaf_keys@.contains_key(k) {
                    let t = marked_keys.index_of(k);
                    assert(marked_keys.key_at(t) == k);
                }
            }
        }
        assert forall|k: Seq<u8>|
            #[trigger] marked_nodes@.contains_key(k) && marked_nodes@[k] is Branch implies origin.contains_key(k)
                && parent_of_proof_node(*get_node, leaf_keys@, slf.nodes_branch@, origin[k], k) by {
            assert(parent_of_proof_node(*get_node, leaf_keys@, Map::empty(), origin[k], k));
        }
        assert forall|l: Seq<u8>| #[trigger] leaf_keys@.contains_key(l) implies marked_nodes@.contains_key(l) by {
            let t = leaf_keys.index_of(l);
            assert(leaf_keys.key_at(t) == l);
        }
        let ghost mut bound: int = depth as int;
        let ghost mut hsrc: Map<Seq<u8>, Seq<u8>> = Map::empty();
        let ghost mut hidx: Map<Seq<u8>, u8> = Map::empty();
        let ghost mut bparents: Map<Seq<u8>, Seq<u8>> = Map::empty();
        loop
            invariant
                leaf_keys.size() > 0,
                marked_nodes.wf(),
                marked_keys.wf(),
                slf.wf(),
                forall|s: &[Nibble]| #[trigger] get_node.requires((s,)),
                forall|s: &[Nibble], n: Nibble| #[trigger] get_child_node_fragment_and_hash.requires((s, n)),
                branches_fit_keys(*get_node),
                nodes_sound(*get_node, marked_nodes@),
                forall|k: Seq<u8>| #[trigger] marked_keys@.contains_key(k) ==> marked_nodes@.contains_key(k),
                branches_sound(*get_node, slf.nodes_branch@),
                hashes_sound(*get_child_node_fragment_and_hash, slf.nodes_hashed@),
                forall|l: Seq<u8>|
                    #[trigger] leaf_keys@.contains_key(l) ==> parents.contains_key(l) && answered_leaf_parent(
                        *get_node,
                        l,
                        parents[l],
                    ) && marked_nodes@.contains_key(parents[l]),
                bound <= depth,
                forall|l: Seq<u8>| #[trigger] leaf_keys@.contains_key(l) ==> marked_nodes@.contains_key(l),
                marks_pending(marked_nodes@, leaf_keys@, slf.nodes_branch@, marked_keys@, bound),
                hashes_sourced(*get_child_node_fragment_and_hash, slf.nodes_hashed@, hsrc, hidx, slf.nodes_branch@.dom(), marked_nodes@, depth as int),
                forall|k: Seq<u8>|
                    #[trigger] marked_nodes@.contains_key(k) && marked_nodes@[k] is Branch ==> origin.contains_key(k)
                        && parent_of_proof_node(*get_node, leaf_keys@, slf.nodes_branch@, origin[k], k),
                forall|k: Seq<u8>|
                    #[trigger] slf.nodes_branch@.contains_key(k) ==> marked_nodes@.contains_key(k) && marked_nodes@[k] is Branch,
                forall|k: Seq<u8>|
                    #[trigger] slf.nodes_branch@.contains_key(k) ==> bparents.contains_key(k) && answered_branch_parent(
                        *get_node,
                        k,
                        bparents[k],
                    ) && marked_nodes@.contains_key(bparents[k]),
                children_accounted(*get_child_node_fragment_and_hash, marked_nodes@.dom(), slf.nodes_hashed@, slf.nodes_branch@),
            ensures
                children_accounted(*get_child_node_fragment_and_hash, marked_nodes@.dom(), slf.nodes_hashed@, slf.nodes_branch@),
                slf.wf(),
                branches_sound(*get_node, slf.nodes_branch@),
                hashes_sound(*get_child_node_fragment_and_hash, slf.nodes_hashed@),
                forall|l: Seq<u8>|
                    #[trigger] leaf_keys@.contains_key(l) ==> parents.contains_key(l) && answered_leaf_parent(
                        *get_node,
                        l,
                        parents[l],
                    ) && marked_nodes@.contains_key(parents[l]),
                forall|l: Seq<u8>| #[trigger] leaf_keys@.contains_key(l) ==> marked_nodes@.contains_key(l),
                marks_pending(marked_nodes@, leaf_keys@, slf.nodes_branch@, marked_keys@, -1),
                hashes_sourced(*get_child_node_fragment_and_hash, slf.nodes_hashed@, hsrc, hidx, slf.nodes_branch@.dom(), marked_nodes@, depth as int),
                forall|k: Seq<u8>|
                    #[trigger] marked_nodes@.contains_key(k) && marked_nodes@[k] is Branch ==> origin.contains_key(k)
                        && parent_of_proof_node(*get_node, leaf_keys@, slf.nodes_branch@, origin[k], k),
                forall|k: Seq<u8>|
                    #[trigger] slf.nodes_branch@.contains_key(k) ==> marked_nodes@.contains_key(k) && marked_nodes@[k] is Branch,
                forall|k: Seq<u8>|
                    #[trigger] slf.nodes_branch@.contains_key(k) ==> bparents.contains_key(k) && answered_branch_parent(
                        *get_node,
                        k,
                        bparents[k],
                    ) && marked_nodes@.contains_key(bparents[k]),
            decreases depth,
        {
            let mut new_marked_nodes: SortedMap<NibblePatriciaTrieNode> = SortedMap::new();
            let mut new_marked_keys: SortedMap<()> = SortedMap::new();
            let ghost nb0 = slf.nodes_branch@;
            let ghost mut origin_new: Map<Seq<u8>, Seq<u8>> = Map::empty();
            let mut i: usize = 0;
            while i < marked_keys.entries.len()
                invariant
                    leaf_keys.size() > 0,
                    i <= marked_keys.size(),
                    bound <= depth,
                    marks_pending(marked_nodes@, leaf_keys@, nb0, marked_keys@, bound),
                    forall|k: Seq<u8>| #[trigger] nb0.contains_key(k) ==> slf.nodes_branch@.contains_key(k),
                    forall|k: Seq<u8>|
                        #[trigger] marked_nodes@.contains_key(k) && marked_nodes@[k] is Branch ==> origin.contains_key(k)
                            && parent_of_proof_node(*get_node, leaf_keys@, nb0, origin[k], k),
                    forall|k: Seq<u8>|
                        #[trigger] slf.nodes_branch@.contains_key(k) ==> marked_nodes@.contains_key(k)
                            && marked_nodes@[k] is Branch,
                    forall|k: Seq<u8>| #[trigger] origin_new.contains_key(k) ==> new_marked_nodes@.contains_key(k),
                    hashes_sourced(*get_child_node_fragment_and_hash, slf.nodes_hashed@, hsrc, hidx, slf.nodes_branch@.dom(), marked_nodes@, depth as int),
                    forall|k: Seq<u8>|
                        #[trigger] new_marked_nodes@.contains_key(k) ==> origin_new.contains_key(k)
                            && slf.nodes_branch@.contains_key(origin_new[k]) && answered_branch_parent(*get_node, origin_new[k], k),
                    forall|k: Seq<u8>|
                        #[trigger] slf.nodes_branch@.contains_key(k) ==> bparents.contains_key(k) && answered_branch_parent(
                            *get_node,
                            k,
                            bparents[k],
                        ) && (marked_nodes@.contains_key(bparents[k]) || new_marked_nodes@.contains_key(bparents[k])),
                    children_accounted(*get_child_node_fragment_and_hash, marked_nodes@.dom(), slf.nodes_hashed@, slf.nodes_branch@),
                    forall|t: int|
                        0 <= t < i && (#[trigger] marked_keys.key_at(t)).len() == depth && marked_nodes@.contains_key(
                            marked_keys.key_at(t),
                        ) && marked_nodes@[marked_keys.key_at(t)] is Branch ==> slf.nodes_branch@.contains_key(
                            marked_keys.key_at(t),
                        ),
                    forall|k: Seq<u8>|
                        #[trigger] new_marked_nodes@.contains_key(k) ==> new_marked_keys@.contains_key(k)
                            && new_marked_nodes@[k] is Branch && (k.len() < depth || slf.nodes_branch@.contains_key(k))
                            && k.len() <= depth,
                    marked_nodes.wf(),
                    marked_keys.wf(),
                    new_marked_nodes.wf(),
                    new_marked_keys.wf(),
                    slf.wf(),
                    forall|s: &[Nibble]| #[trigger] get_node.requires((s,)),
                    forall|s: &[Nibble], n: Nibble| #[trigger] get_child_node_fragment_and_hash.requires((s, n)),
                    branches_fit_keys(*get_node),
                    nodes_sound(*get_node, marked_nodes@),
                    nodes_sound(*get_node, new_marked_nodes@),
                    forall|k: Seq<u8>| #[trigger] marked_keys@.contains_key(k) ==> marked_nodes@.contains_key(k),
                    forall|k: Seq<u8>| #[trigger] new_marked_keys@.contains_key(k) ==> new_marked_nodes@.contains_key(k),
                    branches_sound(*get_node, slf.nodes_branch@),
                    hashes_sound(*get_child_node_fragment_and_hash, slf.nodes_hashed@),
                decreases marked_keys.size() - i,
            {
                let key = &marked_keys.entries[i].0;
                proof {
                    marked_keys.lemma_index_of(i as int);
                }
                if key.len() == depth {
                    let node = match marked_nodes.get(key.as_slice()) {
                        Some(n) => n,
                        None => {
                            return Err(NibblePatriciaTrieError::NotFound);
                        },
                    };
                    match node {
                        NibblePatriciaTrieNode::Branch(branch) => {
                            assert(answered_branch(*get_node, key@, *branch));
                            let ghost nbk = slf.nodes_branch@;
                            let mut j: usize = 0;
                            while j < branch.child_key_indices.len()
                                invariant
                                    leaf_keys.size() > 0,
                                    slf.nodes_branch@ == nbk,
                                    answered_branch(*get_node, key@, *branch),
                                    key@.len() == depth,
                                    hashes_sourced(*get_child_node_fragment_and_hash, slf.nodes_hashed@, hsrc, hidx, slf.nodes_branch@.dom().insert(key@), marked_nodes@, depth as int),
                                    j <= branch.child_key_indices@.len(),
                                    marked_nodes.wf(),
                                    slf.wf(),
                                    forall|s: &[Nibble], n: Nibble| #[trigger] get_child_node_fragment_and_hash.requires((s, n)),
                                    hashes_sound(*get_child_node_fragment_and_hash, slf.nodes_hashed@),
                                    branches_sound(*get_node, slf.nodes_branch@),
                                    children_accounted(*get_child_node_fragment_and_hash, marked_nodes@.dom(), slf.nodes_hashed@, slf.nodes_branch@),
                                    forall|t: int| 0 <= t < j ==> child_accounted(*get_child_node_fragment_and_hash, marked_nodes@.dom(), slf.nodes_hashed@, key@, #[trigger] branch.child_key_indices@[t]),
                                decreases branch.child_key_indices@.len() - j,
                            {
                                let index = branch.child_key_indices[j];
                                let mut child_prefix = copy_bytes(key.as_slice());
                                child_prefix.push(index);
                                let pos = marked_nodes.first_with_prefix(child_prefix.as_slice());
                                proof {
                                    marked_nodes.lemma_first_with_prefix(child_prefix@, pos);
                                }
                                if pos.is_some() {
                                    proof {
                                        let k = choose|k: Seq<u8>| #[trigger] marked_nodes@.contains_key(k) && is_prefix_of(child_prefix@, k);
                                        assert(marked_nodes@.dom().contains(k));
                                        assert(child_prefix@ == key@.push(index));
                                        assert(child_accounted(*get_child_node_fragment_and_hash, marked_nodes@.dom(), slf.nodes_hashed@, key@, index));
                                    }
                                } else {
                                    let key_slice = key.as_slice();
                                    let out = get_child_node_fragment_and_hash(key_slice, index);
                                    let (child_key_fragment, child_node_hash) = match out {
                                        Ok(found) => found,
                                        Err(e) => {
                                            proof {
                                                let (s0, b0) = choose|s0: &[Nibble], b0: NibblePatriciaTrieNodeBranch|
                                                    s0@ == key@ && #[trigger] get_node.ensures((s0,), Ok(NibblePatriciaTrieNode::Branch(b0)))
                                                        && b0.key_fragment@ == branch.key_fragment@ && b0.child_key_indices@
                                                        == branch.child_key_indices@;
                                                assert(index == branch.child_key_indices@[j as int]);
                                                assert(b0.child_key_indices@[j as int] == index);
                                                assert(child_lookup_asked(*get_node, key_slice@, index));
                                                assert(get_child_node_fragment_and_hash.ensures(
                                                    (key_slice, index),
                                                    Err::<(Vec<Nibble>, [u8; 32]), NibblePatriciaTrieError>(e),
                                                ));
                                            }
                                            return Err(e);
                                        },
                                    };
                                    let child_key = concat_bytes(key.as_slice(), child_key_fragment.as_slice());
                                    let ghost hh = child_node_hash;
                                    let ghost ff = child_key_fragment;
                                    assert(answered_child(*get_child_node_fragment_and_hash, child_key@, hh));
                                    let ghost before = slf.nodes_hashed@;
                                    slf.nodes_hashed.insert(child_key, child_node_hash);
                                    assert forall|k: Seq<u8>| #[trigger] slf.nodes_hashed@.contains_key(k)
                                        implies answered_child(*get_child_node_fragment_and_hash, k, slf.nodes_hashed@[k]) by {
                                        if k != child_key@ {
                                            assert(before.contains_key(k));
                                        }
                                    }
                                    proof {
                                        assert(get_child_node_fragment_and_hash.ensures(
                                            (key_slice, index),
                                            Ok::<(Vec<Nibble>, [u8; 32]), NibblePatriciaTrieError>((ff, hh)),
                                        ));
                                        assert(answered_child_of(*get_child_node_fragment_and_hash, key@, index, child_key@));
                                        assert(child_prefix@ == key@.push(index));
                                        assert(!has_key_with_prefix(marked_nodes@, key@.push(index)));
                                        let ghost hsrc_before = hsrc;
                                        let ghost hidx_before = hidx;
                                        hsrc = hsrc.insert(child_key@, key@);
                                        hidx = hidx.insert(child_key@, index);
                                        assert forall|x: Seq<u8>| #[trigger] slf.nodes_hashed@.contains_key(x) implies hsrc.contains_key(x)
                                            && hidx.contains_key(x) && answered_child_of(*get_child_node_fragment_and_hash, hsrc[x], hidx[x], x)
                                            && slf.nodes_branch@.dom().insert(key@).contains(hsrc[x]) && hsrc[x].len() >= depth
                                            && !has_key_with_prefix(marked_nodes@, hsrc[x].push(hidx[x])) by {
                                            if x != child_key@ {
                                                assert(before.contains_key(x));
                                                assert(hsrc[x] == hsrc_before[x]);
                                                assert(hidx[x] == hidx_before[x]);
                                            }
                                        }
                                        lemma_children_accounted_grows(*get_child_node_fragment_and_hash, marked_nodes@.dom(), marked_nodes@.dom(), before, slf.nodes_hashed@, slf.nodes_branch@);
                                        assert forall|t: int| 0 <= t < j implies child_accounted(*get_child_node_fragment_and_hash, marked_nodes@.dom(), slf.nodes_hashed@, key@, #[trigger] branch.child_key_indices@[t]) by {
                                            lemma_child_accounted_grows(*get_child_node_fragment_and_hash, marked_nodes@.dom(), marked_nodes@.dom(), before, slf.nodes_hashed@, key@, branch.child_key_indices@[t]);
                                        }
                                        assert(slf.nodes_hashed@.contains_key(key@ + ff@));
                                        assert(child_accounted(*get_child_node_fragment_and_hash, marked_nodes@.dom(), slf.nodes_hashed@, key@, index));
                                    }
                                }
                                j += 1;
                            }
                            let end = key.len() - branch.key_fragment.len();
                            let parent_key = copy_bytes(vstd::slice::slice_subrange(key.as_slice(), 0, end));
                            proof {
                                let (s0, b0) = choose|s0: &[Nibble], b0: NibblePatriciaTrieNodeBranch|
                                    s0@ == key@ && #[trigger] get_node.ensures((s0,), Ok(NibblePatriciaTrieNode::Branch(b0)))
                                        && b0.key_fragment@ == branch.key_fragment@ && b0.child_key_indices@
                                        == branch.child_key_indices@;
                                assert(parent_key@ =~= key@.take(key@.len() - b0.key_fragment@.len()));
                                assert(answered_branch_parent(*get_node, key@, parent_key@));
                            }
                            let parent_slice = parent_key.as_slice();
                            let parent_node = get_node(parent_slice);
                            let parent_branch = match parent_node {
                                Ok(NibblePatriciaTrieNode::Branch(parent_branch)) => parent_branch,
                                Ok(NibblePatriciaTrieNode::Leaf(l)) => {
                                    assert(get_node.ensures((parent_slice,), Ok(NibblePatriciaTrieNode::Leaf(l))));
                                    assert(wrong_kind_answered(*get_node, leaf_keys@));
                                    return Err(NibblePatriciaTrieError::InvalidNode);
                                },
                                Err(e) => {
                                    assert(node_lookup_asked(*get_node, leaf_keys@, parent_slice@));
                                    assert(get_node.ensures((parent_slice,), Err::<NibblePatriciaTrieNode, NibblePatriciaTrieError>(e)));
                                    return Err(e);
                                },
                            };
                            let ghost pb = parent_branch;
                            assert(answered_branch(*get_node, parent_key@, pb));
                            let ghost before_new = new_marked_nodes@;
                            proof {
                                if end == key.len() {
                                    assert(parent_key@ =~= key@);
                                }
                            }
                            new_marked_nodes.insert(
                                copy_bytes(parent_key.as_slice()),
                                NibblePatriciaTrieNode::Branch(parent_branch),
                            );
                            new_marked_keys.insert(parent_key, ());
                            assert forall|k: Seq<u8>| #[trigger] new_marked_nodes@.contains_key(k)
                                implies match new_marked_nodes@[k] {
                                NibblePatriciaTrieNode::Branch(b) => answered_branch(*get_node, k, b),
                                NibblePatriciaTrieNode::Leaf(_) => true,
                            } by {
                                if k != parent_key@ {
                                    assert(before_new.contains_key(k));
                                }
                            }
                            let ghost before = slf.nodes_branch@;
                            let dup = branch.duplicate();
                            let ghost gdup = dup;
                            slf.nodes_branch.insert(copy_bytes(key.as_slice()), dup);
                            assert forall|k: Seq<u8>| #[trigger] slf.nodes_branch@.contains_key(k)
                                implies answered_branch(*get_node, k, slf.nodes_branch@[k]) by {
                                if k != key@ {
                                    assert(before.contains_key(k));
                                } else {
                                    assert(slf.nodes_branch@[k] == gdup);
                                }
                            }
                            assert(slf.nodes_branch@.contains_key(key@));
                            proof {
                                let (s0, b0) = choose|s0: &[Nibble], b0: NibblePatriciaTrieNodeBranch|
                                    s0@ == key@ && #[trigger] get_node.ensures((s0,), Ok(NibblePatriciaTrieNode::Branch(b0)))
                                        && b0.key_fragment@ == branch.key_fragment@ && b0.child_key_indices@
                                        == branch.child_key_indices@;
                                assert(parent_key@ =~= key@.take(key@.len() - b0.key_fragment@.len()));
                                assert(answered_branch_parent(*get_node, key@, parent_key@));
                                let ghost bp_before = bparents;
                                bparents = bparents.insert(key@, parent_key@);
                                assert forall|k: Seq<u8>| #[trigger] slf.nodes_branch@.contains_key(k) implies bparents.contains_key(k)
                                    && answered_branch_parent(*get_node, k, bparents[k]) && (marked_nodes@.contains_key(bparents[k])
                                    || new_marked_nodes@.contains_key(bparents[k])) by {
                                    if k != key@ {
                                        assert(before.contains_key(k));
                                        assert(nbk.contains_key(k));
                                        assert(bparents[k] == bp_before[k]);
                                        if before_new.contains_key(bp_before[k]) {
                                            assert(new_marked_nodes@.contains_key(bp_before[k]));
                                        }
                                    } else {
                                        assert(new_marked_nodes@.contains_key(parent_key@));
                                    }
                                }
                                let ghost on_before = origin_new;
                                origin_new = origin_new.insert(parent_key@, key@);
                                assert forall|k: Seq<u8>| #[trigger] new_marked_nodes@.contains_key(k) implies origin_new.contains_key(k)
                                    && slf.nodes_branch@.contains_key(origin_new[k]) && answered_branch_parent(*get_node, origin_new[k], k) by {
                                    if k != parent_key@ {
                                        assert(before_new.contains_key(k));
                                        assert(origin_new[k] == on_before[k]);
                                        assert(before.contains_key(on_before[k]));
                                    }
                                }
                                assert forall|k: Seq<u8>| #[trigger] slf.nodes_branch@.contains_key(k) implies marked_nodes@.contains_key(k)
                                    && marked_nodes@[k] is Branch by {
                                    if k != key@ {
                                        assert(before.contains_key(k));
                                    }
                                }
                                assert forall|x: Seq<u8>| #[trigger] slf.nodes_hashed@.contains_key(x) implies hsrc.contains_key(x)
                                    && hidx.contains_key(x) && answered_child_of(*get_child_node_fragment_and_hash, hsrc[x], hidx[x], x)
                                    && slf.nodes_branch@.dom().contains(hsrc[x]) && hsrc[x].len() >= depth
                                    && !has_key_with_prefix(marked_nodes@, hsrc[x].push(hidx[x])) by {
                                    if hsrc[x] != key@ {
                                        assert(nbk.dom().insert(key@).contains(hsrc[x]));
                                        assert(before.contains_key(hsrc[x]));
                                    }
                                }
                            }
                            assert forall|k: Seq<u8>, jj: int| slf.nodes_branch@.contains_key(k) && 0 <= jj < slf.nodes_branch@[k].child_key_indices@.len() implies child_accounted(
                                *get_child_node_fragment_and_hash,
                                marked_nodes@.dom(),
                                slf.nodes_hashed@,
                                k,
                                #[trigger] slf.nodes_branch@[k].child_key_indices@[jj],
                            ) by {
                                if k == key@ {
                                    assert(slf.nodes_branch@[k] == gdup);
                                    assert(branch.child_key_indices@[jj] == gdup.child_key_indices@[jj]);
                                } else {
                                    assert(before.contains_key(k));
                                    assert(slf.nodes_branch@[k] == before[k]);
                                }
                            }
                            assert forall|k: Seq<u8>| #[trigger] new_marked_nodes@.contains_key(k) implies new_marked_keys@.contains_key(k)
                                && new_marked_nodes@[k] is Branch && (k.len() < depth || slf.nodes_branch@.contains_key(k))
                                && k.len() <= depth by {
                                if k.len() >= depth && k != key@ {
                                    assert(before.contains_key(k));
                                }
                            }
                        },
                        NibblePatriciaTrieNode::Leaf(_) => {},
                    }
                }
                i += 1;
            }
            let ghost before = marked_nodes@;
            marked_nodes.extend_from(new_marked_nodes);
            assert forall|k: Seq<u8>| #[trigger] marked_nodes@.contains_key(k) implies match marked_nodes@[k] {
                NibblePatriciaTrieNode::Branch(b) => answered_branch(*get_node, k, b),
                NibblePatriciaTrieNode::Leaf(_) => true,
            } by {
                if new_marked_nodes@.contains_key(k) {
                } else {
                    assert(before.contains_key(k));
                }
            }
            let ghost mk = marked_keys;
            marked_keys.extend_from(new_marked_keys);
            proof {
                assert forall|l: Seq<u8>| #[trigger] leaf_keys@.contains_key(l) implies parents.contains_key(l)
                    && answered_leaf_parent(*get_node, l, parents[l]) && marked_nodes@.contains_key(parents[l]) by {
                    assert(before.contains_key(parents[l]));
                }
                assert forall|k: Seq<u8>| #[trigger] marked_nodes@.contains_key(k) implies leaf_keys@.contains_key(k)
                    || slf.nodes_branch@.contains_key(k) || (marked_keys@.contains_key(k) && marked_nodes@[k] is Branch
                    && k.len() <= depth - 1) by {
                    if !new_marked_nodes@.contains_key(k) {
                        assert(before.contains_key(k));
                        if !leaf_keys@.contains_key(k) && !nb0.contains_key(k) && k.len() == depth {
                            let t = mk.index_of(k);
                            assert(mk.key_at(t) == k);
                        }
                        if nb0.contains_key(k) {
                            assert(slf.nodes_branch@.contains_key(k));
                        }
                    }
                }
                let ghost origin_old = origin;
                origin = origin.union_prefer_right(origin_new);
                assert forall|k: Seq<u8>|
                    #[trigger] marked_nodes@.contains_key(k) && marked_nodes@[k] is Branch implies origin.contains_key(k)
                        && parent_of_proof_node(*get_node, leaf_keys@, slf.nodes_branch@, origin[k], k) by {
                    if new_marked_nodes@.contains_key(k) {
                        assert(origin[k] == origin_new[k]);
                    } else {
                        assert(before.contains_key(k));
                        assert(!origin_new.contains_key(k));
                        assert(origin[k] == origin_old[k]);
                        if leaf_keys@.contains_key(origin_old[k]) && answered_leaf_parent(*get_node, origin_old[k], k) {
                        } else {
                            assert(nb0.contains_key(origin_old[k]));
                        }
                    }
                }
                assert forall|k: Seq<u8>| #[trigger] slf.nodes_branch@.contains_key(k) implies marked_nodes@.contains_key(k)
                    && marked_nodes@[k] is Branch by {
                    if !new_marked_nodes@.contains_key(k) {
                        assert(before.contains_key(k));
                    }
                }
                assert forall|k: Seq<u8>| #[trigger] slf.nodes_branch@.contains_key(k) implies bparents.contains_key(k)
                    && answered_branch_parent(*get_node, k, bparents[k]) && marked_nodes@.contains_key(bparents[k]) by {
                    if before.contains_key(bparents[k]) {
                    } else {
                        assert(new_marked_nodes@.contains_key(bparents[k]));
                    }
                }
                lemma_children_accounted_grows(
                    *get_child_node_fragment_and_hash,
                    before.dom(),
                    marked_nodes@.dom(),
                    slf.nodes_hashed@,
                    slf.nodes_hashed@,
                    slf.nodes_branch@,
                );
                assert forall|l: Seq<u8>| #[trigger] leaf_keys@.contains_key(l) implies marked_nodes@.contains_key(l) by {
                    assert(before.contains_key(l));
                }
                assert forall|x: Seq<u8>| #[trigger] slf.nodes_hashed@.contains_key(x) implies hsrc.contains_key(x)
                    && hidx.contains_key(x) && answered_child_of(*get_child_node_fragment_and_hash, hsrc[x], hidx[x], x)
                    && slf.nodes_branch@.dom().contains(hsrc[x]) && hsrc[x].len() >= depth - 1
                    && !has_key_with_prefix(marked_nodes@, hsrc[x].push(hidx[x])) by {
                    let c = hsrc[x].push(hidx[x]);
                    if has_key_with_prefix(marked_nodes@, c) {
                        let q = choose|q: Seq<u8>| #[trigger] marked_nodes@.contains_key(q) && is_prefix_of(c, q);
                        if new_marked_nodes@.contains_key(q) {
                            assert(q.len() <= depth);
                            assert(false);
                        } else {
                            assert(before.contains_key(q));
                            assert(has_key_with_prefix(before, c));
                            assert(false);
                        }
                    }
                }
                bound = depth - 1;
            }
            if depth == 0 {
                break;
            }
            depth -= 1;
        }
        proof {
            assert forall|x: Seq<u8>| #[trigger] slf.nodes_hashed@.contains_key(x) implies exists|k: Seq<u8>, i: Nibble|
                slf.nodes_branch@.contains_key(k) && #[trigger] hashed_child_of(
                    *get_child_node_fragment_and_hash,
                    leaf_keys@.dom() + slf.nodes_branch@.dom(),
                    k,
                    i,
                    x,
                ) by {
                let k = hsrc[x];
                let i = hidx[x];
                assert(slf.nodes_branch@.contains_key(k));
                if exists|q: Seq<u8>| #[trigger] (leaf_keys@.dom() + slf.nodes_branch@.dom()).contains(q) && is_prefix_of(k.push(i), q) {
                    let q = choose|q: Seq<u8>| #[trigger] (leaf_keys@.dom() + slf.nodes_branch@.dom()).contains(q) && is_prefix_of(k.push(i), q);
                    if leaf_keys@.contains_key(q) {
                        assert(marked_nodes@.contains_key(q));
                    } else {
                        assert(slf.nodes_branch@.contains_key(q));
                        assert(marked_nodes@.contains_key(q));
                    }
                    assert(has_key_with_prefix(marked_nodes@, k.push(i)));
                }
                assert(hashed_child_of(*get_child_node_fragment_and_hash, leaf_keys@.dom() + slf.nodes_branch@.dom(), k, i, x));
            }
            assert forall|k: Seq<u8>| #[trigger] slf.nodes_branch@.contains_key(k) implies exists|o: Seq<u8>|
                #[trigger] parent_of_proof_node(*get_node, leaf_keys@, slf.nodes_branch@, o, k) by {
                assert(parent_of_proof_node(*get_node, leaf_keys@, slf.nodes_branch@, origin[k], k));
            }
            assert forall|k: Seq<u8>| #[trigger] slf.nodes_branch@.contains_key(k) implies exists|pk: Seq<u8>|
                #[trigger] answered_branch_parent(*get_node, k, pk) && (slf.nodes_branch@.contains_key(pk)
                    || leaf_keys@.contains_key(pk)) by {
                assert(marked_nodes@.contains_key(bparents[k]));
                assert(answered_branch_parent(*get_node, k, bparents[k]));
            }
            assert(marked_nodes@.dom().subset_of(leaf_keys@.dom() + slf.nodes_branch@.dom()));
            lemma_children_accounted_grows(
                *get_child_node_fragment_and_hash,
                marked_nodes@.dom(),
                leaf_keys@.dom() + slf.nodes_branch@.dom(),
                slf.nodes_hashed@,
                slf.nodes_hashed@,
                slf.nodes_branch@,
            );
        }
        Ok(slf)
    }

    /// Verifies that the iterated keys cover every child of the branch
    /// whose full key is `branch_full_prefix`: each child index must start
    /// some iterated key, and each iterated key must continue the full key
    /// with one of the child indices. Fails with `InvalidProof` otherwise.
    pub fn verify_all_branch_children_iterated(
        &self,
        branch_full_prefix: &[Nibble],
        branch_node: &NibblePatriciaTrieNodeBranch,
        iterated_keys: &SortedMap<()>,
    ) -> (r: Result<(), NibblePatriciaTrieError>)
        requires
            iterated_keys.wf(),
        ensures
            r is Ok <==> children_all_iterated(branch_full_prefix@, branch_node.child_key_indices@, iterated_keys@),
            r matches Err(e) ==> e is InvalidProof,
    {
        let mut j: usize = 0;
        while j < branch_node.child_key_indices.len()
            invariant
                j <= branch_node.child_key_indices@.len(),
                iterated_keys.wf(),
                forall|t: int| 0 <= t < j ==> has_key_with_prefix(iterated_keys@, branch_full_prefix@.push(#[trigger] branch_node.child_key_indices@[t])),
            decreases branch_node.child_key_indices@.len() - j,
        {
            let mut child_prefix = copy_bytes(branch_full_prefix);
            child_prefix.push(branch_node.child_key_indices[j]);
            if !any_has_prefix(iterated_keys, child_prefix.as_slice()) {
                assert(child_prefix@ == branch_full_prefix@.push(branch_node.child_key_indices@[j as int]));
                assert(!has_key_with_prefix(iterated_keys@, branch_full_prefix@.push(branch_node.child_key_indices@[j as int])));
                assert(!children_all_iterated(branch_full_prefix@, branch_node.child_key_indices@, iterated_keys@));
                return Err(NibblePatriciaTrieError::InvalidProof);
            }
            j += 1;
        }
        let mut i: usize = 0;
        while i < iterated_keys.entries.len()
            invariant
                i <= iterated_keys.size(),
                iterated_keys.wf(),
                forall|t: int|
                    0 <= t < i ==> is_prefix_of(branch_full_prefix@, #[trigger] iterated_keys.key_at(t)) && iterated_keys.key_at(t).len()
                        > branch_full_prefix@.len() && branch_node.child_key_indices@.contains(iterated_keys.key_at(t)[branch_full_prefix@.len() as int]),
            decreases iterated_keys.size() - i,
        {
            let key = &iterated_keys.entries[i].0;
            proof {
                iterated_keys.lemma_index_of(i as int);
            }
            let ghost k = iterated_keys.key_at(i as int);
            assert(iterated_keys@.contains_key(k));
            if !has_prefix(key.as_slice(), branch_full_prefix) {
                assert(key@ == k);
                assert(!is_prefix_of(branch_full_prefix@, k));
                assert(iterated_keys@.contains_key(k));
                assert(!children_all_iterated(branch_full_prefix@, branch_node.child_key_indices@, iterated_keys@));
                return Err(NibblePatriciaTrieError::InvalidProof);
            }
            if key.len() <= branch_full_prefix.len() {
                assert(!children_all_iterated(branch_full_prefix@, branch_node.child_key_indices@, iterated_keys@));
                return Err(NibblePatriciaTrieError::InvalidProof);
            }
            if !branch_node.has_child(key[branch_full_prefix.len()]) {
                assert(!children_all_iterated(branch_full_prefix@, branch_node.child_key_indices@, iterated_keys@));
                return Err(NibblePatriciaTrieError::InvalidProof);
            }
            i += 1;
        }
        assert forall|k: Seq<u8>| #[trigger] iterated_keys@.contains_key(k) implies is_prefix_of(branch_full_prefix@, k) && k.len()
            > branch_full_prefix@.len() && branch_node.child_key_indices@.contains(k[branch_full_prefix@.len() as int]) by {
            let t = iterated_keys.index_of(k);
        }
        Ok(())
    }

    /// Verifies that `iterated_keys` is the complete result of iterating
    /// over `key_prefix`, as far as this proof shows: see
    /// `iter_complete_spec`. Fails with `InvalidProof` otherwise.
    pub fn verify_iter_completeness(&self, key_prefix: &[Nibble], iterated_keys: &SortedMap<()>) -> (r: Result<
        (),
        NibblePatriciaTrieError,
    >)
        requires
            self.wf(),
            iterated_keys.wf(),
        ensures
            r is Ok <==> iter_complete_spec(self.nodes_branch@, self.nodes_hashed@, key_prefix@, iterated_keys@),
            r matches Err(e) ==> e is InvalidProof,
    {
        if !all_have_prefix(iterated_keys, key_prefix) {
            return Err(NibblePatriciaTrieError::InvalidProof);
        }
        let mut i: usize = 0;
        while i < iterated_keys.entries.len()
            invariant
                self.wf(),
                iterated_keys.wf(),
                i <= iterated_keys.size(),
                forall|t: int| 0 <= t < i ==> admitted(self.nodes_branch@, #[trigger] iterated_keys.key_at(t)),
            decreases iterated_keys.size() - i,
        {
            let key = iterated_keys.entries[i].0.as_slice();
            let on_path = self.leaf_key_fragment_from_path(key).is_ok();
            let excluded = self.verify_non_inclusion(key).is_ok();
            if !on_path || excluded {
                proof {
                    iterated_keys.lemma_index_of(i as int);
                }
                return Err(NibblePatriciaTrieError::InvalidProof);
            }
            i += 1;
        }
        assert forall|x: Seq<u8>| #[trigger] iterated_keys@.contains_key(x) implies admitted(self.nodes_branch@, x) by {
            let t = iterated_keys.index_of(x);
        }
        let branches = &self.nodes_branch;
        let mut j: usize = 0;
        while j < branches.entries.len()
            invariant
                self.wf(),
                iterated_keys.wf(),
                branches == &self.nodes_branch,
                j <= branches.size(),
                forall|t: int, c: u8|
                    0 <= t < j && is_prefix_of(key_prefix@, #[trigger] branches.key_at(t))
                        && #[trigger] branches.value_at(t).child_key_indices@.contains(c) ==> leads_to_branch(
                        branches@,
                        branches.key_at(t).push(c),
                    ) || has_key_with_prefix(iterated_keys@, branches.key_at(t).push(c)),
            decreases branches.size() - j,
        {
            let key = &branches.entries[j].0;
            let branch = &branches.entries[j].1;
            if has_prefix(key.as_slice(), key_prefix) {
                let mut n: usize = 0;
                while n < branch.child_key_indices.len()
                    invariant
                        self.wf(),
                        iterated_keys.wf(),
                        branches == &self.nodes_branch,
                        j < branches.size(),
                        *key == branches.entries@[j as int].0,
                        *branch == branches.entries@[j as int].1,
                        is_prefix_of(key_prefix@, key@),
                        n <= branch.child_key_indices@.len(),
                        forall|u: int|
                            0 <= u < n ==> leads_to_branch(branches@, key@.push(#[trigger] branch.child_key_indices@[u]))
                                || has_key_with_prefix(iterated_keys@, key@.push(branch.child_key_indices@[u])),
                    decreases branch.child_key_indices@.len() - n,
                {
                    let mut child = copy_bytes(key.as_slice());
                    child.push(branch.child_key_indices[n]);
                    if !any_has_prefix(branches, child.as_slice()) && !any_has_prefix(iterated_keys, child.as_slice()) {
                        proof {
                            branches.lemma_index_of(j as int);
                            let c = branch.child_key_indices@[n as int];
                            assert(child@ == key@.push(c));
                            assert(branches@.contains_key(key@));
                            assert(branches@[key@] == *branch);
                            assert(branch.child_key_indices@[n as int] == c);
                            assert(branches@[key@].child_key_indices@.contains(c));
                            assert(!leads_to_branch(branches@, key@.push(c)));
                            assert(!has_key_with_prefix(iterated_keys@, key@.push(c)));
                            assert(is_prefix_of(key_prefix@, key@));
                        }
                        return Err(NibblePatriciaTrieError::InvalidProof);
                    }
                    proof {
                        assert(child@ == key@.push(branch.child_key_indices@[n as int]));
                    }
                    n += 1;
                }
                assert forall|c: u8| #[trigger] branch.child_key_indices@.contains(c) implies leads_to_branch(
                    branches@,
                    key@.push(c),
                ) || has_key_with_prefix(iterated_keys@, key@.push(c)) by {
                    let u = choose|u: int| 0 <= u < branch.child_key_indices@.len() && branch.child_key_indices@[u] == c;
                }
            }
            j += 1;
        }
        assert forall|k: Seq<u8>, c: u8|
            #[trigger] branches@.contains_key(k) && is_prefix_of(key_prefix@, k) && #[trigger] branches@[k].child_key_indices@.contains(c)
            implies leads_to_branch(branches@, k.push(c)) || has_key_with_prefix(iterated_keys@, k.push(c)) by {
            let t = branches.index_of(k);
            assert(branches.has_key(k));
            assert(0 <= t < branches.size() && branches.key_at(t) == k);
            branches.lemma_index_of(t);
            assert(branches.value_at(t) == branches@[k]);
            assert(branches.value_at(t).child_key_indices@.contains(c));
        }
        if !self.above_prefix_check(key_prefix, iterated_keys) {
            return Err(NibblePatriciaTrieError::InvalidProof);
        }
        Ok(())
    }

    /// Whether every branch of this proof strictly above `key_prefix` that
    /// has a child on the prefix's path has that child accounted for: see
    /// `above_prefix_covered`.
    fn above_prefix_check(&self, key_prefix: &[Nibble], iterated_keys: &SortedMap<()>) -> (r: bool)
        requires
            self.wf(),
            iterated_keys.wf(),
        ensures
            r == above_prefix_covered(self.nodes_branch@, self.nodes_hashed@, key_prefix@, iterated_keys@),
    {
        let branches = &self.nodes_branch;
        let mut j: usize = 0;
        while j < branches.entries.len()
            invariant
                self.wf(),
                iterated_keys.wf(),
                branches == &self.nodes_branch,
                j <= branches.size(),
                forall|t: int|
                    0 <= t < j && is_prefix_of(#[trigger] branches.key_at(t), key_prefix@) && branches.key_at(t).len()
                        < key_prefix@.len() && branches.value_at(t).child_key_indices@.contains(
                        key_prefix@[branches.key_at(t).len() as int],
                    ) ==> path_child_covered(
                        branches@,
                        self.nodes_hashed@,
                        key_prefix@,
                        iterated_keys@,
                        key_prefix@.take(branches.key_at(t).len() + 1int),
                    ),
            decreases branches.size() - j,
        {
            let key = &branches.entries[j].0;
            let branch = &branches.entries[j].1;
            if key.len() < key_prefix.len() && has_prefix(key_prefix, key.as_slice()) {
                let c = key_prefix[key.len()];
                if contains_byte(branch.child_key_indices.as_slice(), c) {
                    let child = copy_bytes(vstd::slice::slice_subrange(key_prefix, 0, key.len() + 1));
                    assert(child@ == key_prefix@.take(key@.len() + 1int));
                    if !any_has_prefix(branches, child.as_slice()) && !any_has_prefix(iterated_keys, child.as_slice())
                        && !hashed_outside(&self.nodes_hashed, child.as_slice(), key_prefix) {
                        proof {
                            branches.lemma_index_of(j as int);
                            let k = branches.key_at(j as int);
                            assert(branches@[k] == branches.value_at(j as int));
                            assert(!path_child_covered(branches@, self.nodes_hashed@, key_prefix@, iterated_keys@, child@));
                        }
                        return false;
                    }
                }
            }
            j += 1;
        }
        assert forall|k: Seq<u8>|
            #[trigger] branches@.contains_key(k) && is_prefix_of(k, key_prefix@) && k.len() < key_prefix@.len()
                && branches@[k].child_key_indices@.contains(key_prefix@[k.len() as int]) implies path_child_covered(
            branches@,
            self.nodes_hashed@,
            key_prefix@,
            iterated_keys@,
            key_prefix@.take(k.len() + 1int),
        ) by {
            let t = branches.index_of(k);
            assert(branches.has_key(k));
            assert(0 <= t < branches.size() && branches.key_at(t) == k);
            branches.lemma_index_of(t);
            assert(branches.value_at(t) == branches@[k]);
        }
        true
    }


    /// Computes the root hash of the trie from this proof and the leaves
    /// whose inclusion it proves (by full key): see `root_spec`. The
    /// callback, when given, sees every branch hash as it is computed.
    pub fn root<F: Fn(&Vec<Nibble>, &[u8; 32])>(
        &self,
        nodes_for_inclusion_proof: SortedMap<NibblePatriciaTrieNodeLeaf>,
        branch_hash_callback: Option<F>,
    ) -> (r: Result<[u8; 32], NibblePatriciaTrieError>)
        requires
            self.wf(),
            nodes_for_inclusion_proof.wf(),
            branch_hash_callback matches Some(f) ==> forall|k: &Vec<Nibble>, h: &[u8; 32]| #[trigger] f.requires((k, h)),
        ensures
            match (r, root_spec(self.nodes_branch, self.nodes_hashed, nodes_for_inclusion_proof)) {
                (Ok(h), Ok(s)) => h@ == s,
                (Err(e1), Err(e2)) => e1 == e2,
                _ => false,
            },
    {
        let leaves = nodes_for_inclusion_proof;
        let branches = &self.nodes_branch;
        let mut hashed = self.nodes_hashed.copy();
        let ghost h0 = hashed@;
        let ghost m0 = hashes_map_view(h0).union_prefer_right(leaf_hashes_view(leaves@));
        // the inclusion leaves join the hashed nodes
        let mut i: usize = 0;
        proof {
            if leaves.size() > 0 {
                leaves.lemma_prefix_map(0);
            } else {
                assert(leaves.prefix_map(0) =~= Map::<Seq<u8>, NibblePatriciaTrieNodeLeaf>::empty());
            }
            assert(hashes_map_view(h0).union_prefer_right(leaf_hashes_view(leaves.prefix_map(0))) =~= hashes_map_view(h0));
        }
        while i < leaves.entries.len()
            invariant
                i <= leaves.size(),
                leaves.wf(),
                hashed.wf(),
                hashes_map_view(hashed@) == hashes_map_view(h0).union_prefer_right(
                    leaf_hashes_view(leaves.prefix_map(i as int)),
                ),
            decreases leaves.size() - i,
        {
            let key = copy_bytes(leaves.entries[i].0.as_slice());
            let h = leaves.entries[i].1.hash();
            let ghost before = hashed@;
            hashed.insert(key, h);
            proof {
                leaves.lemma_prefix_map(i as int);
                assert(hashes_map_view(hashed@) =~= hashes_map_view(before).insert(leaves.key_at(i as int), h@));
                assert(leaf_hashes_view(leaves.prefix_map(i + 1)) =~= leaf_hashes_view(leaves.prefix_map(i as int)).insert(
                    leaves.key_at(i as int),
                    h@,
                ));
                assert(hashes_map_view(hashed@) =~= hashes_map_view(h0).union_prefer_right(
                    leaf_hashes_view(leaves.prefix_map(i + 1)),
                ));
            }
            i += 1;
        }
        proof {
            if leaves.size() > 0 {
                leaves.lemma_prefix_map(0);
            } else {
                assert(leaves.prefix_map(0) =~= leaves@);
            }
        }
        assert(hashes_map_view(hashed@) == m0);
        if branches.is_empty() {
            return Err(NibblePatriciaTrieError::EmptyProof);
        }
        let ghost entries = branches.entries@;
        let maxd = max_key_length(branches);
        let mut d: usize = maxd;
        assert(hash_levels(m0, entries, maxd as int, maxd + 1) == m0);
        loop
            invariant_except_break
                d <= maxd,
                hashes_map_view(hashed@) == hash_levels(m0, entries, maxd as int, d + 1),
            invariant
                hashed.wf(),
                branches.wf(),
                entries == branches.entries@,
                branch_hash_callback matches Some(f) ==> forall|k: &Vec<Nibble>, h: &[u8; 32]| #[trigger] f.requires((k, h)),
            ensures
                hashes_map_view(hashed@) == hash_levels(m0, entries, maxd as int, 0),
            decreases d,
        {
            let ghost start = hashes_map_view(hashed@);
            let mut i: usize = 0;
            assert(entries.take(0) =~= Seq::<(Vec<u8>, NibblePatriciaTrieNodeBranch)>::empty());
            while i < branches.entries.len()
                invariant
                    i <= entries.len(),
                    hashed.wf(),
                    branches.wf(),
                    entries == branches.entries@,
                    hashes_map_view(hashed@) == hash_depth(start, entries.take(i as int), d as int),
                    branch_hash_callback matches Some(f) ==> forall|k: &Vec<Nibble>, h: &[u8; 32]| #[trigger] f.requires((k, h)),
                decreases entries.len() - i,
            {
                assert(entries.take(i + 1).drop_last() =~= entries.take(i as int));
                assert(entries.take(i + 1).last() == entries[i as int]);
                let key = &branches.entries[i].0;
                let branch = &branches.entries[i].1;
                if key.len() == d {
                    let ghost mm = hashes_map_view(hashed@);
                    let mut hs: Vec<Option<[u8; 32]>> = Vec::new();
                    let mut j: usize = 0;
                    while j < branch.child_key_indices.len()
                        invariant
                            j <= branch.child_key_indices@.len(),
                            hashed.wf(),
                            mm == hashes_map_view(hashed@),
                            hs@.len() == j,
                            forall|t: int| 0 <= t < j ==> #[trigger] hashes_view(hs@)[t] == child_hashes_in(
                                mm,
                                key@,
                                branch.child_key_indices@,
                            )[t],
                        decreases branch.child_key_indices@.len() - j,
                    {
                        let mut prefix = copy_bytes(key.as_slice());
                        prefix.push(branch.child_key_indices[j]);
                        assert(prefix@ == key@.push(branch.child_key_indices@[j as int]));
                        let c = child_hash_in(&hashed, prefix.as_slice());
                        let ghost hs_before = hs@;
                        hs.push(c);
                        proof {
                            assert forall|t: int| 0 <= t < j + 1 implies #[trigger] hashes_view(hs@)[t] == child_hashes_in(
                                mm,
                                key@,
                                branch.child_key_indices@,
                            )[t] by {
                                if t < j {
                                    assert(hs@[t] == hs_before[t]);
                                    assert(hashes_view(hs_before)[t] == hashes_view(hs@)[t]);
                                } else {
                                    assert(hs@[t] == c);
                                }
                            }
                        }
                        j += 1;
                    }
                    assert(hashes_view(hs@) =~= child_hashes_in(mm, key@, branch.child_key_indices@));
                    let h = branch.hash_with_child_hashes(&hs);
                    match h {
                        Some(h) => {
                            match &branch_hash_callback {
                                Some(f) => {
                                    f(key, &h);
                                },
                                None => {},
                            }
                            let ghost before = hashed@;
                            hashed.insert(copy_bytes(key.as_slice()), h);
                            assert(hashes_map_view(hashed@) =~= mm.insert(key@, h@));
                        },
                        None => {},
                    }
                }
                i += 1;
            }
            assert(entries.take(i as int) =~= entries);
            if d == 0 {
                break;
            }
            d -= 1;
        }
        let ghost fin = hashed;
        proof {
            let r0: Option<usize> = if fin.size() > 0 { Some(0usize) } else { None };
            if fin.size() > 0 {
                lemma_empty_prefix(fin.key_at(0));
            }
            fin.lemma_first_with_prefix(Seq::<u8>::empty(), r0);
            assert(fin@.dom() =~= hashes_map_view(fin@).dom());
            lemma_least_key_same_keys(fin@, hashes_map_view(fin@), Seq::<u8>::empty());
        }
        match hashed.pop_first() {
            Some((_k, h)) => Ok(h),
            None => Err(NibblePatriciaTrieError::InvalidProof),
        }
    }
}

/// When the prefix of length `i` is a branch and no longer proper prefix is,
/// it is the deepest branch on the path.
pub proof fn lemma_deepest_on_path(branches: Map<Seq<u8>, NibblePatriciaTrieNodeBranch>, key: Seq<u8>, i: int)
    requires
        0 <= i < key.len(),
        branches.contains_key(key.take(i)),
        forall|k: int| i < k < key.len() ==> !branches.contains_key(#[trigger] key.take(k)),
    ensures
        deepest_branch_on_path(branches, key) == Some(i),
{
    lemma_deepest_from(branches, key, i, key.len() as int);
}

proof fn lemma_deepest_from(branches: Map<Seq<u8>, NibblePatriciaTrieNodeBranch>, key: Seq<u8>, i: int, n: int)
    requires
        0 <= i < n,
        branches.contains_key(key.take(i)),
        forall|k: int| i < k < n ==> !branches.contains_key(#[trigger] key.take(k)),
    ensures
        deepest_branch_prefix(branches, key, n) == Some(i),
    decreases n,
{
    if n - 1 > i {
        assert(!branches.contains_key(key.take(n - 1)));
        lemma_deepest_from(branches, key, i, n - 1);
    }
}

/// When no proper prefix of the key is a branch, there is no deepest branch
/// on the path.
pub proof fn lemma_no_branch_on_path(branches: Map<Seq<u8>, NibblePatriciaTrieNodeBranch>, key: Seq<u8>)
    requires
        forall|k: int| 0 <= k < key.len() ==> !branches.contains_key(#[trigger] key.take(k)),
    ensures
        deepest_branch_on_path(branches, key) is None,
{
    lemma_none_from(branches, key, key.len() as int);
}

proof fn lemma_none_from(branches: Map<Seq<u8>, NibblePatriciaTrieNodeBranch>, key: Seq<u8>, n: int)
    requires
        n <= key.len(),
        forall|k: int| 0 <= k < n ==> !branches.contains_key(#[trigger] key.take(k)),
    ensures
        deepest_branch_prefix(branches, key, n) is None,
    decreases n,
{
    if n > 0 {
        assert(!branches.contains_key(key.take(n - 1)));
        lemma_none_from(branches, key, n - 1);
    }
}

/// The search for a leaf's parent over the branches of a proof ends at the
/// deepest branch on the key's path.
proof fn lemma_search_over_branches<G>(
    branches: Map<Seq<u8>, NibblePatriciaTrieNodeBranch>,
    key: Seq<u8>,
    lookup: G,
    r: Result<Vec<Nibble>, NibblePatriciaTrieError>,
)
    where G: Fn(&[Nibble]) -> Result<Option<NibblePatriciaTrieNodeBranch>, NibblePatriciaTrieError>
    requires
        forall|s: &[Nibble], o: Result<Option<NibblePatriciaTrieNodeBranch>, NibblePatriciaTrieError>|
            #[trigger] lookup.ensures((s,), o) ==> o is Ok && (o.unwrap() is Some <==> branches.contains_key(s@)),
        exists|outs: Seq<Result<Option<NibblePatriciaTrieNodeBranch>, NibblePatriciaTrieError>>|
            #[trigger] search_outcome(key, outs, r) && forall|t: int|
                0 <= t < outs.len() ==> branch_lookup_answered(
                    lookup,
                    key.take(key.len() - 1 - t),
                    #[trigger] outs[t],
                ),
    ensures
        match deepest_branch_on_path(branches, key) {
            Some(j) => r matches Ok(p) && p@ == key.take(j),
            None => r matches Err(NibblePatriciaTrieError::Other(m)) && m@ == no_parent_message(),
        },
{
    let outs = choose|outs: Seq<Result<Option<NibblePatriciaTrieNodeBranch>, NibblePatriciaTrieError>>|
        #[trigger] search_outcome(key, outs, r) && forall|t: int|
            0 <= t < outs.len() ==> branch_lookup_answered(
                lookup,
                key.take(key.len() - 1 - t),
                #[trigger] outs[t],
            );
    // each answer tells whether its prefix is a branch
    assert forall|t: int| 0 <= t < outs.len() implies (#[trigger] outs[t] matches Ok(b) && (b is Some
        <==> branches.contains_key(key.take(key.len() - 1 - t)))) by {
        assert(branch_lookup_answered(lookup, key.take(key.len() - 1 - t), outs[t]));
        let s = choose|s: &[Nibble]| s@ == key.take(key.len() - 1 - t) && #[trigger] lookup.ensures((s,), outs[t]);
    }
    assert forall|k: int| key.len() - outs.len() < k < key.len() implies !branches.contains_key(
        #[trigger] key.take(k),
    ) by {
        let t = key.len() - 1 - k;
        assert(outs[t] == no_branch());
    }
    match r {
        Ok(p) => {
            let j = key.len() - outs.len();
            let t = outs.len() - 1;
            assert(outs[t] matches Ok(Some(_)));
            lemma_deepest_on_path(branches, key, j);
        },
        Err(e) => {
            if outs.len() > 0 && outs.last() == Err::<Option<NibblePatriciaTrieNodeBranch>, NibblePatriciaTrieError>(e) {
                assert(outs[outs.len() - 1] matches Ok(_));
            } else {
                if outs.len() > 0 {
                    assert(outs[outs.len() - 1] == no_branch());
                }
                assert forall|k: int| 0 <= k < key.len() implies !branches.contains_key(#[trigger] key.take(k)) by {
                    let t = key.len() - 1 - k;
                    assert(outs[t] == no_branch());
                }
                lemma_no_branch_on_path(branches, key);
            }
        },
    }
}

/// The key fragment that a proof gives a leaf is not empty, and appended to
/// the key of the deepest branch of the proof above the leaf it gives back
/// the leaf's key.
pub proof fn law_fragment_completes_key(branches: Map<Seq<u8>, NibblePatriciaTrieNodeBranch>, key: Seq<u8>)
    ensures
        deepest_branch_on_path(branches, key) matches Some(j) ==> branches.contains_key(key.take(j))
            && key.skip(j).len() > 0 && key.take(j) + key.skip(j) == key,
{
    lemma_deepest_branch_prefix(branches, key, key.len() as int);
    if let Some(j) = deepest_branch_on_path(branches, key) {
        assert(key.take(j) + key.skip(j) =~= key);
    }
}

} // verus!
