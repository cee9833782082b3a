use vstd::prelude::*;

use super::error::NibblePatriciaTrieError;
use super::key::{answered_branch, answered_child};
use super::nibble::Nibble;
use super::node::{
    branch_hash_spec, leaf_hash_spec, NibblePatriciaTrieNode, NibblePatriciaTrieNodeBranch, NibblePatriciaTrieNodeLeaf,
};
use super::root_path::{
    admitted, deepest_branch_on_path, iter_complete_spec, non_inclusion_shown, leads_to_branch, lemma_deepest_branch_prefix, path_child_covered,
    answered_branch_parent, answered_leaf_parent, built_from_leafs, child_accounted, child_hashes_in, hash_branch_into, hash_depth,
    hash_levels, hashes_map_view, leaf_hashes_view, max_key_len, root_spec,
    NibblePatriciaTrieRootPath,
};
use crate::utils::sorted_map::{
    first_value_with_prefix, has_key_with_prefix, is_least_key_with_prefix, is_prefix_of, lemma_empty_prefix, lemma_least_key_unique, lex_lt,
    SortedMap,
};

verus! {

/// Two nodes of the same kind with the same fragment and the same value or
/// children.
pub open spec fn same_node(a: NibblePatriciaTrieNode, b: NibblePatriciaTrieNode) -> bool {
    match (a, b) {
        (NibblePatriciaTrieNode::Leaf(x), NibblePatriciaTrieNode::Leaf(y)) => x.key_fragment@ == y.key_fragment@
            && x.value@ == y.value@,
        (NibblePatriciaTrieNode::Branch(x), NibblePatriciaTrieNode::Branch(y)) => x.key_fragment@ == y.key_fragment@
            && x.child_key_indices@ == y.child_key_indices@,
        _ => false,
    }
}

/// The key fragment of a node.
pub open spec fn node_fragment(n: NibblePatriciaTrieNode) -> Seq<u8> {
    match n {
        NibblePatriciaTrieNode::Leaf(l) => l.key_fragment@,
        NibblePatriciaTrieNode::Branch(b) => b.key_fragment@,
    }
}

/// The child indices of a node (none for a leaf).
pub open spec fn node_children(n: NibblePatriciaTrieNode) -> Seq<u8> {
    match n {
        NibblePatriciaTrieNode::Leaf(_) => Seq::empty(),
        NibblePatriciaTrieNode::Branch(b) => b.child_key_indices@,
    }
}

/// `ck` is the key of the child at index `c` of the node at `k` in the trie
/// `t`: a node whose key starts with `k` and `c`, and that every node under
/// `k` and `c` lies under.
pub open spec fn is_trie_child(t: Map<Seq<u8>, NibblePatriciaTrieNode>, k: Seq<u8>, c: u8, ck: Seq<u8>) -> bool {
    &&& t.contains_key(ck)
    &&& is_prefix_of(k.push(c), ck)
    &&& forall|y: Seq<u8>| #[trigger] t.contains_key(y) && is_prefix_of(k.push(c), y) ==> is_prefix_of(ck, y)
}

/// The key of the child at index `c` of the node at `k`.
pub open spec fn trie_child(t: Map<Seq<u8>, NibblePatriciaTrieNode>, k: Seq<u8>, c: u8) -> Seq<u8> {
    choose|ck: Seq<u8>| is_trie_child(t, k, c, ck)
}

/// The key of the parent of the node at `y`: its key without its fragment.
pub open spec fn trie_parent(t: Map<Seq<u8>, NibblePatriciaTrieNode>, y: Seq<u8>) -> Seq<u8> {
    y.take(y.len() - node_fragment(t[y]).len())
}

/// The hashes of the children of the branch at `k`, by its child indices.
pub open spec fn trie_child_hashes(
    t: Map<Seq<u8>, NibblePatriciaTrieNode>,
    th: Map<Seq<u8>, Seq<u8>>,
    k: Seq<u8>,
) -> Seq<Option<Seq<u8>>> {
    Seq::new(node_children(t[k]).len(), |j: int| Some(th[trie_child(t, k, node_children(t[k])[j])]))
}

/// A nibble Patricia trie `t` (its nodes by full key) with the hashes `th`
/// of its nodes: the root is a branch at the empty key; each node's
/// fragment ends its key, and is not empty but at the root; the parent of
/// each node is a node that has a child at the node's next nibble, and no
/// node lies strictly between a node and its parent; nodes with nodes under them are branches; every child index of a
/// branch leads to a child; and each hash is the node's hash, a leaf's from
/// its fragment and value, a branch's from its fragment and the hashes of
/// its children.
pub open spec fn trie_wf(t: Map<Seq<u8>, NibblePatriciaTrieNode>, th: Map<Seq<u8>, Seq<u8>>) -> bool {
    &&& t.contains_key(Seq::empty()) && t[Seq::empty()] is Branch
    &&& forall|y: Seq<u8>|
        #[trigger] t.contains_key(y) ==> th.contains_key(y) && node_fragment(t[y]).len() <= y.len() && (y.len() > 0
            ==> node_fragment(t[y]).len() > 0)
    &&& forall|y: Seq<u8>|
        t.contains_key(y) && y.len() > 0 ==> t.contains_key(#[trigger] trie_parent(t, y)) && node_children(
            t[trie_parent(t, y)],
        ).contains(y[trie_parent(t, y).len() as int])
    &&& forall|x: Seq<u8>, y: Seq<u8>|
        #[trigger] t.contains_key(x) && #[trigger] t.contains_key(y) && is_prefix_of(x, y) && x.len() < y.len() ==> x.len()
            <= trie_parent(t, y).len() && t[x] is Branch
    &&& forall|y: Seq<u8>|
        #[trigger] t.contains_key(y) && t[y] is Leaf ==> th[y] == leaf_hash_spec(
            node_fragment(t[y]),
            t[y]->Leaf_0.value@,
        )
    &&& forall|k: Seq<u8>, j: int|
        #[trigger] t.contains_key(k) && 0 <= j < node_children(t[k]).len() ==> exists|ck: Seq<u8>|
            is_trie_child(t, k, #[trigger] node_children(t[k])[j], ck)
    &&& forall|k: Seq<u8>|
        #[trigger] t.contains_key(k) && t[k] is Branch ==> branch_hash_spec(
            node_fragment(t[k]),
            node_children(t[k]),
            trie_child_hashes(t, th, k),
        ) == Some(th[k])
}

/// `g` answers for each key the node of `t` there.
pub open spec fn reads_nodes<G: Fn(&[Nibble]) -> Result<NibblePatriciaTrieNode, NibblePatriciaTrieError>>(
    g: G,
    t: Map<Seq<u8>, NibblePatriciaTrieNode>,
) -> bool {
    forall|s: &[Nibble], n: NibblePatriciaTrieNode|
        #[trigger] g.ensures((s,), Ok(n)) ==> t.contains_key(s@) && same_node(n, t[s@])
}

/// `h` answers for a child index of a branch of `t` the rest of the child's
/// key and the child's hash.
pub open spec fn reads_children<H: Fn(&[Nibble], Nibble) -> Result<(Vec<Nibble>, [u8; 32]), NibblePatriciaTrieError>>(
    h: H,
    t: Map<Seq<u8>, NibblePatriciaTrieNode>,
    th: Map<Seq<u8>, Seq<u8>>,
) -> bool {
    forall|s: &[Nibble], i: Nibble, f: Vec<Nibble>, hh: [u8; 32]|
        #[trigger] h.ensures((s, i), Ok::<(Vec<Nibble>, [u8; 32]), NibblePatriciaTrieError>((f, hh))) ==> t.contains_key(
            s@,
        ) && node_children(t[s@]).contains(i) && is_trie_child(t, s@, i, s@ + f@) && hh@ == th[s@ + f@]
}

/// A proper prefix sorts before the sequence it starts.
proof fn lemma_prefix_sorts_first(a: Seq<u8>, b: Seq<u8>)
    requires
        is_prefix_of(a, b),
    ensures
        a == b || lex_lt(a, b),
    decreases a.len(),
{
    if a.len() == 0 {
        if b.len() == 0 {
            assert(a =~= b);
        }
    } else {
        assert(b.take(a.len() as int)[0] == b[0]);
        assert(a[0] == b[0]);
        assert(b.drop_first().take(a.drop_first().len() as int) =~= a.drop_first()) by {
            assert forall|i: int| 0 <= i < a.drop_first().len() implies b.drop_first().take(
                a.drop_first().len() as int,
            )[i] == a.drop_first()[i] by {
                assert(b.take(a.len() as int)[i + 1] == a[i + 1]);
            }
        }
        lemma_prefix_sorts_first(a.drop_first(), b.drop_first());
        if a.drop_first() == b.drop_first() {
            assert(a =~= b);
        }
    }
}

/// When `c` is in `m` and lies under `p`, and every key of `m` under `p`
/// lies under `c`, the value under the least key of `m` under `p` is `m[c]`.
proof fn lemma_first_value_at_top<V>(m: Map<Seq<u8>, V>, p: Seq<u8>, c: Seq<u8>)
    requires
        m.contains_key(c),
        is_prefix_of(p, c),
        forall|k: Seq<u8>| #[trigger] m.contains_key(k) && is_prefix_of(p, k) ==> is_prefix_of(c, k),
    ensures
        first_value_with_prefix(m, p) == Some(m[c]),
{
    assert forall|k2: Seq<u8>| #[trigger] m.contains_key(k2) && is_prefix_of(p, k2) implies k2 == c || lex_lt(c, k2) by {
        lemma_prefix_sorts_first(c, k2);
    }
    assert(is_least_key_with_prefix(m, p, c));
    lemma_least_key_unique(m, p, c);
}

/// Two prefixes of one sequence: the shorter is a prefix of the longer.
proof fn lemma_prefix_of_prefix(a: Seq<u8>, b: Seq<u8>, y: Seq<u8>)
    requires
        is_prefix_of(a, y),
        is_prefix_of(b, y),
        a.len() <= b.len(),
    ensures
        is_prefix_of(a, b),
{
    assert(b.take(a.len() as int) =~= a) by {
        assert forall|i: int| 0 <= i < a.len() implies b.take(a.len() as int)[i] == a[i] by {
            assert(y.take(b.len() as int)[i] == b[i]);
            assert(y.take(a.len() as int)[i] == a[i]);
        }
    }
}

/// A proof built by `from_leafs` for the leaf keys `lk` of the trie `t`
/// with hashes `th`, with lookups that read that trie.
pub open spec fn proof_of_trie<
    G: Fn(&[Nibble]) -> Result<NibblePatriciaTrieNode, NibblePatriciaTrieError>,
    H: Fn(&[Nibble], Nibble) -> Result<(Vec<Nibble>, [u8; 32]), NibblePatriciaTrieError>,
>(
    t: Map<Seq<u8>, NibblePatriciaTrieNode>,
    th: Map<Seq<u8>, Seq<u8>>,
    g: G,
    h: H,
    lk: Map<Seq<u8>, ()>,
    p: NibblePatriciaTrieRootPath,
) -> bool {
    &&& trie_wf(t, th)
    &&& reads_nodes(g, t)
    &&& reads_children(h, t, th)
    &&& forall|l: Seq<u8>| #[trigger] lk.contains_key(l) ==> t.contains_key(l) && t[l] is Leaf
    &&& built_from_leafs(g, h, lk, p)
}

/// Each branch of the proof is the trie's branch at its key.
proof fn lemma_proof_branch_in_trie<G, H>(
    t: Map<Seq<u8>, NibblePatriciaTrieNode>,
    th: Map<Seq<u8>, Seq<u8>>,
    g: G,
    h: H,
    lk: Map<Seq<u8>, ()>,
    p: NibblePatriciaTrieRootPath,
    k: Seq<u8>,
) where
    G: Fn(&[Nibble]) -> Result<NibblePatriciaTrieNode, NibblePatriciaTrieError>,
    H: Fn(&[Nibble], Nibble) -> Result<(Vec<Nibble>, [u8; 32]), NibblePatriciaTrieError>,

    requires
        proof_of_trie(t, th, g, h, lk, p),
        p.nodes_branch@.contains_key(k),
    ensures
        t.contains_key(k),
        t[k] is Branch,
        node_fragment(t[k]) == p.nodes_branch@[k].key_fragment@,
        node_children(t[k]) == p.nodes_branch@[k].child_key_indices@,
{
    reveal(proof_of_trie);
    let b = p.nodes_branch@[k];
    assert(answered_branch(g, k, b));
    let (s, b0) = choose|s: &[Nibble], b0: NibblePatriciaTrieNodeBranch|
        s@ == k && #[trigger] g.ensures((s,), Ok(NibblePatriciaTrieNode::Branch(b0))) && b0.key_fragment@
            == b.key_fragment@ && b0.child_key_indices@ == b.child_key_indices@;
    assert(same_node(NibblePatriciaTrieNode::Branch(b0), t[k]));
}

/// The parent of a leaf key or of a branch of the proof is a leaf key or a
/// branch of the proof.
proof fn lemma_parent_in_proof<G, H>(
    t: Map<Seq<u8>, NibblePatriciaTrieNode>,
    th: Map<Seq<u8>, Seq<u8>>,
    g: G,
    h: H,
    lk: Map<Seq<u8>, ()>,
    p: NibblePatriciaTrieRootPath,
    q: Seq<u8>,
) where
    G: Fn(&[Nibble]) -> Result<NibblePatriciaTrieNode, NibblePatriciaTrieError>,
    H: Fn(&[Nibble], Nibble) -> Result<(Vec<Nibble>, [u8; 32]), NibblePatriciaTrieError>,

    requires
        proof_of_trie(t, th, g, h, lk, p),
        lk.contains_key(q) || p.nodes_branch@.contains_key(q),
    ensures
        t.contains_key(q),
        lk.contains_key(trie_parent(t, q)) || p.nodes_branch@.contains_key(trie_parent(t, q)),
{
    reveal(proof_of_trie);
    if lk.contains_key(q) {
        let pk = choose|pk: Seq<u8>|
            #[trigger] answered_leaf_parent(g, q, pk) && (p.nodes_branch@.contains_key(pk) || lk.contains_key(pk));
        let (s, l) = choose|s: &[Nibble], l: NibblePatriciaTrieNodeLeaf|
            s@ == q && #[trigger] g.ensures((s,), Ok(NibblePatriciaTrieNode::Leaf(l))) && pk == q.take(
                q.len() - l.key_fragment@.len(),
            );
        assert(same_node(NibblePatriciaTrieNode::Leaf(l), t[q]));
    } else {
        lemma_proof_branch_in_trie(t, th, g, h, lk, p, q);
        let pk = choose|pk: Seq<u8>|
            #[trigger] answered_branch_parent(g, q, pk) && (p.nodes_branch@.contains_key(pk) || lk.contains_key(pk));
        let (s, b) = choose|s: &[Nibble], b: NibblePatriciaTrieNodeBranch|
            s@ == q && #[trigger] g.ensures((s,), Ok(NibblePatriciaTrieNode::Branch(b))) && pk == q.take(
                q.len() - b.key_fragment@.len(),
            );
        assert(same_node(NibblePatriciaTrieNode::Branch(b), t[q]));
    }
}

/// Every node of the trie on the path to a leaf key or to a branch of the
/// proof is a leaf key or a branch of the proof.
proof fn lemma_path_in_proof<G, H>(
    t: Map<Seq<u8>, NibblePatriciaTrieNode>,
    th: Map<Seq<u8>, Seq<u8>>,
    g: G,
    h: H,
    lk: Map<Seq<u8>, ()>,
    p: NibblePatriciaTrieRootPath,
    q: Seq<u8>,
    x: Seq<u8>,
) where
    G: Fn(&[Nibble]) -> Result<NibblePatriciaTrieNode, NibblePatriciaTrieError>,
    H: Fn(&[Nibble], Nibble) -> Result<(Vec<Nibble>, [u8; 32]), NibblePatriciaTrieError>,

    requires
        proof_of_trie(t, th, g, h, lk, p),
        lk.contains_key(q) || p.nodes_branch@.contains_key(q),
        t.contains_key(x),
        is_prefix_of(x, q),
    ensures
        lk.contains_key(x) || p.nodes_branch@.contains_key(x),
    decreases q.len(),
{
    reveal(proof_of_trie);
    lemma_parent_in_proof(t, th, g, h, lk, p, q);
    if x.len() == q.len() {
        assert(x =~= q);
    } else {
        let pq = trie_parent(t, q);
        assert(t.contains_key(q));
        assert(x.len() <= pq.len());
        assert(is_prefix_of(pq, q)) by {
            assert(q.take(pq.len() as int) =~= pq);
        }
        lemma_prefix_of_prefix(x, pq, q);
        lemma_path_in_proof(t, th, g, h, lk, p, pq, x);
    }
}

/// A node has at most one child at each index.
proof fn lemma_trie_child_unique(t: Map<Seq<u8>, NibblePatriciaTrieNode>, k: Seq<u8>, c: u8, a: Seq<u8>, b: Seq<u8>)
    requires
        is_trie_child(t, k, c, a),
        is_trie_child(t, k, c, b),
    ensures
        a == b,
{
    assert(is_prefix_of(a, b));
    assert(is_prefix_of(b, a));
    assert(a =~= b);
}

/// The child at each index of a branch of the proof is a leaf key, a branch
/// of the proof, or has its hash in the proof.
proof fn lemma_child_in_proof<G, H>(
    t: Map<Seq<u8>, NibblePatriciaTrieNode>,
    th: Map<Seq<u8>, Seq<u8>>,
    g: G,
    h: H,
    lk: Map<Seq<u8>, ()>,
    p: NibblePatriciaTrieRootPath,
    k: Seq<u8>,
    j: int,
) where
    G: Fn(&[Nibble]) -> Result<NibblePatriciaTrieNode, NibblePatriciaTrieError>,
    H: Fn(&[Nibble], Nibble) -> Result<(Vec<Nibble>, [u8; 32]), NibblePatriciaTrieError>,

    requires
        proof_of_trie(t, th, g, h, lk, p),
        p.nodes_branch@.contains_key(k),
        0 <= j < p.nodes_branch@[k].child_key_indices@.len(),
    ensures
        is_trie_child(t, k, p.nodes_branch@[k].child_key_indices@[j], trie_child(t, k, p.nodes_branch@[k].child_key_indices@[j])),
        ({
            let ck = trie_child(t, k, p.nodes_branch@[k].child_key_indices@[j]);
            lk.contains_key(ck) || p.nodes_branch@.contains_key(ck) || p.nodes_hashed@.contains_key(ck)
        }),
{
    reveal(proof_of_trie);
    lemma_proof_branch_in_trie(t, th, g, h, lk, p, k);
    let c = p.nodes_branch@[k].child_key_indices@[j];
    assert(node_children(t[k])[j] == c);
    assert(exists|ck: Seq<u8>| is_trie_child(t, k, node_children(t[k])[j], ck));
    let ck = trie_child(t, k, c);
    let keys = lk.dom() + p.nodes_branch@.dom();
    assert(child_accounted(h, keys, p.nodes_hashed@, k, p.nodes_branch@[k].child_key_indices@[j]));
    if exists|q: Seq<u8>| #[trigger] keys.contains(q) && is_prefix_of(k.push(c), q) {
        let q = choose|q: Seq<u8>| #[trigger] keys.contains(q) && is_prefix_of(k.push(c), q);
        if lk.contains_key(q) {
        } else {
            lemma_proof_branch_in_trie(t, th, g, h, lk, p, q);
        }
        assert(t.contains_key(q));
        assert(is_prefix_of(ck, q));
        lemma_path_in_proof(t, th, g, h, lk, p, q, ck);
    } else {
        let (s, f, hh) = choose|s: &[Nibble], f: Vec<Nibble>, hh: [u8; 32]|
            s@ == k && #[trigger] h.ensures((s, c), Ok::<(Vec<Nibble>, [u8; 32]), NibblePatriciaTrieError>((f, hh)))
                && p.nodes_hashed@.contains_key(k + f@);
        assert(is_trie_child(t, k, c, k + f@));
        lemma_trie_child_unique(t, k, c, ck, k + f@);
    }
}

/// Every hash of the proof is the trie's hash of the node at its key.
proof fn lemma_hashed_in_trie<G, H>(
    t: Map<Seq<u8>, NibblePatriciaTrieNode>,
    th: Map<Seq<u8>, Seq<u8>>,
    g: G,
    h: H,
    lk: Map<Seq<u8>, ()>,
    p: NibblePatriciaTrieRootPath,
    x: Seq<u8>,
) where
    G: Fn(&[Nibble]) -> Result<NibblePatriciaTrieNode, NibblePatriciaTrieError>,
    H: Fn(&[Nibble], Nibble) -> Result<(Vec<Nibble>, [u8; 32]), NibblePatriciaTrieError>,

    requires
        proof_of_trie(t, th, g, h, lk, p),
        p.nodes_hashed@.contains_key(x),
    ensures
        t.contains_key(x),
        p.nodes_hashed@[x]@ == th[x],
{
    reveal(proof_of_trie);
    assert(answered_child(h, x, p.nodes_hashed@[x]));
    let (s, idx, out) = choose|s: &[Nibble], idx: Nibble, out: Result<(Vec<Nibble>, [u8; 32]), NibblePatriciaTrieError>|
        #[trigger] h.ensures((s, idx), out) && (out matches Ok((f, hh)) && hh == p.nodes_hashed@[x] && x == s@ + f@);
    let (f, hh) = out->Ok_0;
    assert(h.ensures((s, idx), Ok::<(Vec<Nibble>, [u8; 32]), NibblePatriciaTrieError>((f, hh))));
}

/// Every hash of `m` is the trie's hash of the node at its key.
#[verifier::opaque]
pub open spec fn hashes_true(m: Map<Seq<u8>, Seq<u8>>, t: Map<Seq<u8>, NibblePatriciaTrieNode>, th: Map<Seq<u8>, Seq<u8>>) -> bool {
    forall|x: Seq<u8>| #[trigger] m.contains_key(x) ==> t.contains_key(x) && m[x] == th[x]
}

/// `m` has a hash for every leaf key, branch and hashed node of the proof
/// whose key is longer than `d`.
#[verifier::opaque]
pub open spec fn hashes_cover(m: Map<Seq<u8>, Seq<u8>>, lk: Map<Seq<u8>, ()>, p: NibblePatriciaTrieRootPath, d: int) -> bool {
    &&& forall|x: Seq<u8>| #[trigger] lk.contains_key(x) && x.len() > d ==> m.contains_key(x)
    &&& forall|x: Seq<u8>| #[trigger] p.nodes_branch@.contains_key(x) && x.len() > d ==> m.contains_key(x)
    &&& forall|x: Seq<u8>| #[trigger] p.nodes_hashed@.contains_key(x) && x.len() > d ==> m.contains_key(x)
}

/// The trie's hash of a branch of the proof, from the hashes of its
/// children.
proof fn lemma_branch_hash_in_trie<G, H>(
    t: Map<Seq<u8>, NibblePatriciaTrieNode>,
    th: Map<Seq<u8>, Seq<u8>>,
    g: G,
    h: H,
    lk: Map<Seq<u8>, ()>,
    p: NibblePatriciaTrieRootPath,
    k: Seq<u8>,
) where
    G: Fn(&[Nibble]) -> Result<NibblePatriciaTrieNode, NibblePatriciaTrieError>,
    H: Fn(&[Nibble], Nibble) -> Result<(Vec<Nibble>, [u8; 32]), NibblePatriciaTrieError>,

    requires
        proof_of_trie(t, th, g, h, lk, p),
        p.nodes_branch@.contains_key(k),
    ensures
        branch_hash_spec(
            p.nodes_branch@[k].key_fragment@,
            p.nodes_branch@[k].child_key_indices@,
            trie_child_hashes(t, th, k),
        ) == Some(th[k]),
        forall|y: Seq<u8>| #[trigger] t.contains_key(y) ==> th.contains_key(y),
{
    lemma_proof_branch_in_trie(t, th, g, h, lk, p, k);
    reveal(proof_of_trie);
}

/// With the hashes of all the deeper nodes of the proof at hand, a branch
/// of the proof finds the trie's hash of its child at position `j`.
proof fn lemma_child_hash<G, H>(
    t: Map<Seq<u8>, NibblePatriciaTrieNode>,
    th: Map<Seq<u8>, Seq<u8>>,
    g: G,
    h: H,
    lk: Map<Seq<u8>, ()>,
    p: NibblePatriciaTrieRootPath,
    m: Map<Seq<u8>, Seq<u8>>,
    k: Seq<u8>,
    j: int,
) where
    G: Fn(&[Nibble]) -> Result<NibblePatriciaTrieNode, NibblePatriciaTrieError>,
    H: Fn(&[Nibble], Nibble) -> Result<(Vec<Nibble>, [u8; 32]), NibblePatriciaTrieError>,

    requires
        proof_of_trie(t, th, g, h, lk, p),
        p.nodes_branch@.contains_key(k),
        0 <= j < p.nodes_branch@[k].child_key_indices@.len(),
        hashes_true(m, t, th),
        hashes_cover(m, lk, p, k.len() as int),
    ensures
        first_value_with_prefix(m, k.push(p.nodes_branch@[k].child_key_indices@[j])) == Some(
            th[trie_child(t, k, p.nodes_branch@[k].child_key_indices@[j])],
        ),
{
    reveal(hashes_true);
    reveal(hashes_cover);
    let c = p.nodes_branch@[k].child_key_indices@[j];
    lemma_child_in_proof(t, th, g, h, lk, p, k, j);
    let ck = trie_child(t, k, c);
    assert(is_prefix_of(k.push(c), ck));
    assert(ck.len() > k.len());
    if lk.contains_key(ck) {
        assert(m.contains_key(ck));
    } else if p.nodes_branch@.contains_key(ck) {
        assert(m.contains_key(ck));
    } else {
        assert(m.contains_key(ck));
    }
    assert forall|y: Seq<u8>| #[trigger] m.contains_key(y) && is_prefix_of(k.push(c), y) implies is_prefix_of(ck, y) by {
        assert(t.contains_key(y));
    }
    lemma_first_value_at_top(m, k.push(c), ck);
}

/// With the hashes of all the deeper nodes of the proof at hand, a branch
/// of the proof finds the trie's hash of each of its children.
proof fn lemma_child_hashes<G, H>(
    t: Map<Seq<u8>, NibblePatriciaTrieNode>,
    th: Map<Seq<u8>, Seq<u8>>,
    g: G,
    h: H,
    lk: Map<Seq<u8>, ()>,
    p: NibblePatriciaTrieRootPath,
    m: Map<Seq<u8>, Seq<u8>>,
    k: Seq<u8>,
) where
    G: Fn(&[Nibble]) -> Result<NibblePatriciaTrieNode, NibblePatriciaTrieError>,
    H: Fn(&[Nibble], Nibble) -> Result<(Vec<Nibble>, [u8; 32]), NibblePatriciaTrieError>,

    requires
        proof_of_trie(t, th, g, h, lk, p),
        p.nodes_branch@.contains_key(k),
        hashes_true(m, t, th),
        hashes_cover(m, lk, p, k.len() as int),
    ensures
        child_hashes_in(m, k, p.nodes_branch@[k].child_key_indices@) == trie_child_hashes(t, th, k),
{
    lemma_proof_branch_in_trie(t, th, g, h, lk, p, k);
    let idx = p.nodes_branch@[k].child_key_indices@;
    assert forall|j: int| 0 <= j < idx.len() implies #[trigger] child_hashes_in(m, k, idx)[j] == trie_child_hashes(
        t,
        th,
        k,
    )[j] by {
        lemma_child_hash(t, th, g, h, lk, p, m, k, j);
    }
    assert(child_hashes_in(m, k, idx) =~= trie_child_hashes(t, th, k));
}

/// Hashing a branch of the proof, with the hashes of all the deeper nodes
/// of the proof at hand, gives the trie's hash of the branch.
proof fn lemma_hash_branch<G, H>(
    t: Map<Seq<u8>, NibblePatriciaTrieNode>,
    th: Map<Seq<u8>, Seq<u8>>,
    g: G,
    h: H,
    lk: Map<Seq<u8>, ()>,
    p: NibblePatriciaTrieRootPath,
    m: Map<Seq<u8>, Seq<u8>>,
    k: Seq<u8>,
) where
    G: Fn(&[Nibble]) -> Result<NibblePatriciaTrieNode, NibblePatriciaTrieError>,
    H: Fn(&[Nibble], Nibble) -> Result<(Vec<Nibble>, [u8; 32]), NibblePatriciaTrieError>,

    requires
        proof_of_trie(t, th, g, h, lk, p),
        p.nodes_branch@.contains_key(k),
        hashes_true(m, t, th),
        hashes_cover(m, lk, p, k.len() as int),
    ensures
        hash_branch_into(m, k, p.nodes_branch@[k]) == m.insert(k, th[k]),
{
    lemma_child_hashes(t, th, g, h, lk, p, m, k);
    lemma_branch_hash_in_trie(t, th, g, h, lk, p, k);
}

/// More hashes cover at least as much.
proof fn lemma_cover_grows(
    m: Map<Seq<u8>, Seq<u8>>,
    m2: Map<Seq<u8>, Seq<u8>>,
    lk: Map<Seq<u8>, ()>,
    p: NibblePatriciaTrieRootPath,
    d: int,
    d2: int,
)
    requires
        hashes_cover(m, lk, p, d),
        m.dom().subset_of(m2.dom()),
        d <= d2,
    ensures
        hashes_cover(m2, lk, p, d2),
{
    reveal(hashes_cover);
}

/// Adding the trie's hash of a node of the trie keeps every hash true.
proof fn lemma_true_insert(
    m: Map<Seq<u8>, Seq<u8>>,
    t: Map<Seq<u8>, NibblePatriciaTrieNode>,
    th: Map<Seq<u8>, Seq<u8>>,
    k: Seq<u8>,
)
    requires
        hashes_true(m, t, th),
        t.contains_key(k),
    ensures
        hashes_true(m.insert(k, th[k]), t, th),
{
    reveal(hashes_true);
}

/// The keys of length `d` of `entries`.
pub open spec fn depth_keys(entries: Seq<(Vec<u8>, NibblePatriciaTrieNodeBranch)>, d: int) -> Set<Seq<u8>>
    decreases entries.len(),
{
    if entries.len() == 0 {
        Set::empty()
    } else if entries.last().0@.len() == d {
        depth_keys(entries.drop_last(), d).insert(entries.last().0@)
    } else {
        depth_keys(entries.drop_last(), d)
    }
}

/// Each key of length `d` of `entries` is among its keys of length `d`.
proof fn lemma_depth_keys(entries: Seq<(Vec<u8>, NibblePatriciaTrieNodeBranch)>, d: int, i: int)
    requires
        0 <= i < entries.len(),
        entries[i].0@.len() == d,
    ensures
        depth_keys(entries, d).contains(entries[i].0@),
    decreases entries.len(),
{
    if i < entries.len() - 1 {
        lemma_depth_keys(entries.drop_last(), d, i);
        assert(entries.drop_last()[i] == entries[i]);
    }
}

/// Hashing, in order, the branches of `entries` at depth `d`, with the
/// hashes of all the deeper nodes of the proof at hand, adds the trie's
/// hash of each of them.
proof fn lemma_hash_depth<G, H>(
    t: Map<Seq<u8>, NibblePatriciaTrieNode>,
    th: Map<Seq<u8>, Seq<u8>>,
    g: G,
    h: H,
    lk: Map<Seq<u8>, ()>,
    p: NibblePatriciaTrieRootPath,
    m: Map<Seq<u8>, Seq<u8>>,
    entries: Seq<(Vec<u8>, NibblePatriciaTrieNodeBranch)>,
    d: int,
) where
    G: Fn(&[Nibble]) -> Result<NibblePatriciaTrieNode, NibblePatriciaTrieError>,
    H: Fn(&[Nibble], Nibble) -> Result<(Vec<Nibble>, [u8; 32]), NibblePatriciaTrieError>,

    requires
        proof_of_trie(t, th, g, h, lk, p),
        hashes_true(m, t, th),
        hashes_cover(m, lk, p, d),
        forall|i: int|
            0 <= i < entries.len() ==> p.nodes_branch@.contains_key(#[trigger] entries[i].0@) && p.nodes_branch@[entries[i].0@]
                == entries[i].1,
    ensures
        hashes_true(hash_depth(m, entries, d), t, th),
        m.dom().subset_of(hash_depth(m, entries, d).dom()),
        depth_keys(entries, d).subset_of(hash_depth(m, entries, d).dom()),
    decreases entries.len(),
{
    if entries.len() > 0 {
        let rest = entries.drop_last();
        assert forall|i: int| 0 <= i < rest.len() implies p.nodes_branch@.contains_key(#[trigger] rest[i].0@)
            && p.nodes_branch@[rest[i].0@] == rest[i].1 by {
            assert(rest[i] == entries[i]);
        }
        lemma_hash_depth(t, th, g, h, lk, p, m, rest, d);
        let m1 = hash_depth(m, rest, d);
        let last = entries.last();
        assert(entries[entries.len() - 1] == last);
        if last.0@.len() == d {
            lemma_cover_grows(m, m1, lk, p, d, d);
            lemma_hash_branch(t, th, g, h, lk, p, m1, last.0@);
            lemma_proof_branch_in_trie(t, th, g, h, lk, p, last.0@);
            lemma_true_insert(m1, t, th, last.0@);
            assert(hash_depth(m, entries, d) == m1.insert(last.0@, th[last.0@]));
        } else {
            assert(hash_depth(m, entries, d) == m1);
        }
        let r = hash_depth(m, entries, d);
        assert(m1.dom().subset_of(r.dom()));
    }
}

/// No key of `entries` is longer than `max_key_len(entries)`.
proof fn lemma_max_key_len(entries: Seq<(Vec<u8>, NibblePatriciaTrieNodeBranch)>, i: int)
    requires
        0 <= i < entries.len(),
    ensures
        entries[i].0@.len() <= max_key_len(entries),
    decreases entries.len(),
{
    if i < entries.len() - 1 {
        lemma_max_key_len(entries.drop_last(), i);
        assert(entries.drop_last()[i] == entries[i]);
    }
}

/// Hashing the branches of the proof depth by depth, from `top` down to
/// `d`, keeps every hash true and hashes every branch of the proof at depth
/// `d` or deeper.
proof fn lemma_hash_levels<G, H>(
    t: Map<Seq<u8>, NibblePatriciaTrieNode>,
    th: Map<Seq<u8>, Seq<u8>>,
    g: G,
    h: H,
    lk: Map<Seq<u8>, ()>,
    p: NibblePatriciaTrieRootPath,
    m0: Map<Seq<u8>, Seq<u8>>,
    entries: Seq<(Vec<u8>, NibblePatriciaTrieNodeBranch)>,
    top: int,
    d: int,
) where
    G: Fn(&[Nibble]) -> Result<NibblePatriciaTrieNode, NibblePatriciaTrieError>,
    H: Fn(&[Nibble], Nibble) -> Result<(Vec<Nibble>, [u8; 32]), NibblePatriciaTrieError>,

    requires
        proof_of_trie(t, th, g, h, lk, p),
        hashes_true(m0, t, th),
        forall|x: Seq<u8>| #[trigger] lk.contains_key(x) ==> m0.contains_key(x),
        forall|x: Seq<u8>| #[trigger] p.nodes_hashed@.contains_key(x) ==> m0.contains_key(x),
        forall|i: int|
            0 <= i < entries.len() ==> p.nodes_branch@.contains_key(#[trigger] entries[i].0@) && p.nodes_branch@[entries[i].0@]
                == entries[i].1 && entries[i].0@.len() <= top,
        forall|x: Seq<u8>|
            #[trigger] p.nodes_branch@.contains_key(x) ==> exists|i: int| 0 <= i < entries.len() && #[trigger] entries[i].0@ == x,
        0 <= d,
    ensures
        hashes_true(hash_levels(m0, entries, top, d), t, th),
        m0.dom().subset_of(hash_levels(m0, entries, top, d).dom()),
        hashes_cover(hash_levels(m0, entries, top, d), lk, p, d - 1),
    decreases top + 1 - d,
{
    if d > top {
        assert(hash_levels(m0, entries, top, d) == m0);
        reveal(hashes_cover);
        assert forall|x: Seq<u8>| #[trigger] p.nodes_branch@.contains_key(x) && x.len() > d - 1 implies m0.contains_key(x) by {
            let i = choose|i: int| 0 <= i < entries.len() && #[trigger] entries[i].0@ == x;
        }
    } else {
        lemma_hash_levels(t, th, g, h, lk, p, m0, entries, top, d + 1);
        let m1 = hash_levels(m0, entries, top, d + 1);
        lemma_hash_depth(t, th, g, h, lk, p, m1, entries, d);
        let r = hash_depth(m1, entries, d);
        assert(hash_levels(m0, entries, top, d) == r);
        assert(m1.dom().subset_of(r.dom()));
        reveal(hashes_cover);
        assert forall|x: Seq<u8>| #[trigger] p.nodes_branch@.contains_key(x) && x.len() > d - 1 implies r.contains_key(x) by {
            if x.len() == d {
                let i = choose|i: int| 0 <= i < entries.len() && #[trigger] entries[i].0@ == x;
                lemma_depth_keys(entries, d, i);
            } else {
                assert(m1.contains_key(x));
            }
        }
        assert forall|x: Seq<u8>| #[trigger] lk.contains_key(x) && x.len() > d - 1 implies r.contains_key(x) by {
            assert(m0.contains_key(x));
        }
        assert forall|x: Seq<u8>| #[trigger] p.nodes_hashed@.contains_key(x) && x.len() > d - 1 implies r.contains_key(x) by {
            assert(m0.contains_key(x));
        }
    }
}

/// The inclusion proof gives back the root: a proof that `from_leafs`
/// built for some leaf keys of a trie, with lookups that read the trie,
/// together with the trie's leaves at those keys, yields the trie's root
/// hash.
pub proof fn law_inclusion_proof_gives_root<G, H>(
    t: Map<Seq<u8>, NibblePatriciaTrieNode>,
    th: Map<Seq<u8>, Seq<u8>>,
    g: G,
    h: H,
    leaf_keys: SortedMap<()>,
    p: NibblePatriciaTrieRootPath,
    leaves: SortedMap<NibblePatriciaTrieNodeLeaf>,
) where
    G: Fn(&[Nibble]) -> Result<NibblePatriciaTrieNode, NibblePatriciaTrieError>,
    H: Fn(&[Nibble], Nibble) -> Result<(Vec<Nibble>, [u8; 32]), NibblePatriciaTrieError>,

    requires
        trie_wf(t, th),
        reads_nodes(g, t),
        reads_children(h, t, th),
        leaf_keys.wf(),
        leaf_keys.size() > 0,
        forall|l: Seq<u8>| #[trigger] leaf_keys@.contains_key(l) ==> t.contains_key(l) && t[l] is Leaf,
        built_from_leafs(g, h, leaf_keys@, p),
        forall|l: Seq<u8>| #[trigger] leaves@.contains_key(l) <==> leaf_keys@.contains_key(l),
        forall|l: Seq<u8>|
            #[trigger] leaves@.contains_key(l) ==> same_node(NibblePatriciaTrieNode::Leaf(leaves@[l]), t[l]),
    ensures
        root_spec(p.nodes_branch, p.nodes_hashed, leaves) == Ok::<Seq<u8>, NibblePatriciaTrieError>(th[Seq::empty()]),
{
    let lk = leaf_keys@;
    assert(proof_of_trie(t, th, g, h, lk, p)) by {
        reveal(proof_of_trie);
    }
    let hashed = p.nodes_hashed;
    let nb = p.nodes_branch;
    let m0 = hashes_map_view(hashed@).union_prefer_right(leaf_hashes_view(leaves@));
    assert(hashes_true(m0, t, th)) by {
        reveal(hashes_true);
        assert forall|x: Seq<u8>| #[trigger] m0.contains_key(x) implies t.contains_key(x) && m0[x] == th[x] by {
            if leaves@.contains_key(x) {
                assert(lk.contains_key(x));
                assert(t.contains_key(x) && t[x] is Leaf);
                assert(m0[x] == leaf_hash_spec(leaves@[x].key_fragment@, leaves@[x].value@));
            } else {
                assert(hashed@.contains_key(x));
                lemma_hashed_in_trie(t, th, g, h, lk, p, x);
            }
        }
    }
    let entries = nb.entries@;
    assert forall|i: int| 0 <= i < entries.len() implies nb@.contains_key(#[trigger] entries[i].0@) && nb@[entries[i].0@]
        == entries[i].1 && entries[i].0@.len() <= max_key_len(entries) by {
        nb.lemma_index_of(i);
        lemma_max_key_len(entries, i);
    }
    assert forall|x: Seq<u8>| #[trigger] nb@.contains_key(x) implies exists|i: int|
        0 <= i < entries.len() && #[trigger] entries[i].0@ == x by {
        let i = nb.index_of(x);
        assert(nb.key_at(i) == x);
    }
    assert forall|x: Seq<u8>| #[trigger] lk.contains_key(x) implies m0.contains_key(x) by {
        assert(leaves@.contains_key(x));
    }
    let top = max_key_len(entries) as int;
    lemma_hash_levels(t, th, g, h, lk, p, m0, entries, top, 0);
    let r = hash_levels(m0, entries, top, 0);
    // the root branch is in the proof
    leaf_keys.lemma_index_of(0);
    let l = leaf_keys.key_at(0);
    lemma_empty_prefix(l);
    lemma_path_in_proof(t, th, g, h, lk, p, l, Seq::<u8>::empty());
    assert(nb@.contains_key(Seq::<u8>::empty()));
    assert(nb.size() > 0) by {
        let i = nb.index_of(Seq::<u8>::empty());
        assert(nb.key_at(i) == Seq::<u8>::empty());
    }
    assert(r.contains_key(Seq::<u8>::empty())) by {
        reveal(hashes_cover);
    }
    assert(r[Seq::<u8>::empty()] == th[Seq::<u8>::empty()]) by {
        reveal(hashes_true);
    }
    lemma_empty_prefix(Seq::<u8>::empty());
    lemma_first_value_at_top(r, Seq::<u8>::empty(), Seq::<u8>::empty());
}

/// Iterating over all the leaves of a trie under a prefix is complete: with
/// the trie's branches on and under the prefix, the trie's leaf keys under
/// the prefix pass the completeness check.
pub proof fn law_iteration_of_all_leaves_is_complete(
    t: Map<Seq<u8>, NibblePatriciaTrieNode>,
    th: Map<Seq<u8>, Seq<u8>>,
    branches: Map<Seq<u8>, NibblePatriciaTrieNodeBranch>,
    hashed: Map<Seq<u8>, [u8; 32]>,
    prefix: Seq<u8>,
    keys: Map<Seq<u8>, ()>,
)
    requires
        trie_wf(t, th),
        forall|k: Seq<u8>|
            #[trigger] branches.contains_key(k) ==> t.contains_key(k) && same_node(
                NibblePatriciaTrieNode::Branch(branches[k]),
                t[k],
            ),
        forall|k: Seq<u8>|
            #[trigger] t.contains_key(k) && t[k] is Branch && (is_prefix_of(k, prefix) || is_prefix_of(prefix, k))
                ==> branches.contains_key(k),
        forall|x: Seq<u8>|
            #[trigger] keys.contains_key(x) <==> t.contains_key(x) && t[x] is Leaf && is_prefix_of(prefix, x),
        forall|k: Seq<u8>, j: int|
            #[trigger] branches.contains_key(k) && 0 <= j < branches[k].child_key_indices@.len() ==> ({
                let ck = trie_child(t, k, #[trigger] branches[k].child_key_indices@[j]);
                branches.contains_key(ck) || hashed.contains_key(ck) || (t[ck] is Leaf && is_prefix_of(prefix, ck))
            }),
    ensures
        iter_complete_spec(branches, hashed, prefix, keys),
{
    assert forall|k: Seq<u8>|
        #[trigger] branches.contains_key(k) && is_prefix_of(k, prefix) && k.len() < prefix.len()
            && branches[k].child_key_indices@.contains(prefix[k.len() as int]) implies path_child_covered(
        branches,
        hashed,
        prefix,
        keys,
        prefix.take(k.len() + 1int),
    ) by {
        let c = prefix[k.len() as int];
        let j = choose|j: int| 0 <= j < branches[k].child_key_indices@.len() && branches[k].child_key_indices@[j] == c;
        assert(node_children(t[k])[j] == c);
        assert(exists|ck: Seq<u8>| is_trie_child(t, k, node_children(t[k])[j], ck));
        let ck = trie_child(t, k, c);
        assert(is_trie_child(t, k, c, ck));
        assert(prefix.take(k.len() + 1int) =~= k.push(c));
        assert(branches[k].child_key_indices@[j] == c);
        if branches.contains_key(ck) {
            assert(leads_to_branch(branches, k.push(c)));
        } else if hashed.contains_key(ck) && !is_prefix_of(prefix, ck) {
        } else {
            if t[ck] is Branch {
                assert(is_prefix_of(prefix, ck));
                assert(branches.contains_key(ck));
            }
            assert(keys.contains_key(ck));
        }
    }
    assert forall|x: Seq<u8>| #[trigger] keys.contains_key(x) implies admitted(branches, x) by {
        lemma_admitted(t, th, branches, prefix, x);
    }
    assert forall|k: Seq<u8>, i: u8|
        #[trigger] branches.contains_key(k) && is_prefix_of(prefix, k) && #[trigger] branches[k].child_key_indices@.contains(i)
        implies leads_to_branch(branches, k.push(i)) || has_key_with_prefix(keys, k.push(i)) by {
        let j = choose|j: int| 0 <= j < branches[k].child_key_indices@.len() && branches[k].child_key_indices@[j] == i;
        assert(node_children(t[k])[j] == i);
        assert(exists|ck: Seq<u8>| is_trie_child(t, k, node_children(t[k])[j], ck));
        let ck = trie_child(t, k, i);
        assert(is_trie_child(t, k, i, ck));
        assert(is_prefix_of(prefix, ck)) by {
            assert(is_prefix_of(k, ck)) by {
                assert(ck.take(k.len() as int) =~= k) by {
                    assert forall|n: int| 0 <= n < k.len() implies ck.take(k.len() as int)[n] == k[n] by {
                        assert(ck.take(k.push(i).len() as int)[n] == k.push(i)[n]);
                    }
                }
            }
            lemma_prefix_of_prefix(prefix, k, ck);
            assert(ck.take(prefix.len() as int) =~= k.take(prefix.len() as int));
        }
        if t[ck] is Branch {
            assert(branches.contains_key(ck));
        } else {
            assert(keys.contains_key(ck));
        }
    }
}

/// A leaf of the trie is admitted by its branches: the deepest branch on
/// its path is its parent, which has a child at the leaf's next nibble.
proof fn lemma_admitted(
    t: Map<Seq<u8>, NibblePatriciaTrieNode>,
    th: Map<Seq<u8>, Seq<u8>>,
    branches: Map<Seq<u8>, NibblePatriciaTrieNodeBranch>,
    prefix: Seq<u8>,
    x: Seq<u8>,
)
    requires
        trie_wf(t, th),
        forall|k: Seq<u8>|
            #[trigger] branches.contains_key(k) ==> t.contains_key(k) && same_node(
                NibblePatriciaTrieNode::Branch(branches[k]),
                t[k],
            ),
        forall|k: Seq<u8>|
            #[trigger] t.contains_key(k) && t[k] is Branch && (is_prefix_of(k, prefix) || is_prefix_of(prefix, k))
                ==> branches.contains_key(k),
        t.contains_key(x),
        t[x] is Leaf,
        is_prefix_of(prefix, x),
    ensures
        admitted(branches, x),
{
    assert(x.len() > 0) by {
        if x.len() == 0 {
            assert(x =~= Seq::<u8>::empty());
        }
    }
    let p = trie_parent(t, x);
    let j = p.len() as int;
    assert(t.contains_key(p));
    assert(is_prefix_of(p, x)) by {
        assert(x.take(j) =~= p);
    }
    assert(t[p] is Branch);
    if j <= prefix.len() {
        lemma_prefix_of_prefix(p, prefix, x);
    } else {
        lemma_prefix_of_prefix(prefix, p, x);
    }
    assert(branches.contains_key(p));
    assert(x.take(j) =~= p);
    lemma_deepest_branch_prefix(branches, x, x.len() as int);
    let d = deepest_branch_on_path(branches, x);
    assert(d is Some);
    let jj = d->Some_0;
    if jj > j {
        let q = x.take(jj);
        assert(branches.contains_key(q));
        assert(is_prefix_of(q, x)) by {
            assert(x.take(q.len() as int) =~= q);
        }
    }
    assert(jj == j);
    assert(branches[p].child_key_indices@ == node_children(t[p]));
}

/// The shorter of two prefixes of one sequence is a prefix of the longer,
/// and prefixes chain.
proof fn lemma_prefix_chain(a: Seq<u8>, b: Seq<u8>, c: Seq<u8>)
    requires
        is_prefix_of(a, b),
        is_prefix_of(b, c),
    ensures
        is_prefix_of(a, c),
{
    assert(c.take(a.len() as int) =~= a) by {
        assert forall|i: int| 0 <= i < a.len() implies c.take(a.len() as int)[i] == a[i] by {
            assert(c.take(b.len() as int)[i] == b[i]);
            assert(b.take(a.len() as int)[i] == a[i]);
        }
    }
}

/// The only node of the trie under the child of a leaf's parent at the
/// leaf's next nibble is the leaf itself.
proof fn lemma_only_leaf_under_its_child(t: Map<Seq<u8>, NibblePatriciaTrieNode>, th: Map<Seq<u8>, Seq<u8>>, y: Seq<u8>)
    requires
        trie_wf(t, th),
        t.contains_key(y),
        t[y] is Leaf,
        y.len() > 0,
    ensures
        ({
            let p = trie_parent(t, y);
            let cp = p.push(y[p.len() as int]);
            &&& is_prefix_of(cp, y)
            &&& forall|z: Seq<u8>| #[trigger] t.contains_key(z) && is_prefix_of(cp, z) ==> z == y
        }),
{
    let p = trie_parent(t, y);
    let c = y[p.len() as int];
    let cp = p.push(c);
    assert(t.contains_key(p));
    assert(is_prefix_of(p, y)) by {
        assert(y.take(p.len() as int) =~= p);
    }
    assert(t[p] is Branch);
    assert(node_children(t[p]).contains(c));
    assert(is_prefix_of(cp, y)) by {
        assert(y.take(cp.len() as int) =~= cp);
    }
    let j = choose|j: int| 0 <= j < node_children(t[p]).len() && node_children(t[p])[j] == c;
    assert(exists|ck: Seq<u8>| is_trie_child(t, p, node_children(t[p])[j], ck));
    let ck = trie_child(t, p, c);
    assert(is_trie_child(t, p, c, ck));
    assert(is_prefix_of(ck, y));
    assert(ck =~= y) by {
        if ck.len() < y.len() {
            assert(ck.len() <= p.len());
        }
    }
    assert forall|z: Seq<u8>| #[trigger] t.contains_key(z) && is_prefix_of(cp, z) implies z == y by {
        assert(is_prefix_of(y, z));
        if z.len() > y.len() {
            assert(t[y] is Branch);
        }
        assert(z =~= y);
    }
}

/// A leaf `y` of the trie, under the prefix, whose parent `p` has its child
/// at `y`'s next nibble accounted for in one of the three ways, is among the
/// keys.
proof fn lemma_leaf_child_is_key(
    t: Map<Seq<u8>, NibblePatriciaTrieNode>,
    branches: Map<Seq<u8>, NibblePatriciaTrieNodeBranch>,
    hashed: Map<Seq<u8>, [u8; 32]>,
    prefix: Seq<u8>,
    keys: Map<Seq<u8>, ()>,
    y: Seq<u8>,
    cp: Seq<u8>,
)
    requires
        forall|k: Seq<u8>| #[trigger] branches.contains_key(k) ==> t.contains_key(k) && t[k] is Branch,
        forall|x: Seq<u8>| #[trigger] hashed.contains_key(x) ==> t.contains_key(x),
        forall|x: Seq<u8>| #[trigger] keys.contains_key(x) ==> t.contains_key(x),
        t[y] is Leaf,
        is_prefix_of(prefix, y),
        forall|z: Seq<u8>| #[trigger] t.contains_key(z) && is_prefix_of(cp, z) ==> z == y,
        leads_to_branch(branches, cp) || has_key_with_prefix(keys, cp) || exists|x: Seq<u8>|
            #[trigger] hashed.contains_key(x) && is_prefix_of(cp, x) && !is_prefix_of(prefix, x),
    ensures
        keys.contains_key(y),
{
    if leads_to_branch(branches, cp) {
        let q = choose|q: Seq<u8>| #[trigger] branches.contains_key(q) && is_prefix_of(cp, q);
        assert(t.contains_key(q));
        assert(q == y);
        assert(false);
    } else if has_key_with_prefix(keys, cp) {
        let z = choose|z: Seq<u8>| #[trigger] keys.contains_key(z) && is_prefix_of(cp, z);
        assert(t.contains_key(z));
        assert(z == y);
    } else {
        let x = choose|x: Seq<u8>| #[trigger] hashed.contains_key(x) && is_prefix_of(cp, x) && !is_prefix_of(prefix, x);
        assert(t.contains_key(x));
        assert(x == y);
        assert(false);
    }
}

/// A check that passes misses no leaf: when the completeness check passes
/// for keys that are leaves of the trie, on a proof with the trie's
/// branches on and under the prefix and only trie nodes hashed, every leaf
/// of the trie under the prefix is among the keys.
pub proof fn law_complete_iteration_misses_no_leaf(
    t: Map<Seq<u8>, NibblePatriciaTrieNode>,
    th: Map<Seq<u8>, Seq<u8>>,
    branches: Map<Seq<u8>, NibblePatriciaTrieNodeBranch>,
    hashed: Map<Seq<u8>, [u8; 32]>,
    prefix: Seq<u8>,
    keys: Map<Seq<u8>, ()>,
    y: Seq<u8>,
)
    requires
        trie_wf(t, th),
        forall|k: Seq<u8>|
            #[trigger] branches.contains_key(k) ==> t.contains_key(k) && same_node(
                NibblePatriciaTrieNode::Branch(branches[k]),
                t[k],
            ),
        forall|k: Seq<u8>|
            #[trigger] t.contains_key(k) && t[k] is Branch && (is_prefix_of(k, prefix) || is_prefix_of(prefix, k))
                ==> branches.contains_key(k),
        forall|x: Seq<u8>| #[trigger] hashed.contains_key(x) ==> t.contains_key(x),
        forall|x: Seq<u8>| #[trigger] keys.contains_key(x) ==> t.contains_key(x) && t[x] is Leaf,
        iter_complete_spec(branches, hashed, prefix, keys),
        t.contains_key(y),
        t[y] is Leaf,
        is_prefix_of(prefix, y),
    ensures
        keys.contains_key(y),
{
    assert(y.len() > 0) by {
        if y.len() == 0 {
            assert(y =~= Seq::<u8>::empty());
        }
    }
    let p = trie_parent(t, y);
    let c = y[p.len() as int];
    assert(t.contains_key(p));
    assert(is_prefix_of(p, y)) by {
        assert(y.take(p.len() as int) =~= p);
    }
    assert(t[p] is Branch);
    assert(node_children(t[p]).contains(c));
    if p.len() >= prefix.len() {
        lemma_prefix_of_prefix(prefix, p, y);
        assert(branches.contains_key(p));
        assert(branches[p].child_key_indices@ == node_children(t[p]));
        assert(branches[p].child_key_indices@.contains(c));
    } else {
        lemma_prefix_of_prefix(p, prefix, y);
        assert(branches.contains_key(p));
        assert(branches[p].child_key_indices@ == node_children(t[p]));
        assert(prefix[p.len() as int] == c) by {
            assert(y.take(prefix.len() as int)[p.len() as int] == prefix[p.len() as int]);
        }
        assert(prefix.take(p.len() + 1int) =~= p.push(c)) by {
            assert(y.take(prefix.len() as int) =~= prefix);
            assert forall|n: int| 0 <= n < p.len() + 1 implies prefix.take(p.len() + 1int)[n] == p.push(c)[n] by {
                if n < p.len() {
                    assert(y.take(p.len() as int)[n] == p[n]);
                    assert(y.take(prefix.len() as int)[n] == prefix[n]);
                }
            }
        }
        assert(path_child_covered(branches, hashed, prefix, keys, prefix.take(p.len() + 1int)));
    }
    lemma_only_leaf_under_its_child(t, th, y);
    assert forall|k: Seq<u8>| #[trigger] branches.contains_key(k) implies t.contains_key(k) && t[k] is Branch by {
        assert(same_node(NibblePatriciaTrieNode::Branch(branches[k]), t[k]));
    }
    lemma_leaf_child_is_key(t, branches, hashed, prefix, keys, y, p.push(c));
}

/// Non-inclusion proofs are sound: on a proof that holds the trie's
/// branches on the path of a key, a key that the proof shows absent is no
/// leaf of the trie.
pub proof fn law_non_inclusion_excludes_leaf(
    t: Map<Seq<u8>, NibblePatriciaTrieNode>,
    th: Map<Seq<u8>, Seq<u8>>,
    branches: Map<Seq<u8>, NibblePatriciaTrieNodeBranch>,
    x: Seq<u8>,
)
    requires
        trie_wf(t, th),
        forall|k: Seq<u8>|
            #[trigger] branches.contains_key(k) ==> t.contains_key(k) && same_node(
                NibblePatriciaTrieNode::Branch(branches[k]),
                t[k],
            ),
        forall|k: Seq<u8>|
            #[trigger] t.contains_key(k) && t[k] is Branch && (is_prefix_of(k, x) || is_prefix_of(x, k))
                ==> branches.contains_key(k),
        non_inclusion_shown(branches, x),
    ensures
        !(t.contains_key(x) && t[x] is Leaf),
{
    if t.contains_key(x) && t[x] is Leaf {
        assert(is_prefix_of(x, x)) by {
            assert(x.take(x.len() as int) =~= x);
        }
        lemma_admitted(t, th, branches, x, x);
    }
}

} // verus!
