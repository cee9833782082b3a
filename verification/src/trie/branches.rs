use vstd::prelude::*;

use super::error::NibblePatriciaTrieError;
use super::nibble::Nibble;
use super::node::{strictly_increasing, NibblePatriciaTrieNodeBranch};
use crate::trie::db::copy_bytes;
use crate::utils::sorted_map::{is_prefix_of, SortedMap};

verus! {

/// `p` is a nonempty proper prefix of some key of `keys`: the full key of
/// a branch of the trie that holds those keys.
pub open spec fn is_inner_prefix<V>(keys: Map<Seq<u8>, V>, p: Seq<u8>) -> bool {
    p.len() > 0 && exists|k: Seq<u8>| #[trigger] keys.contains_key(k) && p.len() < k.len() && is_prefix_of(p, k)
}

/// Some key of `keys` continues the proper prefix `p` with the nibble `n`.
pub open spec fn continues_with<V>(keys: Map<Seq<u8>, V>, p: Seq<u8>, n: u8) -> bool {
    exists|k: Seq<u8>|
        #[trigger] keys.contains_key(k) && p.len() < k.len() && is_prefix_of(p, k) && k[p.len() as int] == n
}

/// The branch built at `p` for the keys `keys`: its fragment is the last
/// nibble of `p`, and its children are the nibbles that continue `p`.
pub open spec fn branch_built_for<V>(keys: Map<Seq<u8>, V>, p: Seq<u8>, b: NibblePatriciaTrieNodeBranch) -> bool {
    &&& b.wf()
    &&& b.key_fragment@ == seq![p.last()]
    &&& forall|n: u8| #[trigger] b.child_key_indices@.contains(n) <==> continues_with(keys, p, n)
}

/// The prefixes visited after the first `i` keys and, of key `i`, the
/// prefixes shorter than `j`.
spec fn seen_prefix<V>(entries: SortedMap<V>, i: int, j: int, p: Seq<u8>) -> bool {
    &&& p.len() > 0
    &&& {
        ||| exists|t: int|
            0 <= t < i && p.len() < (#[trigger] entries.key_at(t)).len() && is_prefix_of(p, entries.key_at(t))
        ||| (p.len() < j && p.len() < entries.key_at(i).len() && is_prefix_of(p, entries.key_at(i)))
    }
}

/// The continuations visited in the same steps.
spec fn seen_child<V>(entries: SortedMap<V>, i: int, j: int, p: Seq<u8>, n: u8) -> bool {
    ||| exists|t: int|
        0 <= t < i && p.len() < (#[trigger] entries.key_at(t)).len() && is_prefix_of(p, entries.key_at(t))
            && entries.key_at(t)[p.len() as int] == n
    ||| (p.len() < j && p.len() < entries.key_at(i).len() && is_prefix_of(p, entries.key_at(i))
        && entries.key_at(i)[p.len() as int] == n)
}

/// The set `v` (strictly increasing) with `n` added, still strictly
/// increasing.
fn insert_nibble(v: &Vec<Nibble>, n: Nibble) -> (r: Vec<Nibble>)
    requires
        strictly_increasing(v@),
    ensures
        strictly_increasing(r@),
        forall|x: u8| #[trigger] r@.contains(x) <==> (v@.contains(x) || x == n),
{
    let mut r: Vec<Nibble> = Vec::new();
    let mut placed = false;
    let mut i: usize = 0;
    while i < v.len()
        invariant
            i <= v@.len(),
            strictly_increasing(v@),
            strictly_increasing(r@),
            forall|y: u8| #[trigger] r@.contains(y) <==> (v@.take(i as int).contains(y) || (placed && y == n)),
            i < v@.len() ==> forall|t: int| 0 <= t < r@.len() ==> r@[t] < v@[i as int],
            !placed ==> forall|t: int| 0 <= t < r@.len() ==> r@[t] < n,
        decreases v@.len() - i,
    {
        let x = v[i];
        let ghost r0 = r@;
        let ghost placed0 = placed;
        if !placed && n <= x {
            if n < x {
                r.push(n);
            }
            placed = true;
        }
        let ghost r1 = r@;
        r.push(x);
        proof {
            assert(v@.take(i + 1) =~= v@.take(i as int).push(x));
            assert forall|y: u8| #[trigger] r@.contains(y) <==> (v@.take(i + 1).contains(y) || (placed && y == n)) by {
                if r@.contains(y) {
                    let t = choose|t: int| 0 <= t < r@.len() && r@[t] == y;
                    if t < r0.len() {
                        assert(r0[t] == y);
                        assert(r0.contains(y));
                    }
                    if t == r@.len() - 1 {
                        assert(v@.take(i + 1)[i as int] == y);
                    }
                }
                if v@.take(i + 1).contains(y) {
                    let t = choose|t: int| 0 <= t < i + 1 && #[trigger] v@.take(i + 1)[t] == y;
                    if t < i {
                        assert(v@.take(i as int)[t] == y);
                        assert(r0.contains(y));
                        let u = choose|u: int| 0 <= u < r0.len() && r0[u] == y;
                        assert(r@[u] == y);
                    } else {
                        assert(r@[r@.len() - 1] == y);
                    }
                }
                if placed && y == n {
                    if placed0 {
                        assert(r0.contains(y));
                        let u = choose|u: int| 0 <= u < r0.len() && r0[u] == y;
                        assert(r@[u] == y);
                    } else if n < x {
                        assert(r@[r0.len() as int] == y);
                    } else {
                        assert(r@[r@.len() - 1] == y);
                    }
                }
            }
            if i + 1 < v@.len() {
                assert(x < v@[i + 1]);
            }
        }
        i += 1;
    }
    if !placed {
        let ghost r0 = r@;
        r.push(n);
        proof {
            assert forall|y: u8| #[trigger] r@.contains(y) <==> (v@.contains(y) || y == n) by {
                assert(v@.take(i as int) =~= v@);
                if r@.contains(y) {
                    let t = choose|t: int| 0 <= t < r@.len() && r@[t] == y;
                    if t < r0.len() {
                        assert(r0[t] == y);
                        assert(r0.contains(y));
                    }
                }
                if v@.contains(y) {
                    assert(r0.contains(y));
                    let u = choose|u: int| 0 <= u < r0.len() && r0[u] == y;
                    assert(r@[u] == y);
                }
                if y == n {
                    assert(r@[r@.len() - 1] == y);
                }
            }
        }
    } else {
        assert(v@.take(i as int) =~= v@);
    }
    r
}

impl NibblePatriciaTrieNodeBranch {
    /// The branch nodes of the trie that holds the keys of `entries`, by
    /// full key: one at every nonempty proper prefix of a key, whose
    /// fragment is the last nibble of that prefix and whose children are
    /// the nibbles that continue it in some key.
    pub fn build_branch_nodes(entries: SortedMap<Vec<u8>>) -> (r: Result<
        SortedMap<NibblePatriciaTrieNodeBranch>,
        NibblePatriciaTrieError,
    >)
        requires
            entries.wf(),
        ensures
            r matches Ok(m) && m.wf() && (forall|p: Seq<u8>| #[trigger] m@.contains_key(p) <==> is_inner_prefix(entries@, p))
                && (forall|p: Seq<u8>| #[trigger] m@.contains_key(p) ==> branch_built_for(entries@, p, m@[p])),
    {
        let mut result: SortedMap<NibblePatriciaTrieNodeBranch> = SortedMap::new();
        assert(result@ =~= Map::<Seq<u8>, NibblePatriciaTrieNodeBranch>::empty());
        let mut i: usize = 0;
        while i < entries.entries.len()
            invariant
                i <= entries.size(),
                entries.wf(),
                result.wf(),
                forall|p: Seq<u8>| #[trigger] result@.contains_key(p) <==> seen_prefix(entries, i as int, 0, p),
                forall|p: Seq<u8>| #[trigger] result@.contains_key(p) ==> {
                    &&& result@[p].wf()
                    &&& result@[p].key_fragment@ == seq![p.last()]
                    &&& forall|n: u8| #[trigger] result@[p].child_key_indices@.contains(n)
                        <==> seen_child(entries, i as int, 0, p, n)
                },
            decreases entries.size() - i,
        {
            let key = &entries.entries[i].0;
            let ghost k = key@;
            let mut j: usize = 1;
            while j < key.len()
                invariant
                    1 <= j,
                    i < entries.size(),
                    k == entries.key_at(i as int),
                    k == key@,
                    entries.wf(),
                    result.wf(),
                    forall|p: Seq<u8>| #[trigger] result@.contains_key(p) <==> seen_prefix(entries, i as int, j as int, p),
                    forall|p: Seq<u8>| #[trigger] result@.contains_key(p) ==> {
                        &&& result@[p].wf()
                        &&& result@[p].key_fragment@ == seq![p.last()]
                        &&& forall|n: u8| #[trigger] result@[p].child_key_indices@.contains(n)
                            <==> seen_child(entries, i as int, j as int, p, n)
                    },
                decreases key@.len() - j,
            {
                let prefix = vstd::slice::slice_subrange(key.as_slice(), 0, j);
                let ghost p = prefix@;
                assert(p =~= k.take(j as int));
                let next = key[j];
                let children = match result.get(prefix) {
                    Some(b) => insert_nibble(&b.child_key_indices, next),
                    None => {
                        let mut c: Vec<Nibble> = Vec::new();
                        c.push(next);
                        c
                    },
                };
                let ghost old_map = result@;
                let mut fragment: Vec<Nibble> = Vec::new();
                fragment.push(key[j - 1]);
                let branch = NibblePatriciaTrieNodeBranch::new(fragment, children);
                result.insert(copy_bytes(prefix), branch);
                assert forall|q: Seq<u8>| #[trigger] result@.contains_key(q) <==> seen_prefix(
                    entries,
                    i as int,
                    j + 1,
                    q,
                ) by {
                    if q == p {
                        assert(is_prefix_of(q, k));
                    } else if q.len() == j && q.len() < k.len() && is_prefix_of(q, k) {
                        assert(q =~= k.take(j as int));
                    }
                }
                assert forall|q: Seq<u8>| #[trigger] result@.contains_key(q) implies {
                    &&& result@[q].wf()
                    &&& result@[q].key_fragment@ == seq![q.last()]
                    &&& forall|n: u8| #[trigger] result@[q].child_key_indices@.contains(n)
                        <==> seen_child(entries, i as int, j + 1, q, n)
                } by {
                    if q == p {
                        assert(result@[q].key_fragment@ =~= seq![q.last()]);
                        assert forall|n: u8| #[trigger] result@[q].child_key_indices@.contains(n)
                            <==> seen_child(entries, i as int, j + 1, q, n) by {
                            assert(is_prefix_of(q, k));
                            assert(k[j as int] == next);
                            assert(seen_child(entries, i as int, j + 1, q, n) <==> (seen_child(
                                entries,
                                i as int,
                                j as int,
                                q,
                                n,
                            ) || n == next));
                            if old_map.contains_key(q) {
                                assert(old_map[q].child_key_indices@.contains(n) <==> seen_child(entries, i as int, j as int, q, n));
                            } else {
                                if seen_child(entries, i as int, j as int, q, n) {
                                    assert(seen_prefix(entries, i as int, j as int, q));
                                }
                                assert(result@[q].child_key_indices@ =~= seq![next]);
                                if n == next {
                                    assert(result@[q].child_key_indices@[0] == n);
                                }
                            }
                        }
                    } else {
                        assert(old_map.contains_key(q));
                        assert(result@[q] == old_map[q]);
                        assert forall|n: u8| #[trigger] result@[q].child_key_indices@.contains(n)
                            <==> seen_child(entries, i as int, j + 1, q, n) by {
                            if q.len() == j && q.len() < k.len() && is_prefix_of(q, k) {
                                assert(q =~= k.take(j as int));
                            }
                            assert(old_map[q].child_key_indices@.contains(n) <==> seen_child(entries, i as int, j as int, q, n));
                        }
                    }
                }
                j += 1;
            }
            assert forall|p: Seq<u8>| #[trigger] result@.contains_key(p) <==> seen_prefix(entries, i + 1, 0, p) by {
                if seen_prefix(entries, i as int, j as int, p) && p.len() < k.len() && is_prefix_of(p, k) {
                    assert(p.len() < entries.key_at(i as int).len());
                }
                if seen_prefix(entries, i + 1, 0, p) {
                    let t = choose|t: int|
                        0 <= t < i + 1 && p.len() < (#[trigger] entries.key_at(t)).len() && is_prefix_of(p, entries.key_at(t));
                    if t < i {
                        assert(seen_prefix(entries, i as int, j as int, p));
                    }
                }
            }
            assert forall|p: Seq<u8>| #[trigger] result@.contains_key(p) implies {
                &&& result@[p].wf()
                &&& result@[p].key_fragment@ == seq![p.last()]
                &&& forall|n: u8| #[trigger] result@[p].child_key_indices@.contains(n)
                    <==> seen_child(entries, i + 1, 0, p, n)
            } by {
                assert forall|n: u8| #[trigger] result@[p].child_key_indices@.contains(n)
                    <==> seen_child(entries, i + 1, 0, p, n) by {
                    assert(result@[p].child_key_indices@.contains(n) <==> seen_child(entries, i as int, j as int, p, n));
                    if seen_child(entries, i as int, j as int, p, n) && p.len() < k.len() && is_prefix_of(p, k)
                        && k[p.len() as int] == n {
                        assert(p.len() < entries.key_at(i as int).len());
                    }
                    if seen_child(entries, i + 1, 0, p, n) {
                        let t = choose|t: int|
                            0 <= t < i + 1 && p.len() < (#[trigger] entries.key_at(t)).len() && is_prefix_of(p, entries.key_at(t))
                                && entries.key_at(t)[p.len() as int] == n;
                        if t < i {
                            assert(seen_child(entries, i as int, j as int, p, n));
                        }
                    }
                }
            }
            i += 1;
        }
        assert forall|p: Seq<u8>| #[trigger] result@.contains_key(p) <==> is_inner_prefix(entries@, p) by {
            if seen_prefix(entries, i as int, 0, p) {
                let t = choose|t: int|
                    0 <= t < i && p.len() < (#[trigger] entries.key_at(t)).len() && is_prefix_of(p, entries.key_at(t));
                entries.lemma_index_of(t);
            }
            if is_inner_prefix(entries@, p) {
                let k = choose|k: Seq<u8>| #[trigger] entries@.contains_key(k) && p.len() < k.len() && is_prefix_of(p, k);
                let t = entries.index_of(k);
                assert(entries.key_at(t) == k);
            }
        }
        assert forall|p: Seq<u8>| #[trigger] result@.contains_key(p) implies branch_built_for(entries@, p, result@[p]) by {
            assert forall|n: u8| #[trigger] result@[p].child_key_indices@.contains(n) <==> continues_with(entries@, p, n) by {
                if seen_child(entries, i as int, 0, p, n) {
                    let t = choose|t: int|
                        0 <= t < i && p.len() < (#[trigger] entries.key_at(t)).len() && is_prefix_of(p, entries.key_at(t))
                            && entries.key_at(t)[p.len() as int] == n;
                    entries.lemma_index_of(t);
                }
                if continues_with(entries@, p, n) {
                    let k = choose|k: Seq<u8>|
                        #[trigger] entries@.contains_key(k) && p.len() < k.len() && is_prefix_of(p, k) && k[p.len() as int] == n;
                    let t = entries.index_of(k);
                    assert(entries.key_at(t) == k);
                }
            }
        }
        Ok(result)
    }
}

/// In the branches built for a set of keys, every child of a branch leads,
/// one nibble deeper, to another built branch or to one of the keys.
pub proof fn law_built_children_lead_down<V>(
    keys: Map<Seq<u8>, V>,
    built: Map<Seq<u8>, NibblePatriciaTrieNodeBranch>,
    p: Seq<u8>,
    n: u8,
)
    requires
        forall|q: Seq<u8>| #[trigger] built.contains_key(q) <==> is_inner_prefix(keys, q),
        forall|q: Seq<u8>| #[trigger] built.contains_key(q) ==> branch_built_for(keys, q, built[q]),
        built.contains_key(p),
        built[p].child_key_indices@.contains(n),
    ensures
        built.contains_key(p.push(n)) || keys.contains_key(p.push(n)),
{
    assert(continues_with(keys, p, n));
    let k = choose|k: Seq<u8>|
        #[trigger] keys.contains_key(k) && p.len() < k.len() && is_prefix_of(p, k) && k[p.len() as int] == n;
    let c = p.push(n);
    assert(k.take(c.len() as int) =~= c) by {
        assert(k.take(p.len() as int) =~= p);
    }
    if c.len() < k.len() {
        assert(is_inner_prefix(keys, c));
    } else {
        assert(k =~= c);
    }
}

} // verus!
