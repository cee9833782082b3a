use vstd::prelude::*;

use super::nibble::Nibble;
use crate::hash::{append_bytes, sha256, sha256_spec};
use crate::trie::db::copy_bytes;

verus! {

/// A node of the nibble Patricia trie, stored at the full key of the node.
#[derive(Clone, Debug)]
pub enum NibblePatriciaTrieNode {
    Leaf(NibblePatriciaTrieNodeLeaf),
    Branch(NibblePatriciaTrieNodeBranch),
}

/// A leaf: the last fragment of its key and the stored value.
#[derive(Clone, Debug)]
pub struct NibblePatriciaTrieNodeLeaf {
    pub key_fragment: Vec<Nibble>,
    pub value: Vec<u8>,
}

/// A branch: the fragment of its key below its parent, and the first nibbles
/// of its children's fragments, which index the children (strictly
/// increasing, a set).
#[derive(Clone, Debug)]
pub struct NibblePatriciaTrieNodeBranch {
    pub key_fragment: Vec<Nibble>,
    pub child_key_indices: Vec<Nibble>,
}

/// A sequence of nibbles in strictly increasing order, that is, a set of
/// nibbles in the order of a `BTreeSet`.
pub open spec fn strictly_increasing(s: Seq<u8>) -> bool {
    forall|i: int, j: int| 0 <= i < j < s.len() ==> s[i] < s[j]
}

/// The hash of a leaf: SHA-256 of its key fragment (one byte per nibble)
/// followed by its value.
pub open spec fn leaf_hash_spec(key_fragment: Seq<u8>, value: Seq<u8>) -> Seq<u8> {
    sha256_spec(key_fragment + value)
}

/// The view of an optional hash.
pub open spec fn opt_hash_view(o: Option<[u8; 32]>) -> Option<Seq<u8>> {
    match o {
        Some(h) => Some(h@),
        None => None,
    }
}

/// The views of a sequence of optional hashes.
pub open spec fn hashes_view(hs: Seq<Option<[u8; 32]>>) -> Seq<Option<Seq<u8>>> {
    hs.map_values(|o: Option<[u8; 32]>| opt_hash_view(o))
}

/// The bytes that the children of a branch contribute to its hash: for each
/// child that has a hash, in index order, the index byte and then the hash.
pub open spec fn children_bytes(indices: Seq<u8>, hashes: Seq<Option<Seq<u8>>>) -> Seq<u8>
    decreases indices.len(),
{
    if indices.len() == 0 || hashes.len() == 0 {
        Seq::empty()
    } else {
        let rest = children_bytes(indices.drop_last(), hashes.drop_last());
        match hashes.last() {
            Some(h) => rest + seq![indices.last()] + h,
            None => rest,
        }
    }
}

/// Whether no child has a hash.
pub open spec fn no_child_hash(hashes: Seq<Option<Seq<u8>>>) -> bool {
    forall|j: int| 0 <= j < hashes.len() ==> #[trigger] hashes[j] is None
}

/// The hash of a branch given the hashes of its children (in index order):
/// none when no child has a hash, else SHA-256 of the branch's key fragment
/// followed by the children's bytes.
pub open spec fn branch_hash_spec(
    key_fragment: Seq<u8>,
    indices: Seq<u8>,
    hashes: Seq<Option<Seq<u8>>>,
) -> Option<Seq<u8>> {
    if no_child_hash(hashes) {
        None
    } else {
        Some(sha256_spec(key_fragment + children_bytes(indices, hashes)))
    }
}

impl NibblePatriciaTrieNodeLeaf {
    pub fn new(key_fragment: Vec<Nibble>, value: Vec<u8>) -> (r: Self)
        ensures
            r.key_fragment@ == key_fragment@,
            r.value@ == value@,
    {
        Self { key_fragment, value }
    }

    /// A copy of this leaf.
    pub fn duplicate(&self) -> (r: Self)
        ensures
            r.key_fragment@ == self.key_fragment@,
            r.value@ == self.value@,
    {
        Self {
            key_fragment: copy_bytes(self.key_fragment.as_slice()),
            value: copy_bytes(self.value.as_slice()),
        }
    }

    /// SHA-256 of the key fragment followed by the value.
    pub fn hash(&self) -> (r: [u8; 32])
        ensures
            r@ == leaf_hash_spec(self.key_fragment@, self.value@),
            r@ == sha256_spec(self.key_fragment@ + self.value@),
    {
        let mut buf: Vec<u8> = Vec::new();
        append_bytes(&mut buf, self.key_fragment.as_slice());
        append_bytes(&mut buf, self.value.as_slice());
        assert(buf@ =~= self.key_fragment@ + self.value@);
        sha256(buf.as_slice())
    }
}

impl NibblePatriciaTrieNodeBranch {
    /// Well-formedness: the child indices form a set in increasing order.
    pub open spec fn wf(self) -> bool {
        strictly_increasing(self.child_key_indices@)
    }

    pub fn new(key_fragment: Vec<Nibble>, child_key_indices: Vec<Nibble>) -> (r: Self)
        requires
            strictly_increasing(child_key_indices@),
        ensures
            r.wf(),
            r.key_fragment@ == key_fragment@,
            r.child_key_indices@ == child_key_indices@,
    {
        Self { key_fragment, child_key_indices }
    }

    /// A copy of this branch.
    pub fn duplicate(&self) -> (r: Self)
        ensures
            r.key_fragment@ == self.key_fragment@,
            r.child_key_indices@ == self.child_key_indices@,
    {
        Self {
            key_fragment: copy_bytes(self.key_fragment.as_slice()),
            child_key_indices: copy_bytes(self.child_key_indices.as_slice()),
        }
    }

    /// Whether `index` is one of the child indices.
    pub fn has_child(&self, index: Nibble) -> (r: bool)
        ensures
            r == self.child_key_indices@.contains(index),
    {
        let mut i: usize = 0;
        while i < self.child_key_indices.len()
            invariant
                i <= self.child_key_indices@.len(),
                forall|j: int| 0 <= j < i ==> self.child_key_indices@[j] != index,
            decreases self.child_key_indices@.len() - i,
        {
            if self.child_key_indices[i] == index {
                return true;
            }
            i += 1;
        }
        false
    }

    /// The hash of this branch from the hashes of its children, given in
    /// the order of the child indices.
    pub fn hash_with_child_hashes(&self, child_hashes: &Vec<Option<[u8; 32]>>) -> (r: Option<[u8; 32]>)
        requires
            child_hashes@.len() == self.child_key_indices@.len(),
        ensures
            opt_hash_view(r) == branch_hash_spec(
                self.key_fragment@,
                self.child_key_indices@,
                hashes_view(child_hashes@),
            ),
    {
        let ghost hs = hashes_view(child_hashes@);
        let ghost idx = self.child_key_indices@;
        let mut any = false;
        let mut buf: Vec<u8> = Vec::new();
        append_bytes(&mut buf, self.key_fragment.as_slice());
        assert(Seq::<u8>::empty() + self.key_fragment@ =~= self.key_fragment@);
        assert(idx.take(0).len() == 0);
        let mut i: usize = 0;
        while i < child_hashes.len()
            invariant
                i <= child_hashes@.len(),
                child_hashes@.len() == idx.len(),
                hs == hashes_view(child_hashes@),
                idx == self.child_key_indices@,
                buf@ == self.key_fragment@ + children_bytes(idx.take(i as int), hs.take(i as int)),
                any == exists|j: int| 0 <= j < i && #[trigger] hs[j] is Some,
            decreases child_hashes@.len() - i,
        {
            assert(idx.take(i + 1).drop_last() =~= idx.take(i as int));
            assert(hs.take(i + 1).drop_last() =~= hs.take(i as int));
            assert(idx.take(i + 1).last() == idx[i as int]);
            assert(hs.take(i + 1).last() == hs[i as int]);
            match &child_hashes[i] {
                Some(h) => {
                    any = true;
                    buf.push(self.child_key_indices[i]);
                    append_bytes(&mut buf, h);
                    assert(hs[i as int] == Some(h@));
                    assert(buf@ =~= self.key_fragment@ + children_bytes(idx.take(i + 1), hs.take(i + 1)));
                },
                None => {
                    assert(hs[i as int] is None);
                },
            }
            i += 1;
        }
        assert(idx.take(i as int) =~= idx);
        assert(hs.take(i as int) =~= hs);
        if any {
            Some(sha256(buf.as_slice()))
        } else {
            None
        }
    }

    /// The hash of this branch, asking `child_hash` for the hash of each
    /// child in index order.
    pub fn hash(&self, child_hash: impl Fn(&Nibble) -> Option<[u8; 32]>) -> (r: Option<[u8; 32]>)
        requires
            forall|n: Nibble| #[trigger] child_hash.requires((&n,)),
        ensures
            exists|hs: Seq<Option<[u8; 32]>>|
                #![trigger hashes_view(hs)]
                {
                    &&& hs.len() == self.child_key_indices@.len()
                    &&& forall|j: int|
                        0 <= j < hs.len() ==> child_hash.ensures(
                            (&self.child_key_indices@[j],),
                            #[trigger] hs[j],
                        )
                    &&& opt_hash_view(r) == branch_hash_spec(
                        self.key_fragment@,
                        self.child_key_indices@,
                        hashes_view(hs),
                    )
                },
    {
        let mut hashes: Vec<Option<[u8; 32]>> = Vec::new();
        let mut i: usize = 0;
        while i < self.child_key_indices.len()
            invariant
                i <= self.child_key_indices@.len(),
                hashes@.len() == i,
                forall|n: Nibble| #[trigger] child_hash.requires((&n,)),
                forall|j: int|
                    0 <= j < i ==> child_hash.ensures((&self.child_key_indices@[j],), #[trigger] hashes@[j]),
            decreases self.child_key_indices@.len() - i,
        {
            let h = child_hash(&self.child_key_indices[i]);
            hashes.push(h);
            i += 1;
        }
        let r = self.hash_with_child_hashes(&hashes);
        assert(hashes@.len() == self.child_key_indices@.len());
        r
    }
}

/// The leaf hash binds the key fragment and the value: it is SHA-256 of
/// the fragment followed by the value, and two leaves with different
/// fragments and the same value hash different inputs.
pub proof fn law_leaf_hash_binds_fragment(f1: Seq<u8>, f2: Seq<u8>, v: Seq<u8>)
    requires
        f1 != f2,
    ensures
        leaf_hash_spec(f1, v) == sha256_spec(f1 + v),
        leaf_hash_spec(f2, v) == sha256_spec(f2 + v),
        f1 + v != f2 + v,
{
    if f1 + v == f2 + v {
        assert((f1 + v).len() == f1.len() + v.len());
        assert((f2 + v).len() == f2.len() + v.len());
        assert(f1.len() == f2.len());
        assert(f1 =~= (f1 + v).take(f1.len() as int));
        assert(f2 =~= (f2 + v).take(f2.len() as int));
    }
}

/// The leaf hash binds the value too: two leaves with the same fragment and
/// different values hash different inputs.
pub proof fn law_leaf_hash_binds_value(f: Seq<u8>, v1: Seq<u8>, v2: Seq<u8>)
    requires
        v1 != v2,
    ensures
        leaf_hash_spec(f, v1) == sha256_spec(f + v1),
        f + v1 != f + v2,
{
    if f + v1 == f + v2 {
        assert(v1 =~= (f + v1).skip(f.len() as int));
        assert(v2 =~= (f + v2).skip(f.len() as int));
    }
}

/// The children's contribution to a branch hash, child by child: no
/// children contribute nothing; a child with a hash adds its index byte and
/// then its hash; a child without a hash adds nothing.
pub proof fn law_children_bytes_step(indices: Seq<u8>, hashes: Seq<Option<Seq<u8>>>, c: u8, h: Seq<u8>)
    requires
        indices.len() == hashes.len(),
    ensures
        children_bytes(Seq::empty(), Seq::empty()) == Seq::<u8>::empty(),
        children_bytes(indices.push(c), hashes.push(Some(h))) == children_bytes(indices, hashes) + seq![c] + h,
        children_bytes(indices.push(c), hashes.push(None)) == children_bytes(indices, hashes),
{
    assert(indices.push(c).drop_last() =~= indices);
    assert(hashes.push(Some(h)).drop_last() =~= hashes);
    assert(hashes.push(None::<Seq<u8>>).drop_last() =~= hashes);
}

/// A branch hash is SHA-256 of the branch's key fragment followed by the
/// children's bytes when some child has a hash, and there is none when no
/// child has one; in particular a branch with one hashed child `c` hashes
/// its fragment, `c` and the child's hash.
pub proof fn law_branch_hash_shape(f: Seq<u8>, indices: Seq<u8>, hashes: Seq<Option<Seq<u8>>>, c: u8, h: Seq<u8>)
    requires
        indices.len() == hashes.len(),
    ensures
        (forall|j: int| 0 <= j < hashes.len() ==> #[trigger] hashes[j] is None) ==> branch_hash_spec(f, indices, hashes)
            is None,
        (exists|j: int| 0 <= j < hashes.len() && #[trigger] hashes[j] is Some) ==> branch_hash_spec(f, indices, hashes)
            == Some(sha256_spec(f + children_bytes(indices, hashes))),
        branch_hash_spec(f, seq![c], seq![Some(h)]) == Some(sha256_spec(f + seq![c] + h)),
{
    law_children_bytes_step(Seq::empty(), Seq::empty(), c, h);
    assert(Seq::<u8>::empty().push(c) =~= seq![c]);
    assert(Seq::<Option<Seq<u8>>>::empty().push(Some(h)) =~= seq![Some(h)]);
    assert(!no_child_hash(seq![Some(h)])) by {
        assert(seq![Some(h)][0] is Some);
    }
    assert(f + (Seq::<u8>::empty() + seq![c] + h) =~= f + seq![c] + h);
}

} // verus!
