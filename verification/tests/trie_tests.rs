use std::collections::BTreeMap;

use interliquid_sdk::trie::{
    leaf_parent_key, Nibble, NibblePatriciaTrieDb, NibblePatriciaTrieError, NibblePatriciaTrieMemoryDb,
    NibblePatriciaTrieNode, NibblePatriciaTrieNodeBranch, NibblePatriciaTrieNodeLeaf, NibblePatriciaTrieRootPath,
};
use interliquid_sdk::utils::sorted_map::SortedMap;

struct TestTrie {
    entries: BTreeMap<Vec<Nibble>, Vec<u8>>,
    nodes: BTreeMap<Vec<Nibble>, NibblePatriciaTrieNode>,
    hashes: BTreeMap<Vec<Nibble>, [u8; 32]>,
    hash_db: NibblePatriciaTrieMemoryDb,
}

impl TestTrie {
    fn get_node(&self, key: &[Nibble]) -> Result<NibblePatriciaTrieNode, NibblePatriciaTrieError> {
        self.nodes.get(key).cloned().ok_or(NibblePatriciaTrieError::NotFound)
    }

    fn get_child_node_fragment_and_hash(
        &self,
        key: &[Nibble],
        index: Nibble,
    ) -> Result<(Vec<Nibble>, [u8; 32]), NibblePatriciaTrieError> {
        let mut prefix = key.to_vec();
        prefix.push(index);
        for (k, h) in self.hashes.iter() {
            if k.starts_with(&prefix) {
                return Ok((k[key.len()..].to_vec(), *h));
            }
        }
        Err(NibblePatriciaTrieError::NotFound)
    }

    fn set_hash(&mut self, key: &[Nibble], hash: [u8; 32]) {
        self.hashes.insert(key.to_vec(), hash);
        self.hash_db.set(key, &hash[..]);
    }
}

fn keys(list: &[Vec<Nibble>]) -> SortedMap<()> {
    let mut m = SortedMap::new();
    for k in list {
        m.insert(k.clone(), ());
    }
    m
}

fn setup_trie_and_db() -> TestTrie {
    let mut trie = TestTrie {
        entries: BTreeMap::new(),
        nodes: BTreeMap::new(),
        hashes: BTreeMap::new(),
        hash_db: NibblePatriciaTrieMemoryDb::new(),
    };
    trie.entries.insert(vec![Nibble::from(1), Nibble::from(2)], b"a".to_vec());
    trie.entries.insert(vec![Nibble::from(1), Nibble::from(3)], b"b".to_vec());
    trie.entries.insert(vec![Nibble::from(2), Nibble::from(2)], b"c".to_vec());

    let leaf_12 = NibblePatriciaTrieNodeLeaf::new(vec![Nibble::from(2)], b"a".to_vec());
    let leaf_13 = NibblePatriciaTrieNodeLeaf::new(vec![Nibble::from(3)], b"b".to_vec());
    let leaf_22 = NibblePatriciaTrieNodeLeaf::new(vec![Nibble::from(2), Nibble::from(2)], b"c".to_vec());
    let branch_1 = NibblePatriciaTrieNodeBranch::new(vec![Nibble::from(1)], vec![Nibble::from(2), Nibble::from(3)]);
    let root = NibblePatriciaTrieNodeBranch::new(vec![], vec![Nibble::from(1), Nibble::from(2)]);

    trie.set_hash(&[1, 2], leaf_12.hash());
    trie.nodes.insert(vec![1, 2], NibblePatriciaTrieNode::Leaf(leaf_12));
    trie.set_hash(&[1, 3], leaf_13.hash());
    trie.nodes.insert(vec![1, 3], NibblePatriciaTrieNode::Leaf(leaf_13));
    trie.set_hash(&[2, 2], leaf_22.hash());
    trie.nodes.insert(vec![2, 2], NibblePatriciaTrieNode::Leaf(leaf_22));

    let hashes = trie.hashes.clone();
    let branch_1_hash = branch_1
        .hash(|nib: &Nibble| {
            let child_key = match *nib {
                2 => vec![1u8, 2],
                3 => vec![1u8, 3],
                _ => return None,
            };
            Some(*hashes.get(&child_key).unwrap())
        })
        .unwrap();
    trie.set_hash(&[1], branch_1_hash);
    trie.nodes.insert(vec![1], NibblePatriciaTrieNode::Branch(branch_1));

    let hashes = trie.hashes.clone();
    let root_hash = root
        .hash(|nib: &Nibble| {
            let child_key = match *nib {
                1 => vec![1u8],
                2 => vec![2u8, 2],
                _ => return None,
            };
            Some(*hashes.get(&child_key).unwrap())
        })
        .unwrap();
    trie.set_hash(&[], root_hash);
    trie.nodes.insert(vec![], NibblePatriciaTrieNode::Branch(root));
    trie
}

#[test]
fn test_build_trie_simple() {
    let mut entries: SortedMap<Vec<u8>> = SortedMap::new();
    entries.insert(vec![Nibble::from(1), Nibble::from(2)], b"a".to_vec());
    entries.insert(vec![Nibble::from(1), Nibble::from(3)], b"b".to_vec());
    entries.insert(vec![Nibble::from(2), Nibble::from(2)], b"c".to_vec());

    let node_map = NibblePatriciaTrieNodeBranch::build_branch_nodes(entries).unwrap();

    assert_eq!(node_map.len(), 2);
    assert_eq!(node_map.get(&[Nibble::from(1)]).unwrap().child_key_indices.len(), 2);
    assert_eq!(node_map.get(&[Nibble::from(2)]).unwrap().child_key_indices.len(), 1);
}

#[test]
fn test_leaf_parent_key() {
    let trie = setup_trie_and_db();
    let get_node = |key: &[Nibble]| trie.get_node(key);

    let (parent_key, _leaf_node) = leaf_parent_key(&vec![Nibble::from(1), Nibble::from(2)], &get_node).unwrap();
    assert_eq!(parent_key, vec![Nibble::from(1)]);

    let (parent_key, _leaf_node) = leaf_parent_key(&vec![Nibble::from(1), Nibble::from(3)], &get_node).unwrap();
    assert_eq!(parent_key, vec![Nibble::from(1)]);

    let (parent_key, _leaf_node) = leaf_parent_key(&vec![Nibble::from(2), Nibble::from(2)], &get_node).unwrap();
    assert_eq!(parent_key, Vec::<Nibble>::new());

    let err = leaf_parent_key(&vec![Nibble::from(2), Nibble::from(3)], &get_node);
    assert!(err.is_err());
}

#[test]
fn test_from_leafs() {
    let trie = setup_trie_and_db();
    let get_node = |key: &[Nibble]| trie.get_node(key);
    let get_child_node_fragment_and_hash =
        |key: &[Nibble], index: Nibble| trie.get_child_node_fragment_and_hash(key, index);

    let leaf_keys = keys(&[vec![Nibble::from(1), Nibble::from(2)]]);
    let proof = NibblePatriciaTrieRootPath::from_leafs(leaf_keys, &get_node, &get_child_node_fragment_and_hash).unwrap();

    assert!(proof.nodes_branch.contains_key(&[Nibble::from(1)]));
    assert!(!proof.nodes_hashed.contains_key(&[Nibble::from(1), Nibble::from(2)]));
    assert!(proof.nodes_hashed.contains_key(&[Nibble::from(1), Nibble::from(3)]));
    assert!(proof.nodes_hashed.contains_key(&[Nibble::from(2), Nibble::from(2)]));
}

#[test]
fn test_verify_non_inclusion() {
    let trie = setup_trie_and_db();
    let get_node = |key: &[Nibble]| trie.get_node(key);
    let get_child_node_fragment_and_hash =
        |key: &[Nibble], index: Nibble| trie.get_child_node_fragment_and_hash(key, index);

    let leaf_keys = keys(&[vec![Nibble::from(1), Nibble::from(3)]]);
    let proof = NibblePatriciaTrieRootPath::from_leafs(leaf_keys, &get_node, &get_child_node_fragment_and_hash).unwrap();

    assert!(proof.verify_non_inclusion(&vec![Nibble::from(1), Nibble::from(4)]).is_ok());
}

#[test]
fn test_inclusion_proof_and_root() {
    let trie = setup_trie_and_db();
    let get_node = |key: &[Nibble]| trie.get_node(key);
    let get_child_node_fragment_and_hash =
        |key: &[Nibble], index: Nibble| trie.get_child_node_fragment_and_hash(key, index);

    let leaf_key = vec![Nibble::from(1), Nibble::from(2)];
    let leaf_keys = keys(&[leaf_key.clone()]);
    let proof = NibblePatriciaTrieRootPath::from_leafs(leaf_keys, &get_node, &get_child_node_fragment_and_hash).unwrap();

    let leaf_value = trie.entries.get(&leaf_key).unwrap();
    let mut leaves = SortedMap::new();
    leaves.insert(leaf_key.clone(), NibblePatriciaTrieNodeLeaf::new(vec![Nibble::from(2)], leaf_value.clone()));
    let root = proof.root(leaves, None::<fn(&Vec<Nibble>, &[u8; 32])>).unwrap();

    let root_hash: [u8; 32] = trie.hash_db.get(&vec![]).unwrap().try_into().unwrap();

    assert_eq!(root, root_hash);
}

#[test]
fn test_verify_iter_completeness() {
    let trie = setup_trie_and_db();
    let get_node = |key: &[Nibble]| trie.get_node(key);
    let get_child_node_fragment_and_hash =
        |key: &[Nibble], index: Nibble| trie.get_child_node_fragment_and_hash(key, index);

    let prefix = vec![Nibble::from(1)];
    let iterated_keys = keys(&[vec![Nibble::from(1), Nibble::from(2)], vec![Nibble::from(1), Nibble::from(3)]]);

    let all_leaf_keys = keys(&[
        vec![Nibble::from(1), Nibble::from(2)],
        vec![Nibble::from(1), Nibble::from(3)],
        vec![Nibble::from(2), Nibble::from(2)],
    ]);

    let proof =
        NibblePatriciaTrieRootPath::from_leafs(all_leaf_keys, &get_node, &get_child_node_fragment_and_hash).unwrap();

    assert!(proof.verify_iter_completeness(&prefix, &iterated_keys).is_ok());

    let incomplete_keys = keys(&[vec![Nibble::from(1), Nibble::from(2)]]);
    assert!(proof.verify_iter_completeness(&prefix, &incomplete_keys).is_err());

    let invalid_keys = keys(&[vec![Nibble::from(1), Nibble::from(2)], vec![Nibble::from(2), Nibble::from(2)]]);
    assert!(proof.verify_iter_completeness(&prefix, &invalid_keys).is_err());

    let empty_prefix: Vec<Nibble> = vec![];
    let all_keys = keys(&[
        vec![Nibble::from(1), Nibble::from(2)],
        vec![Nibble::from(1), Nibble::from(3)],
        vec![Nibble::from(2), Nibble::from(2)],
    ]);
    assert!(proof.verify_iter_completeness(&empty_prefix, &all_keys).is_ok());
}

#[test]
fn from_leafs_without_keys_is_an_empty_proof() {
    let trie = setup_trie_and_db();
    let get_node = |key: &[Nibble]| trie.get_node(key);
    let get_child_node_fragment_and_hash =
        |key: &[Nibble], index: Nibble| trie.get_child_node_fragment_and_hash(key, index);
    let r = NibblePatriciaTrieRootPath::from_leafs(keys(&[]), &get_node, &get_child_node_fragment_and_hash);
    assert!(matches!(r, Err(NibblePatriciaTrieError::EmptyProof)));
}

#[test]
fn non_inclusion_of_a_present_key_is_refused() {
    let trie = setup_trie_and_db();
    let get_node = |key: &[Nibble]| trie.get_node(key);
    let get_child_node_fragment_and_hash =
        |key: &[Nibble], index: Nibble| trie.get_child_node_fragment_and_hash(key, index);
    let proof = NibblePatriciaTrieRootPath::from_leafs(
        keys(&[vec![1, 3]]),
        &get_node,
        &get_child_node_fragment_and_hash,
    )
    .unwrap();
    assert!(matches!(proof.verify_non_inclusion(&[1, 2]), Err(NibblePatriciaTrieError::InvalidProof)));
}

#[test]
fn root_of_a_proof_without_branches_is_empty() {
    let proof = NibblePatriciaTrieRootPath::new(SortedMap::new(), SortedMap::new());
    let r = proof.root(SortedMap::new(), None::<fn(&Vec<Nibble>, &[u8; 32])>);
    assert!(matches!(r, Err(NibblePatriciaTrieError::EmptyProof)));
}

#[test]
fn root_with_a_changed_leaf_value_differs() {
    let trie = setup_trie_and_db();
    let get_node = |key: &[Nibble]| trie.get_node(key);
    let get_child_node_fragment_and_hash =
        |key: &[Nibble], index: Nibble| trie.get_child_node_fragment_and_hash(key, index);
    let proof = NibblePatriciaTrieRootPath::from_leafs(
        keys(&[vec![1, 2]]),
        &get_node,
        &get_child_node_fragment_and_hash,
    )
    .unwrap();
    let mut leaves = SortedMap::new();
    leaves.insert(vec![1, 2], NibblePatriciaTrieNodeLeaf::new(vec![2], b"z".to_vec()));
    let root = proof.root(leaves, None::<fn(&Vec<Nibble>, &[u8; 32])>).unwrap();
    assert_ne!(root.to_vec(), trie.hash_db.get(&[]).unwrap());
}

#[test]
fn leaf_fragment_and_inclusion_leaf_from_a_proof() {
    let trie = setup_trie_and_db();
    let get_node = |key: &[Nibble]| trie.get_node(key);
    let get_child_node_fragment_and_hash =
        |key: &[Nibble], index: Nibble| trie.get_child_node_fragment_and_hash(key, index);
    let proof = NibblePatriciaTrieRootPath::from_leafs(
        keys(&[vec![1, 2], vec![2, 2]]),
        &get_node,
        &get_child_node_fragment_and_hash,
    )
    .unwrap();
    assert_eq!(proof.leaf_key_fragment_from_path(&[1, 2]).unwrap(), vec![2]);
    assert_eq!(proof.leaf_key_fragment_from_path(&[2, 2]).unwrap(), vec![2, 2]);
    let leaf = proof.node_for_inclusion_proof(&[1, 2], b"a".to_vec()).unwrap();
    assert_eq!(leaf.key_fragment, vec![2]);
    assert_eq!(leaf.value, b"a".to_vec());
}

#[test]
fn memory_db_reads_back_writes() {
    let mut db = NibblePatriciaTrieMemoryDb::new();
    assert_eq!(db.get(&[1, 2]), None);
    db.set(&[1, 2], b"x");
    db.set(&[1], b"y");
    assert_eq!(db.get(&[1, 2]), Some(b"x".to_vec()));
    db.set(&[1, 2], b"z");
    assert_eq!(db.get(&[1, 2]), Some(b"z".to_vec()));
    db.del(&[1, 2]);
    assert_eq!(db.get(&[1, 2]), None);
    assert_eq!(db.get(&[1]), Some(b"y".to_vec()));
}

fn setup_trie_and_db_large() -> TestTrie {
    let mut trie = TestTrie {
        entries: BTreeMap::new(),
        nodes: BTreeMap::new(),
        hashes: BTreeMap::new(),
        hash_db: NibblePatriciaTrieMemoryDb::new(),
    };
    for i in 0..1000 {
        let key = vec![Nibble::from((i / 100) as u8), Nibble::from(((i % 100) / 10) as u8), Nibble::from((i % 10) as u8)];
        let value = format!("value_{}", i).into_bytes();
        trie.entries.insert(key, value);
    }
    let entries = trie.entries.clone();
    for (key, value) in entries.iter() {
        let leaf = NibblePatriciaTrieNodeLeaf::new(vec![key[2]], value.clone());
        trie.set_hash(key, leaf.hash());
        trie.nodes.insert(key.clone(), NibblePatriciaTrieNode::Leaf(leaf));
    }
    let all_children: Vec<Nibble> = (0..10u8).collect();
    for i in 0..10u8 {
        for j in 0..10u8 {
            let branch = NibblePatriciaTrieNodeBranch::new(vec![j], all_children.clone());
            let hashes = trie.hashes.clone();
            let branch_hash = branch.hash(|nib: &Nibble| Some(*hashes.get(&vec![i, j, *nib]).unwrap())).unwrap();
            trie.set_hash(&[i, j], branch_hash);
            trie.nodes.insert(vec![i, j], NibblePatriciaTrieNode::Branch(branch));
        }
    }
    for i in 0..10u8 {
        let branch = NibblePatriciaTrieNodeBranch::new(vec![i], all_children.clone());
        let hashes = trie.hashes.clone();
        let branch_hash = branch.hash(|nib: &Nibble| Some(*hashes.get(&vec![i, *nib]).unwrap())).unwrap();
        trie.set_hash(&[i], branch_hash);
        trie.nodes.insert(vec![i], NibblePatriciaTrieNode::Branch(branch));
    }
    let root = NibblePatriciaTrieNodeBranch::new(vec![], all_children.clone());
    let hashes = trie.hashes.clone();
    let root_hash = root.hash(|nib: &Nibble| Some(*hashes.get(&vec![*nib]).unwrap())).unwrap();
    trie.set_hash(&[], root_hash);
    trie.nodes.insert(vec![], NibblePatriciaTrieNode::Branch(root));
    trie
}

#[test]
fn test_leaf_parent_key_large() {
    let trie = setup_trie_and_db_large();
    let get_node = |key: &[Nibble]| trie.get_node(key);

    let (parent_key, _leaf_node) =
        leaf_parent_key(&vec![Nibble::from(1), Nibble::from(2), Nibble::from(3)], &get_node).unwrap();
    assert_eq!(parent_key, vec![Nibble::from(1), Nibble::from(2)]);

    let (parent_key, _leaf_node) =
        leaf_parent_key(&vec![Nibble::from(1), Nibble::from(3), Nibble::from(4)], &get_node).unwrap();
    assert_eq!(parent_key, vec![Nibble::from(1), Nibble::from(3)]);

    let (parent_key, _leaf_node) =
        leaf_parent_key(&vec![Nibble::from(2), Nibble::from(2), Nibble::from(3)], &get_node).unwrap();
    assert_eq!(parent_key, vec![Nibble::from(2), Nibble::from(2)]);

    let err = leaf_parent_key(&vec![Nibble::from(2), Nibble::from(3)], &get_node);
    assert!(err.is_err());
}

#[test]
fn test_inclusion_proof_and_root_large() {
    let trie = setup_trie_and_db_large();
    let get_node = |key: &[Nibble]| trie.get_node(key);
    let get_child_node_fragment_and_hash =
        |key: &[Nibble], index: Nibble| trie.get_child_node_fragment_and_hash(key, index);

    let leaf_key = vec![Nibble::from(1), Nibble::from(2), Nibble::from(3)];
    let proof =
        NibblePatriciaTrieRootPath::from_leafs(keys(&[leaf_key.clone()]), &get_node, &get_child_node_fragment_and_hash)
            .unwrap();

    let leaf_value = trie.entries.get(&leaf_key).unwrap();
    let leaf_node = NibblePatriciaTrieNodeLeaf::new(vec![Nibble::from(3)], leaf_value.clone());
    let mut leaves = SortedMap::new();
    leaves.insert(leaf_key.clone(), leaf_node);
    let root = proof.root(leaves, None::<fn(&Vec<Nibble>, &[u8; 32])>).unwrap();

    let root_hash: [u8; 32] = trie.hash_db.get(&vec![]).unwrap().try_into().unwrap();
    assert_eq!(root, root_hash);
}

#[test]
fn test_verify_iter_completeness_large() {
    let trie = setup_trie_and_db_large();
    let get_node = |key: &[Nibble]| trie.get_node(key);
    let get_child_node_fragment_and_hash =
        |key: &[Nibble], index: Nibble| trie.get_child_node_fragment_and_hash(key, index);

    let prefix = vec![Nibble::from(1), Nibble::from(2)];
    let mut iterated_keys = SortedMap::new();
    for i in 0..10u8 {
        iterated_keys.insert(vec![Nibble::from(1), Nibble::from(2), Nibble::from(i)], ());
    }

    let mut proof_leaf_keys = SortedMap::new();
    for i in 0..10u8 {
        proof_leaf_keys.insert(vec![Nibble::from(1), Nibble::from(2), Nibble::from(i)], ());
    }
    for i in 0..10u8 {
        proof_leaf_keys.insert(vec![Nibble::from(1), Nibble::from(3), Nibble::from(i)], ());
    }

    let proof =
        NibblePatriciaTrieRootPath::from_leafs(proof_leaf_keys, &get_node, &get_child_node_fragment_and_hash).unwrap();

    assert!(proof.verify_iter_completeness(&prefix, &iterated_keys).is_ok());

    let mut incomplete_keys = SortedMap::new();
    for i in 0..10u8 {
        if i != 5 {
            incomplete_keys.insert(vec![Nibble::from(1), Nibble::from(2), Nibble::from(i)], ());
        }
    }
    assert!(proof.verify_iter_completeness(&prefix, &incomplete_keys).is_err());

    let mut invalid_keys = SortedMap::new();
    for i in 0..10u8 {
        invalid_keys.insert(vec![Nibble::from(1), Nibble::from(2), Nibble::from(i)], ());
    }
    invalid_keys.insert(vec![Nibble::from(1), Nibble::from(3), Nibble::from(0)], ());
    assert!(proof.verify_iter_completeness(&prefix, &invalid_keys).is_err());
}

fn setup_deep_trie() -> TestTrie {
    let mut trie = TestTrie {
        entries: BTreeMap::new(),
        nodes: BTreeMap::new(),
        hashes: BTreeMap::new(),
        hash_db: NibblePatriciaTrieMemoryDb::new(),
    };
    let leaf_15 = NibblePatriciaTrieNodeLeaf::new(vec![1, 5], b"x".to_vec());
    let leaf_250 = NibblePatriciaTrieNodeLeaf::new(vec![0], b"y".to_vec());
    let leaf_251 = NibblePatriciaTrieNodeLeaf::new(vec![1], b"z".to_vec());
    let branch_25 = NibblePatriciaTrieNodeBranch::new(vec![2, 5], vec![0, 1]);
    let root = NibblePatriciaTrieNodeBranch::new(vec![], vec![1, 2]);
    trie.set_hash(&[1, 5], leaf_15.hash());
    trie.nodes.insert(vec![1, 5], NibblePatriciaTrieNode::Leaf(leaf_15));
    trie.set_hash(&[2, 5, 0], leaf_250.hash());
    trie.nodes.insert(vec![2, 5, 0], NibblePatriciaTrieNode::Leaf(leaf_250));
    trie.set_hash(&[2, 5, 1], leaf_251.hash());
    trie.nodes.insert(vec![2, 5, 1], NibblePatriciaTrieNode::Leaf(leaf_251));
    trie.set_hash(&[2, 5], [25u8; 32]);
    trie.nodes.insert(vec![2, 5], NibblePatriciaTrieNode::Branch(branch_25));
    trie.nodes.insert(vec![], NibblePatriciaTrieNode::Branch(root));
    trie
}

#[test]
fn iteration_missing_a_deeper_key_is_refused() {
    let trie = setup_deep_trie();
    let get_node = |key: &[Nibble]| trie.get_node(key);
    let get_child = |key: &[Nibble], index: Nibble| trie.get_child_node_fragment_and_hash(key, index);
    let all = keys(&[vec![1, 5], vec![2, 5, 0], vec![2, 5, 1]]);
    let proof = NibblePatriciaTrieRootPath::from_leafs(all, &get_node, &get_child).unwrap();
    assert!(proof.nodes_branch.contains_key(&[]));
    assert!(proof.nodes_branch.contains_key(&[2, 5]));

    let empty_prefix: Vec<Nibble> = vec![];
    let complete = keys(&[vec![1, 5], vec![2, 5, 0], vec![2, 5, 1]]);
    assert!(proof.verify_iter_completeness(&empty_prefix, &complete).is_ok());
    let missing = keys(&[vec![1, 5], vec![2, 5, 0]]);
    assert!(proof.verify_iter_completeness(&empty_prefix, &missing).is_err());
    let missing_shallow = keys(&[vec![2, 5, 0], vec![2, 5, 1]]);
    assert!(proof.verify_iter_completeness(&empty_prefix, &missing_shallow).is_err());
    let under_prefix = keys(&[vec![2, 5, 0], vec![2, 5, 1]]);
    assert!(proof.verify_iter_completeness(&[2], &under_prefix).is_ok());
    let under_prefix_missing = keys(&[vec![2, 5, 1]]);
    assert!(proof.verify_iter_completeness(&[2], &under_prefix_missing).is_err());
}

#[test]
fn from_leafs_keeps_every_parent_on_the_path() {
    let trie = setup_deep_trie();
    let get_node = |key: &[Nibble]| trie.get_node(key);
    let get_child = |key: &[Nibble], index: Nibble| trie.get_child_node_fragment_and_hash(key, index);
    let proof = NibblePatriciaTrieRootPath::from_leafs(keys(&[vec![1, 5], vec![2, 5, 1]]), &get_node, &get_child).unwrap();
    assert!(proof.nodes_branch.contains_key(&[]));
    assert!(proof.nodes_branch.contains_key(&[2, 5]));
    assert!(proof.nodes_hashed.contains_key(&[2, 5, 0]));
    assert!(!proof.nodes_hashed.contains_key(&[2, 5, 1]));
    assert!(!proof.nodes_hashed.contains_key(&[1, 5]));
}

fn node_hash(nodes: &BTreeMap<Vec<Nibble>, NibblePatriciaTrieNode>, key: &[Nibble]) -> [u8; 32] {
    match nodes.get(key).unwrap() {
        NibblePatriciaTrieNode::Leaf(l) => l.hash(),
        NibblePatriciaTrieNode::Branch(b) => b
            .hash(|nib: &Nibble| {
                let mut prefix = key.to_vec();
                prefix.push(*nib);
                let child = nodes.keys().find(|k| k.starts_with(&prefix))?;
                Some(node_hash(nodes, child))
            })
            .unwrap(),
    }
}

fn trie_from_nodes(nodes: Vec<(Vec<Nibble>, NibblePatriciaTrieNode)>) -> TestTrie {
    let mut trie = TestTrie {
        entries: BTreeMap::new(),
        nodes: nodes.into_iter().collect(),
        hashes: BTreeMap::new(),
        hash_db: NibblePatriciaTrieMemoryDb::new(),
    };
    let node_keys: Vec<Vec<Nibble>> = trie.nodes.keys().cloned().collect();
    for k in node_keys {
        let h = node_hash(&trie.nodes, &k);
        trie.set_hash(&k, h);
    }
    trie
}

#[test]
fn inclusion_proof_of_leaves_at_different_depths_gives_the_root() {
    let leaf = |frag: Vec<Nibble>, v: &[u8]| NibblePatriciaTrieNode::Leaf(NibblePatriciaTrieNodeLeaf::new(frag, v.to_vec()));
    let branch = |frag: Vec<Nibble>, children: Vec<Nibble>| {
        NibblePatriciaTrieNode::Branch(NibblePatriciaTrieNodeBranch::new(frag, children))
    };
    let trie = trie_from_nodes(vec![
        (vec![], branch(vec![], vec![1, 2])),
        (vec![1, 1], branch(vec![1, 1], vec![3, 4])),
        (vec![1, 1, 3], leaf(vec![3], b"a")),
        (vec![1, 1, 4], leaf(vec![4], b"b")),
        (vec![2, 2], branch(vec![2, 2], vec![5, 7])),
        (vec![2, 2, 5, 5], branch(vec![5, 5], vec![0, 1])),
        (vec![2, 2, 5, 5, 0], leaf(vec![0], b"c")),
        (vec![2, 2, 5, 5, 1], leaf(vec![1], b"d")),
        (vec![2, 2, 7], leaf(vec![7], b"e")),
    ]);
    let get_node = |key: &[Nibble]| trie.get_node(key);
    let get_child = |key: &[Nibble], index: Nibble| trie.get_child_node_fragment_and_hash(key, index);
    let proof =
        NibblePatriciaTrieRootPath::from_leafs(keys(&[vec![1, 1, 3], vec![2, 2, 5, 5, 0]]), &get_node, &get_child).unwrap();
    for k in [vec![], vec![1, 1], vec![2, 2], vec![2, 2, 5, 5]] {
        assert!(proof.nodes_branch.contains_key(&k));
    }
    for k in [vec![1, 1, 4], vec![2, 2, 5, 5, 1], vec![2, 2, 7]] {
        assert!(proof.nodes_hashed.contains_key(&k));
    }

    let mut leaves = SortedMap::new();
    leaves.insert(vec![1, 1, 3], NibblePatriciaTrieNodeLeaf::new(vec![3], b"a".to_vec()));
    leaves.insert(vec![2, 2, 5, 5, 0], NibblePatriciaTrieNodeLeaf::new(vec![0], b"c".to_vec()));
    let root = proof.root(leaves, None::<fn(&Vec<Nibble>, &[u8; 32])>).unwrap();
    assert_eq!(root, trie.hashes[&vec![]]);

    let mut changed = SortedMap::new();
    changed.insert(vec![1, 1, 3], NibblePatriciaTrieNodeLeaf::new(vec![3], b"A".to_vec()));
    changed.insert(vec![2, 2, 5, 5, 0], NibblePatriciaTrieNodeLeaf::new(vec![0], b"c".to_vec()));
    assert_ne!(proof.root(changed, None::<fn(&Vec<Nibble>, &[u8; 32])>).unwrap(), trie.hashes[&vec![]]);
}

#[test]
fn iteration_missing_a_leaf_below_a_branch_above_the_prefix_is_refused() {
    let leaf = |frag: Vec<Nibble>, v: &[u8]| NibblePatriciaTrieNode::Leaf(NibblePatriciaTrieNodeLeaf::new(frag, v.to_vec()));
    let branch = |frag: Vec<Nibble>, children: Vec<Nibble>| {
        NibblePatriciaTrieNode::Branch(NibblePatriciaTrieNodeBranch::new(frag, children))
    };
    let trie = trie_from_nodes(vec![
        (vec![], branch(vec![], vec![1, 5])),
        (vec![1], branch(vec![1], vec![2, 3])),
        (vec![1, 2, 3], leaf(vec![2, 3], b"a")),
        (vec![1, 3], leaf(vec![3], b"b")),
        (vec![5], leaf(vec![5], b"c")),
    ]);
    let get_node = |key: &[Nibble]| trie.get_node(key);
    let get_child = |key: &[Nibble], index: Nibble| trie.get_child_node_fragment_and_hash(key, index);
    let proof = NibblePatriciaTrieRootPath::from_leafs(keys(&[vec![1, 3]]), &get_node, &get_child).unwrap();
    assert!(proof.nodes_branch.contains_key(&[]));
    assert!(proof.nodes_branch.contains_key(&[1]));
    assert!(proof.nodes_hashed.contains_key(&[1, 2, 3]));
    assert!(proof.nodes_hashed.contains_key(&[5]));
    assert!(!proof.nodes_hashed.contains_key(&[1, 3]));

    let empty = keys(&[]);
    assert!(proof.verify_iter_completeness(&[1, 2], &empty).is_err());
    assert!(proof.verify_iter_completeness(&[1, 2], &keys(&[vec![1, 2, 3]])).is_ok());
    assert!(proof.verify_iter_completeness(&[1, 2, 9], &empty).is_ok());
    assert!(proof.verify_iter_completeness(&[5], &empty).is_err());
    assert!(proof.verify_iter_completeness(&[7], &empty).is_ok());
}

#[test]
fn from_leafs_fails_with_the_error_of_a_lookup_it_asks() {
    let trie = setup_trie_and_db();
    let get_node = |key: &[Nibble]| trie.get_node(key);
    let failing_child =
        |_key: &[Nibble], _index: Nibble| -> Result<(Vec<Nibble>, [u8; 32]), NibblePatriciaTrieError> { Err(NibblePatriciaTrieError::InvalidProof) };
    let r = NibblePatriciaTrieRootPath::from_leafs(keys(&[vec![1, 2]]), &get_node, &failing_child);
    assert!(matches!(r, Err(NibblePatriciaTrieError::InvalidProof)));
    let missing = |key: &[Nibble]| trie.get_node(key);
    let get_child = |key: &[Nibble], index: Nibble| trie.get_child_node_fragment_and_hash(key, index);
    let r = NibblePatriciaTrieRootPath::from_leafs(keys(&[vec![3, 3]]), &missing, &get_child);
    assert!(matches!(r, Err(NibblePatriciaTrieError::NotFound)));
}
