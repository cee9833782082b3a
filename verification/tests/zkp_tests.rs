use interliquid_sdk::hash::entire_root;
use sha2::Digest;
use sha2::Sha256;
use interliquid_sdk::zkp::zkp_tx::public_input_tx;
use interliquid_sdk::trie::{Nibble, NibblePatriciaTrieNodeBranch, NibblePatriciaTrieNodeLeaf, NibblePatriciaTrieRootPath};
use interliquid_sdk::types::InterLiquidSdkError;
use interliquid_sdk::utils::sorted_map::SortedMap;
use interliquid_sdk::zkp::diff::StateDiff;
use interliquid_sdk::zkp::trie::{leaf_key_fragment_from_path, node_for_inclusion_proof};
use interliquid_sdk::zkp::zkp_block::{circuit_block, WitnessBlock};
use interliquid_sdk::zkp::zkp_commit_keys::{circuit_commit_keys, WitnessCommitKeys};
use interliquid_sdk::zkp::zkp_commit_state::{circuit_commit_state, WitnessCommitState};
use interliquid_sdk::zkp::zkp_tx_agg::{circuit_tx_agg, WitnessTxAgg};

fn concat(a: &[u8], b: &[u8]) -> Vec<u8> {
    let mut v = a.to_vec();
    v.extend_from_slice(b);
    v
}

#[test]
fn block_entire_roots_hash_state_then_keys() {
    let w = WitnessBlock::new([9; 32], [1; 32], [2; 32], [3; 32], [4; 32], [5; 32], vec![], vec![], vec![]);
    let p = circuit_block(w).unwrap();
    assert_eq!(p.txs_root, [9; 32]);
    assert_eq!(p.entire_root_prev, sha256(&concat(&[1; 32], &[3; 32])));
    assert_eq!(p.entire_root_next, entire_root(&[2; 32], &[4; 32]));
    assert_ne!(p.entire_root_prev, p.entire_root_next);
}

#[test]
fn tx_agg_joins_the_halves() {
    let w = WitnessTxAgg::new([1; 32], [2; 32], [3; 32], [4; 32], [5; 32], [6; 32], [7; 32], vec![1], vec![2]);
    let p = circuit_tx_agg(w).unwrap();
    assert_eq!(p.txs_root, sha256(&concat(&[1; 32], &[2; 32])));
    assert_eq!(p.env_hash, [3; 32]);
    assert_eq!(p.accum_diffs_hash_left_prev, [4; 32]);
    assert_eq!(p.accum_diffs_hash_right_next, [6; 32]);
    assert_eq!(p.entire_root, [7; 32]);
}

/// A trie over two leaves under one root branch, with the leaves at the
/// nibbles of the byte keys `a` and `b` (which differ in their first
/// nibble), values `va` and `vb`.
fn two_leaf_root(ka: &[Nibble], va: &[u8], kb: &[Nibble], vb: &[u8]) -> [u8; 32] {
    let la = NibblePatriciaTrieNodeLeaf::new(ka.to_vec(), va.to_vec()).hash();
    let lb = NibblePatriciaTrieNodeLeaf::new(kb.to_vec(), vb.to_vec()).hash();
    let root = NibblePatriciaTrieNodeBranch::new(vec![], vec![ka[0], kb[0]]);
    root.hash(|n: &Nibble| if *n == ka[0] { Some(la) } else if *n == kb[0] { Some(lb) } else { None }).unwrap()
}

fn nibbles(bytes: &[u8]) -> Vec<Nibble> {
    interliquid_sdk::trie::nibbles_from_bytes(bytes)
}

#[test]
fn commit_keys_roots_before_and_after() {
    // keys [0x12] and [0x34]: nibbles [1,2] and [3,4]
    let path = || {
        let mut branches = SortedMap::new();
        branches.insert(vec![], NibblePatriciaTrieNodeBranch::new(vec![], vec![1, 3]));
        NibblePatriciaTrieRootPath::new(branches, SortedMap::new())
    };
    let mut logs = SortedMap::new();
    logs.insert(vec![0x12], StateDiff { before: Some(vec![]), after: Some(vec![]) });
    logs.insert(vec![0x34], StateDiff { before: Some(vec![]), after: Some(vec![]) });
    let root = two_leaf_root(&nibbles(&[0x12]), b"", &nibbles(&[0x34]), b"");
    let out = circuit_commit_keys(WitnessCommitKeys::new(root, logs, path()), b"logs").unwrap();
    assert_eq!(out.keys_root_prev, root);
    assert_eq!(out.keys_root_next, root);
    assert_eq!(out.accum_logs_hash_final, sha256(b"logs"));

    let mut logs = SortedMap::new();
    logs.insert(vec![0x12], StateDiff { before: Some(vec![]), after: Some(vec![]) });
    logs.insert(vec![0x34], StateDiff { before: Some(vec![]), after: Some(vec![]) });
    let r = circuit_commit_keys(WitnessCommitKeys::new([0; 32], logs, path()), b"logs");
    assert!(matches!(r, Err(InterLiquidSdkError::Other(_))));
}

#[test]
fn commit_state_hashes_keys_and_checks_the_root_before() {
    let ka = [0x01u8];
    let kb = [0x02u8];
    let ha = sha256(&ka);
    let hb = sha256(&kb);
    let na = nibbles(&ha);
    let nb = nibbles(&hb);
    assert_ne!(na[0], nb[0]);
    let path = || {
        let mut branches = SortedMap::new();
        let mut children = vec![na[0], nb[0]];
        children.sort();
        branches.insert(vec![], NibblePatriciaTrieNodeBranch::new(vec![], children));
        NibblePatriciaTrieRootPath::new(branches, SortedMap::new())
    };
    let diffs = || {
        let mut d = SortedMap::new();
        d.insert(ka.to_vec(), StateDiff { before: Some(b"old".to_vec()), after: Some(b"new".to_vec()) });
        d.insert(kb.to_vec(), StateDiff { before: Some(b"b".to_vec()), after: Some(b"b".to_vec()) });
        d
    };
    let prev = two_leaf_root(&na, b"old", &nb, b"b");
    let next = two_leaf_root(&na, b"new", &nb, b"b");
    let out = circuit_commit_state(WitnessCommitState::new(prev, diffs(), path()), b"diffs").unwrap();
    assert_eq!(out.state_root_prev, prev);
    assert_eq!(out.state_root_next, next);
    assert_eq!(out.accum_diffs_hash_final, sha256(b"diffs"));

    let r = circuit_commit_state(WitnessCommitState::new(next, diffs(), path()), b"diffs");
    assert!(matches!(r, Err(InterLiquidSdkError::Other(_))));

    let empty_path = NibblePatriciaTrieRootPath::new(SortedMap::new(), SortedMap::new());
    let r = circuit_commit_state(WitnessCommitState::new(prev, diffs(), empty_path), b"diffs");
    assert!(matches!(r, Err(InterLiquidSdkError::Trie(_))));
}

#[test]
fn inclusion_leaf_for_a_byte_key() {
    let mut branches = SortedMap::new();
    branches.insert(vec![], NibblePatriciaTrieNodeBranch::new(vec![], vec![1]));
    branches.insert(vec![1], NibblePatriciaTrieNodeBranch::new(vec![1], vec![2]));
    let path = NibblePatriciaTrieRootPath::new(branches, SortedMap::new());
    assert_eq!(leaf_key_fragment_from_path(&path, &[1, 2, 3]).unwrap(), vec![2, 3]);
    let (key, leaf) = node_for_inclusion_proof(&path, &[0x12, 0x30], b"v".to_vec()).unwrap();
    assert_eq!(key, vec![1, 2, 3, 0]);
    assert_eq!(leaf.key_fragment, vec![2, 3, 0]);
    assert_eq!(leaf.value, b"v".to_vec());
    let empty = NibblePatriciaTrieRootPath::new(SortedMap::new(), SortedMap::new());
    assert!(leaf_key_fragment_from_path(&empty, &[1]).is_err());
}

fn sha256(data: &[u8]) -> [u8; 32] {
    sha2::Sha256::digest(data).into()
}

#[test]
fn tx_public_input_hashes_each_part() {
    let state_root = [1u8; 32];
    let keys_root = [2u8; 32];
    let p = public_input_tx(b"tx", b"env", b"prev", b"next", &state_root, &keys_root);
    let h = |b: &[u8]| -> [u8; 32] { Sha256::digest(b).into() };
    assert_eq!(p.tx_hash, h(b"tx"));
    assert_eq!(p.env_hash, h(b"env"));
    assert_eq!(p.accum_logs_hash_prev, h(b"prev"));
    assert_eq!(p.accum_logs_hash_next, h(b"next"));
    let mut both = state_root.to_vec();
    both.extend_from_slice(&keys_root);
    assert_eq!(p.entire_root, h(&both));
    assert_ne!(p.tx_hash, p.env_hash);
}
