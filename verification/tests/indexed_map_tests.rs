use interliquid_sdk::utils::indexed_map::{index_updates, IndexUpdate};

fn view(u: &IndexUpdate) -> (bool, Vec<u8>, Vec<u8>) {
    match u {
        IndexUpdate::Del(k) => (false, k.clone(), vec![]),
        IndexUpdate::Put(k, p) => (true, k.clone(), p.clone()),
    }
}

#[test]
fn new_value_sets_every_index() {
    let new_keys = vec![vec![1u8], vec![2u8]];
    let r: Vec<_> = index_updates(None, &new_keys, b"pk").iter().map(view).collect();
    assert_eq!(r, vec![(true, vec![1], b"pk".to_vec()), (true, vec![2], b"pk".to_vec())]);
}

#[test]
fn changed_value_moves_only_changed_indexes() {
    let old_keys = vec![vec![1u8], vec![5u8]];
    let new_keys = vec![vec![1u8], vec![6u8]];
    let r: Vec<_> = index_updates(Some(&old_keys), &new_keys, b"pk").iter().map(view).collect();
    assert_eq!(r, vec![(false, vec![5], vec![]), (true, vec![6], b"pk".to_vec())]);
}

#[test]
fn unchanged_value_needs_no_index_update() {
    let keys = vec![vec![1u8], vec![2u8]];
    assert!(index_updates(Some(&keys), &keys, b"pk").is_empty());
}
