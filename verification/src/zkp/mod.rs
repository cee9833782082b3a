pub mod diff;
pub mod trie;
pub mod zkp_block;
pub mod zkp_commit_keys;
pub mod zkp_commit_state;
pub mod zkp_tx;
pub mod zkp_tx_agg;
