//! A verified core of the InterLiquid SDK: nibble Patricia trie proofs,
//! 256-bit token arithmetic, storage keys and the zero-knowledge circuit
//! input builders.

pub mod hash;
pub mod trie;
pub mod tx;
pub mod types;
pub mod zkp;
pub mod utils;
pub mod x;
