pub mod branches;
pub mod db;
pub mod error;
pub mod inclusion;
pub mod key;
pub mod nibble;
pub mod node;
pub mod root_path;

pub use db::{NibblePatriciaTrieDb, NibblePatriciaTrieMemoryDb};
pub use error::NibblePatriciaTrieError;
pub use key::{leaf_parent_key, search_near_leaf_parent_key};
pub use nibble::{nibbles_from_bytes, Nibble};
pub use node::{NibblePatriciaTrieNode, NibblePatriciaTrieNodeBranch, NibblePatriciaTrieNodeLeaf};
pub use root_path::NibblePatriciaTrieRootPath;
