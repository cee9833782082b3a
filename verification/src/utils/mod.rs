pub mod indexed_map;
pub mod item;
pub mod key;
pub mod sorted_map;

pub use item::Item;
pub use key::join_keys;
