pub mod keeper;
pub mod module;

pub use keeper::{NftKeeper, NftKeeperI};
pub use module::NftModule;
