pub mod msg;
pub mod tx;

pub use msg::Msg;
pub use tx::Tx;
