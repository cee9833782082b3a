pub mod ante;
pub mod msg_add_key;
pub mod msg_create_account;
pub mod msg_del_key;
pub mod types;

pub use msg_add_key::MsgAddKey;
pub use msg_create_account::MsgCreateAccount;
pub use msg_del_key::MsgDelKey;
pub use types::Account;
