pub mod auth;
pub mod bank;
pub mod crypto;
pub mod nft;
