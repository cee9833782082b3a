pub mod keeper;
pub mod module;
pub mod p256;
pub mod verifying_key;

pub use keeper::CryptoKeeper;
pub use module::CryptoModule;
pub use self::p256::VerifyingKeyP256;
pub use verifying_key::VerifyingKey;
