pub mod addrverify;
pub mod sigverify;
pub mod tx;

pub use addrverify::AddrVerifyAnteHandler;
pub use sigverify::{check_signer, verify_signers};
pub use tx::{AuthInfo, SignDoc, StdTx, TxBody};
