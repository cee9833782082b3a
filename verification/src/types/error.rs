use vstd::prelude::*;

use crate::trie::NibblePatriciaTrieError;

verus! {

/// The declaration of `p256::ecdsa::Error`, the error that the P-256 key
/// and signature checks give.
#[verifier::external_type_specification]
#[verifier::external_body]
pub struct ExP256Error(p256::ecdsa::Error);

/// The errors of the SDK. Where a variant carries a cause, the cause is a
/// message.
#[derive(Debug)]
pub enum InterLiquidSdkError {
    // Core
    ModuleAlreadyLoaded,
    // General
    InvalidRequest(String),
    NotFound(String),
    AlreadyExists(String),
    Unauthorized(String),
    // Token
    InvalidDenom,
    ZeroAmount,
    DenomMismatch,
    Overflow,
    Underflow,
    DivisionByZero,
    InsufficientBalance,
    // Store
    UnrelatedState,
    // Trie
    Trie(NibblePatriciaTrieError),
    // IO
    Io(String),
    // SEC1
    Sec1,
    // P256
    P256Key(p256::ecdsa::Error),
    // Other
    Other(String),
}

} // verus!
