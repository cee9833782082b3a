use p256::ecdsa::signature::Verifier;
use vstd::prelude::*;

use super::verifying_key::VerifyingKey;
use crate::types::InterLiquidSdkError;

verus! {

/// Whether the 64-byte P-256 ECDSA signature `sig` (r then s) of `msg`,
/// hashed with SHA-256, verifies under the SEC1-encoded public key `key`.
pub uninterp spec fn p256_signature_valid(key: Seq<u8>, msg: Seq<u8>, sig: Seq<u8>) -> bool;

/// `p256::EncodedPoint::from_bytes`, `p256::ecdsa::VerifyingKey::
/// from_encoded_point`, `p256::ecdsa::Signature::from_bytes` and the
/// verifying key's `Verifier::verify`, in that order: the contract claims
/// that it succeeds exactly when the signature verifies (a decision that
/// depends on the three byte strings alone), and that a failure to decode
/// the point or the signature gives `Sec1` and any other failure
/// `P256Key`. Which of the two a failure gives is not stated.
#[verifier::external_body]
fn p256_verify(key: &[u8; 33], msg: &[u8], sig: &[u8]) -> (r: Result<(), InterLiquidSdkError>)
    requires
        sig@.len() == 64,
    ensures
        r is Ok <==> p256_signature_valid(key@, msg@, sig@),
        r matches Err(e) ==> (e is Sec1 || e is P256Key),
{
    let point = p256::EncodedPoint::from_bytes(key).map_err(|_| InterLiquidSdkError::Sec1)?;
    let vk = p256::ecdsa::VerifyingKey::from_encoded_point(&point).map_err(InterLiquidSdkError::P256Key)?;
    let signature = p256::ecdsa::Signature::from_bytes(sig.into()).map_err(|_| InterLiquidSdkError::Sec1)?;
    vk.verify(msg, &signature).map_err(InterLiquidSdkError::P256Key)
}

/// A P-256 verifying key, as its compressed SEC1 encoding (33 bytes).
#[derive(Clone, Debug)]
pub struct VerifyingKeyP256 {
    key: [u8; 33],
}

impl VerifyingKeyP256 {
    /// The compressed public key bytes.
    pub closed spec fn key_bytes(&self) -> Seq<u8> {
        self.key@
    }

    pub fn new(key: [u8; 33]) -> (r: Self)
        ensures
            r.key_bytes() == key@,
    {
        Self { key }
    }
}

impl VerifyingKey for VerifyingKeyP256 {
    /// Checks the P-256 ECDSA signature `sig` of `msg` under this key. A
    /// signature that is not 64 bytes long gives `Sec1`.
    fn verify(&self, msg: &[u8], sig: &[u8]) -> (r: Result<(), InterLiquidSdkError>)
        ensures
            r is Ok <==> sig@.len() == 64 && p256_signature_valid(self.key_bytes(), msg@, sig@),
            sig@.len() != 64 ==> r matches Err(InterLiquidSdkError::Sec1),
            r matches Err(e) ==> (e is Sec1 || e is P256Key),
    {
        if sig.len() != 64 {
            return Err(InterLiquidSdkError::Sec1);
        }
        p256_verify(&self.key, msg, sig)
    }
}

} // verus!
