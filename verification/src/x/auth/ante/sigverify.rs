use vstd::prelude::*;

use crate::types::InterLiquidSdkError;
use crate::utils::sorted_map::SortedMap;
use crate::x::auth::ante::tx::StdTx;
use crate::x::auth::types::Account;
use crate::x::crypto::p256::{p256_signature_valid, VerifyingKeyP256};
use crate::x::crypto::VerifyingKey;

verus! {

/// The per-signer step of signature verification, on the signer's stored
/// account and the nonce that the transaction carries: the account must
/// exist (`NotFound` otherwise) and hold that nonce (`InvalidRequest`
/// otherwise); the account to store back has its nonce bumped by one.
pub fn check_signer(account: Option<Account>, nonce: u64) -> (r: Result<Account, InterLiquidSdkError>)
    requires
        account matches Some(a) && a.nonce == nonce ==> nonce < u64::MAX,
    ensures
        match account {
            None => r matches Err(e) && e is NotFound,
            Some(a) => if a.nonce == nonce {
                r matches Ok(b) && b.address == a.address && b.nonce == nonce + 1
            } else {
                r matches Err(e) && e is InvalidRequest
            },
        },
{
    let mut account = match account {
        Some(account) => account,
        None => {
            return Err(InterLiquidSdkError::NotFound(String::from_str("account not found")));
        },
    };
    if account.nonce != nonce {
        return Err(InterLiquidSdkError::InvalidRequest(String::from_str("nonce mismatch")));
    }
    account.nonce = account.nonce + 1;
    Ok(account)
}

/// The signature of the `i`-th signer of `tx` (by its address), if it has
/// one.
pub open spec fn signature_of(tx: &StdTx, i: int) -> Option<Seq<u8>> {
    if tx.signature@.contains_key(tx.auth_info.key_at(i)) {
        Some(tx.signature@[tx.auth_info.key_at(i)]@)
    } else {
        None
    }
}

/// A signer passes: its account exists and holds the transaction's nonce,
/// its verifying key and its signature exist, and the signature of the sign
/// document verifies under the key.
pub open spec fn signer_passes(
    account: Option<Account>,
    nonce: u64,
    key: Option<VerifyingKeyP256>,
    sig: Option<Seq<u8>>,
    doc: Seq<u8>,
) -> bool {
    &&& account matches Some(a) && a.nonce == nonce
    &&& key matches Some(k)
    &&& sig matches Some(s) && s.len() == 64 && p256_signature_valid(key->Some_0.key_bytes(), doc, s)
}

/// The error that the first failing check of a signer gives: `NotFound`
/// without an account, `InvalidRequest` for another nonce, `NotFound`
/// without a key or without a signature, `Sec1` for a signature that is not
/// 64 bytes long, and `Sec1` or `P256Key` for one that does not verify.
pub open spec fn signer_error(
    account: Option<Account>,
    nonce: u64,
    key: Option<VerifyingKeyP256>,
    sig: Option<Seq<u8>>,
    doc: Seq<u8>,
    e: InterLiquidSdkError,
) -> bool {
    match account {
        None => e is NotFound,
        Some(a) => if a.nonce != nonce {
            e is InvalidRequest
        } else {
            match key {
                None => e is NotFound,
                Some(k) => match sig {
                    None => e is NotFound,
                    Some(s) => if s.len() != 64 {
                        e is Sec1
                    } else {
                        !p256_signature_valid(k.key_bytes(), doc, s) && (e is Sec1 || e is P256Key)
                    },
                },
            }
        },
    }
}

/// Verifies the signers of `tx`, in the order of their addresses, on the
/// sign document `sign_doc`: `accounts[i]` and `keys[i]` are the stored
/// account and the verifying key (at the signer's key index) of the `i`-th
/// signer. Succeeds when every signer passes, with the accounts to store
/// back (their nonces bumped by one); otherwise fails with the error of the
/// first signer that does not pass.
pub fn verify_signers(
    tx: &StdTx,
    accounts: &Vec<Option<Account>>,
    keys: &Vec<Option<VerifyingKeyP256>>,
    sign_doc: &[u8],
) -> (r: Result<Vec<Account>, InterLiquidSdkError>)
    requires
        tx.auth_info.wf(),
        tx.signature.wf(),
        accounts@.len() == tx.auth_info.size(),
        keys@.len() == tx.auth_info.size(),
        forall|i: int|
            0 <= i < accounts@.len() ==> (#[trigger] accounts@[i] matches Some(a) ==> (a.nonce
                == tx.auth_info.value_at(i).nonce ==> a.nonce < u64::MAX)),
    ensures
        r is Ok <==> forall|i: int|
            0 <= i < accounts@.len() ==> signer_passes(
                #[trigger] accounts@[i],
                tx.auth_info.value_at(i).nonce,
                keys@[i],
                signature_of(tx, i),
                sign_doc@,
            ),
        r matches Ok(v) ==> v@.len() == accounts@.len() && forall|i: int|
            0 <= i < v@.len() ==> (#[trigger] accounts@[i] matches Some(a) && v@[i].address == a.address && v@[i].nonce
                == a.nonce + 1),
        r matches Err(e) ==> exists|i: int|
            0 <= i < accounts@.len() && (forall|t: int|
                0 <= t < i ==> signer_passes(
                    #[trigger] accounts@[t],
                    tx.auth_info.value_at(t).nonce,
                    keys@[t],
                    signature_of(tx, t),
                    sign_doc@,
                )) && signer_error(
                #[trigger] accounts@[i],
                tx.auth_info.value_at(i).nonce,
                keys@[i],
                signature_of(tx, i),
                sign_doc@,
                e,
            ),
{
    let mut out: Vec<Account> = Vec::new();
    let mut i: usize = 0;
    while i < tx.auth_info.entries.len()
        invariant
            tx.auth_info.wf(),
            tx.signature.wf(),
            accounts@.len() == tx.auth_info.size(),
            keys@.len() == tx.auth_info.size(),
            i <= tx.auth_info.size(),
            forall|j: int|
                0 <= j < accounts@.len() ==> (#[trigger] accounts@[j] matches Some(a) ==> (a.nonce
                    == tx.auth_info.value_at(j).nonce ==> a.nonce < u64::MAX)),
            out@.len() == i,
            forall|t: int|
                0 <= t < i ==> signer_passes(
                    #[trigger] accounts@[t],
                    tx.auth_info.value_at(t).nonce,
                    keys@[t],
                    signature_of(tx, t),
                    sign_doc@,
                ),
            forall|t: int|
                0 <= t < i ==> (#[trigger] accounts@[t] matches Some(a) && out@[t].address == a.address && out@[t].nonce
                    == a.nonce + 1),
        decreases tx.auth_info.size() - i,
    {
        let address = tx.auth_info.entries[i].0.as_slice();
        let nonce = tx.auth_info.entries[i].1.nonce;
        assert(nonce == tx.auth_info.value_at(i as int).nonce);
        let account = match check_signer(accounts[i], nonce) {
            Ok(a) => a,
            Err(e) => {
                assert(signer_error(accounts@[i as int], nonce, keys@[i as int], signature_of(tx, i as int), sign_doc@, e));
                return Err(e);
            },
        };
        let key = match &keys[i] {
            Some(k) => k,
            None => {
                let e = InterLiquidSdkError::NotFound(String::from_str("verifying key not found"));
                assert(signer_error(accounts@[i as int], nonce, keys@[i as int], signature_of(tx, i as int), sign_doc@, e));
                return Err(e);
            },
        };
        assert(address@ == tx.auth_info.key_at(i as int));
        let signature = match tx.signature.get(address) {
            Some(s) => s,
            None => {
                let e = InterLiquidSdkError::NotFound(String::from_str("signature not found for address"));
                assert(signer_error(accounts@[i as int], nonce, keys@[i as int], signature_of(tx, i as int), sign_doc@, e));
                return Err(e);
            },
        };
        assert(signature_of(tx, i as int) == Some(signature@));
        match key.verify(sign_doc, signature.as_slice()) {
            Ok(()) => {},
            Err(e) => {
                assert(signer_error(accounts@[i as int], nonce, keys@[i as int], signature_of(tx, i as int), sign_doc@, e));
                return Err(e);
            },
        }
        out.push(account);
        i += 1;
    }
    Ok(out)
}

/// A signer without an account does not pass and fails with `NotFound`;
/// one whose account holds another nonce does not pass and fails with
/// `InvalidRequest`.
pub proof fn law_signer_needs_account_and_nonce(
    account: Option<Account>,
    nonce: u64,
    key: Option<VerifyingKeyP256>,
    sig: Option<Seq<u8>>,
    doc: Seq<u8>,
    e: InterLiquidSdkError,
)
    ensures
        account is None ==> !signer_passes(account, nonce, key, sig, doc) && (signer_error(account, nonce, key, sig, doc, e)
            <==> e is NotFound),
        account matches Some(a) ==> (a.nonce != nonce ==> !signer_passes(account, nonce, key, sig, doc) && (signer_error(
            account,
            nonce,
            key,
            sig,
            doc,
            e,
        ) <==> e is InvalidRequest)),
{
}

/// A signer that passes has an account with the transaction's nonce, a
/// key, and a 64-byte signature of the sign document that verifies under
/// that key.
pub proof fn law_passing_signer_signed(
    account: Option<Account>,
    nonce: u64,
    key: Option<VerifyingKeyP256>,
    sig: Option<Seq<u8>>,
    doc: Seq<u8>,
)
    requires
        signer_passes(account, nonce, key, sig, doc),
    ensures
        account is Some,
        account->Some_0.nonce == nonce,
        key is Some,
        sig is Some,
        sig->Some_0.len() == 64,
        p256_signature_valid(key->Some_0.key_bytes(), doc, sig->Some_0),
{
}

/// With its account and key in order, a signer whose signature is missing
/// fails with `NotFound`, one whose signature is not 64 bytes long fails
/// with `Sec1`, and one whose signature does not verify does not pass and
/// fails with `Sec1` or `P256Key`.
pub proof fn law_signer_needs_valid_signature(
    a: Account,
    k: VerifyingKeyP256,
    sig: Option<Seq<u8>>,
    doc: Seq<u8>,
    e: InterLiquidSdkError,
)
    ensures
        sig is None ==> !signer_passes(Some(a), a.nonce, Some(k), sig, doc) && (signer_error(
            Some(a),
            a.nonce,
            Some(k),
            sig,
            doc,
            e,
        ) <==> e is NotFound),
        sig matches Some(s) ==> (s.len() != 64 ==> !signer_passes(Some(a), a.nonce, Some(k), sig, doc) && (signer_error(
            Some(a),
            a.nonce,
            Some(k),
            sig,
            doc,
            e,
        ) <==> e is Sec1)),
        sig matches Some(s) ==> (!p256_signature_valid(k.key_bytes(), doc, s) ==> !signer_passes(
            Some(a),
            a.nonce,
            Some(k),
            sig,
            doc,
        ) && (signer_error(Some(a), a.nonce, Some(k), sig, doc, e) ==> e is Sec1 || e is P256Key)),
        sig matches Some(s) ==> (s.len() == 64 && p256_signature_valid(k.key_bytes(), doc, s) ==> signer_passes(
            Some(a),
            a.nonce,
            Some(k),
            sig,
            doc,
        )),
{
}

} // verus!
