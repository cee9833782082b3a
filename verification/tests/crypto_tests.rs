use interliquid_sdk::types::InterLiquidSdkError;
use interliquid_sdk::types::SerializableAny;
use interliquid_sdk::utils::sorted_map::SortedMap;
use interliquid_sdk::x::auth::ante::{check_signer, verify_signers, AuthInfo, StdTx, TxBody};
use interliquid_sdk::x::auth::Account;
use interliquid_sdk::x::crypto::{VerifyingKey, VerifyingKeyP256};
use p256::ecdsa::signature::Signer;
use p256::ecdsa::{Signature, SigningKey};

fn signing_key() -> SigningKey {
    SigningKey::from_slice(&[7u8; 32]).unwrap()
}

fn compressed_key(sk: &SigningKey) -> [u8; 33] {
    let point = sk.verifying_key().to_encoded_point(true);
    let mut key = [0u8; 33];
    key.copy_from_slice(point.as_bytes());
    key
}

#[test]
fn p256_signature_of_the_message_verifies() {
    let sk = signing_key();
    let msg = b"interliquid transaction".to_vec();
    let sig: Signature = sk.sign(&msg);
    let vk = VerifyingKeyP256::new(compressed_key(&sk));
    assert!(vk.verify(&msg, &sig.to_bytes()).is_ok());
}

#[test]
fn p256_signature_of_another_message_is_refused() {
    let sk = signing_key();
    let sig: Signature = sk.sign(b"interliquid transaction");
    let vk = VerifyingKeyP256::new(compressed_key(&sk));
    let r = vk.verify(b"interliquid transactioN", &sig.to_bytes());
    assert!(matches!(r, Err(InterLiquidSdkError::P256Key(_))));
}

#[test]
fn p256_signature_under_another_key_is_refused() {
    let sk = signing_key();
    let other = SigningKey::from_slice(&[9u8; 32]).unwrap();
    let msg = b"interliquid transaction";
    let sig: Signature = sk.sign(msg);
    let vk = VerifyingKeyP256::new(compressed_key(&other));
    assert!(vk.verify(msg, &sig.to_bytes()).is_err());
}

#[test]
fn p256_signature_of_wrong_length_is_a_sec1_error() {
    let sk = signing_key();
    let msg = b"interliquid transaction";
    let sig: Signature = sk.sign(msg);
    let bytes = sig.to_bytes();
    let vk = VerifyingKeyP256::new(compressed_key(&sk));
    assert!(matches!(vk.verify(msg, &bytes[..63]), Err(InterLiquidSdkError::Sec1)));
    assert!(matches!(vk.verify(msg, &[]), Err(InterLiquidSdkError::Sec1)));
}

#[test]
fn p256_key_that_is_no_point_is_refused() {
    let sk = signing_key();
    let msg = b"interliquid transaction";
    let sig: Signature = sk.sign(msg);
    let vk = VerifyingKeyP256::new([0u8; 33]);
    assert!(matches!(vk.verify(msg, &sig.to_bytes()), Err(InterLiquidSdkError::Sec1)));
}

#[test]
fn signer_with_matching_nonce_gets_the_next_nonce() {
    let account = Account { address: [3u8; 32], nonce: 4 };
    let r = check_signer(Some(account), 4).unwrap();
    assert_eq!(r.address, [3u8; 32]);
    assert_eq!(r.nonce, 5);
}

#[test]
fn signer_without_account_is_not_found() {
    assert!(matches!(check_signer(None, 0), Err(InterLiquidSdkError::NotFound(_))));
}

#[test]
fn signer_with_another_nonce_is_an_invalid_request() {
    let account = Account { address: [3u8; 32], nonce: 4 };
    assert!(matches!(check_signer(Some(account), 5), Err(InterLiquidSdkError::InvalidRequest(_))));
}

fn std_tx(signers: &[([u8; 32], u64)], sigs: &[([u8; 32], Vec<u8>)]) -> StdTx {
    let mut auth_info = SortedMap::new();
    for (address, nonce) in signers {
        auth_info.insert(
            address.to_vec(),
            AuthInfo {
                address: *address,
                nonce: *nonce,
                key_index: 0,
                verifying_key: SerializableAny::new("verifying_key_p256".to_string(), vec![]),
            },
        );
    }
    let mut signature = SortedMap::new();
    for (address, sig) in sigs {
        signature.insert(address.to_vec(), sig.clone());
    }
    StdTx { body: TxBody { msgs: vec![], timeout_seconds: 0, options: vec![] }, auth_info, signature }
}

#[test]
fn signers_with_accounts_keys_and_valid_signatures_pass() {
    let sk1 = signing_key();
    let sk2 = SigningKey::from_slice(&[9u8; 32]).unwrap();
    let doc = b"sign doc".to_vec();
    let s1: Signature = sk1.sign(&doc);
    let s2: Signature = sk2.sign(&doc);
    let tx = std_tx(&[([1u8; 32], 3), ([2u8; 32], 0)], &[([1u8; 32], s1.to_bytes().to_vec()), ([2u8; 32], s2.to_bytes().to_vec())]);
    let accounts = vec![Some(Account { address: [1u8; 32], nonce: 3 }), Some(Account { address: [2u8; 32], nonce: 0 })];
    let keys = vec![Some(VerifyingKeyP256::new(compressed_key(&sk1))), Some(VerifyingKeyP256::new(compressed_key(&sk2)))];
    let out = verify_signers(&tx, &accounts, &keys, &doc).unwrap();
    assert_eq!(out.len(), 2);
    assert_eq!(out[0].address, [1u8; 32]);
    assert_eq!(out[0].nonce, 4);
    assert_eq!(out[1].nonce, 1);
}

#[test]
fn signers_fail_on_the_first_failing_check() {
    let sk1 = signing_key();
    let doc = b"sign doc".to_vec();
    let s1: Signature = sk1.sign(&doc);
    let key = Some(VerifyingKeyP256::new(compressed_key(&sk1)));
    let good_sig = vec![([1u8; 32], s1.to_bytes().to_vec())];

    let tx = std_tx(&[([1u8; 32], 3)], &good_sig);
    let r = verify_signers(&tx, &vec![None], &vec![key.clone()], &doc);
    assert!(matches!(r, Err(InterLiquidSdkError::NotFound(_))));

    let r = verify_signers(&tx, &vec![Some(Account { address: [1u8; 32], nonce: 2 })], &vec![key.clone()], &doc);
    assert!(matches!(r, Err(InterLiquidSdkError::InvalidRequest(_))));

    let account = vec![Some(Account { address: [1u8; 32], nonce: 3 })];
    let r = verify_signers(&tx, &account, &vec![None], &doc);
    assert!(matches!(r, Err(InterLiquidSdkError::NotFound(_))));

    let no_sig = std_tx(&[([1u8; 32], 3)], &[]);
    let r = verify_signers(&no_sig, &account, &vec![key.clone()], &doc);
    assert!(matches!(r, Err(InterLiquidSdkError::NotFound(_))));

    let short_sig = std_tx(&[([1u8; 32], 3)], &[([1u8; 32], vec![0u8; 10])]);
    let r = verify_signers(&short_sig, &account, &vec![key.clone()], &doc);
    assert!(matches!(r, Err(InterLiquidSdkError::Sec1)));

    let r = verify_signers(&tx, &account, &vec![key.clone()], b"another doc");
    assert!(matches!(r, Err(InterLiquidSdkError::P256Key(_))));

    assert!(verify_signers(&tx, &account, &vec![key], &doc).is_ok());
}
