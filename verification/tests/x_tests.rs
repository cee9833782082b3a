use sha2::Digest;
use interliquid_sdk::trie::NibblePatriciaTrieNodeBranch;
use interliquid_sdk::tx::Msg;
use interliquid_sdk::types::{InterLiquidSdkError, SerializableAny};
use interliquid_sdk::utils::join_keys;
use interliquid_sdk::utils::sorted_map::SortedMap;
use interliquid_sdk::utils::Item;
use interliquid_sdk::x::auth::ante::{AddrVerifyAnteHandler, AuthInfo, StdTx, TxBody};
use interliquid_sdk::x::auth::{Account, MsgAddKey, MsgCreateAccount, MsgDelKey};
use interliquid_sdk::x::crypto::CryptoKeeper;

fn auth(address: [u8; 32]) -> AuthInfo {
    AuthInfo {
        address,
        nonce: 0,
        key_index: 0,
        verifying_key: SerializableAny::new("verifying_key_p256".to_string(), vec![]),
    }
}

fn tx_with(addresses: &[[u8; 32]]) -> StdTx {
    let mut auth_info = SortedMap::new();
    for a in addresses {
        auth_info.insert(a.to_vec(), auth(*a));
    }
    StdTx {
        body: TxBody { msgs: vec![], timeout_seconds: 0, options: vec![] },
        auth_info,
        signature: SortedMap::new(),
    }
}

#[test]
fn addr_verify_needs_every_signer() {
    let handler = AddrVerifyAnteHandler::new();
    let add = MsgAddKey { address: [1; 32], verifying_key: SerializableAny::new("k".to_string(), vec![]) };
    let del = MsgDelKey { address: [2; 32], key_index: 3 };
    let signers = vec![add.signer_addresses(), del.signer_addresses()];
    assert!(handler.handle(&signers, &tx_with(&[[1; 32], [2; 32], [3; 32]])).is_ok());
    assert!(matches!(handler.handle(&signers, &tx_with(&[[1; 32]])), Err(InterLiquidSdkError::Unauthorized(_))));
    assert!(handler.handle(&vec![], &tx_with(&[])).is_ok());
}

#[test]
fn create_account_address_and_signer() {
    let msg = MsgCreateAccount {
        creator: [7; 32],
        address_seed: b"seed".to_vec(),
        verifying_key: SerializableAny::new("k".to_string(), vec![]),
    };
    let mut bytes = vec![7u8; 32];
    bytes.extend_from_slice(b"seed");
    assert_eq!(msg.account_address(), sha256(&bytes));
    let signers = msg.signer_addresses();
    assert_eq!(signers.len(), 1);
    assert!(signers.contains_key(&[7; 32]));
    let account = Account::new(msg.account_address());
    assert_eq!(account.nonce, 0);
}

#[test]
fn crypto_keeper_registers_once() {
    let mut keeper = CryptoKeeper::new();
    assert!(!keeper.is_registered("verifying_key_p256"));
    assert!(keeper.register_verifying_key("verifying_key_p256").is_ok());
    assert!(keeper.is_registered("verifying_key_p256"));
    assert!(matches!(
        keeper.register_verifying_key("verifying_key_p256"),
        Err(InterLiquidSdkError::AlreadyExists(_))
    ));
}

#[test]
fn join_keys_concatenates() {
    let parts: Vec<&[u8]> = vec![b"users", b"/", b"alice"];
    assert_eq!(join_keys(&parts), b"users/alice".to_vec());
    assert_eq!(join_keys(&[]), Vec::<u8>::new());
    let _item: Item<u64> = Item::new(&parts);
}

#[test]
fn built_branches_cover_every_inner_prefix() {
    let mut entries: SortedMap<Vec<u8>> = SortedMap::new();
    entries.insert(vec![1, 2, 3], b"a".to_vec());
    entries.insert(vec![1, 2, 4], b"b".to_vec());
    entries.insert(vec![1], b"c".to_vec());
    let m = NibblePatriciaTrieNodeBranch::build_branch_nodes(entries).unwrap();
    assert_eq!(m.len(), 2);
    assert_eq!(m.get(&[1]).unwrap().child_key_indices, vec![2]);
    assert_eq!(m.get(&[1]).unwrap().key_fragment, vec![1]);
    assert_eq!(m.get(&[1, 2]).unwrap().child_key_indices, vec![3, 4]);
    assert_eq!(m.get(&[1, 2]).unwrap().key_fragment, vec![2]);
    assert!(m.get(&[]).is_none());
}

fn sha256(data: &[u8]) -> [u8; 32] {
    sha2::Sha256::digest(data).into()
}
