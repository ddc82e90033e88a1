use ain_chain::block_store::{Block, BlockStore};
use sha3::Digest;
use ain_chain::state::{Apply, StateArchive, StateError, WorldState};
use ain_chain::u256::U256;

fn addr(tag: u8) -> Vec<u8> {
    vec![tag; 20]
}

fn u(v: u64) -> U256 {
    U256::from_u64(v)
}

fn keccak(b: &[u8]) -> Vec<u8> {
    sha3::Keccak256::digest(b).to_vec()
}

#[test]
fn empty_state_has_the_empty_trie_root() {
    let s = WorldState::new();
    assert_eq!(
        s.state_root(),
        hex::decode("56e81f171bcc55a6ff8345e692c0f86e5b48e01b996cadc001622fb5e363b421").unwrap()
    );
}

#[test]
fn fresh_accounts_have_the_empty_code_hash() {
    let s = WorldState::new();
    assert_eq!(s.get_code_hash(&addr(1)), keccak(&[]));
    assert_eq!(
        s.get_code_hash(&addr(1)),
        hex::decode("c5d2460186f7233c927e7db2dcc703c0e500b653ca82273b7bfad8045d85a470").unwrap()
    );
}

#[test]
fn same_accounts_give_the_same_root_in_any_order() {
    let mut a = WorldState::new();
    let mut b = WorldState::new();
    a.add_balance(&addr(1), &u(5)).unwrap();
    a.add_balance(&addr(2), &u(7)).unwrap();
    b.add_balance(&addr(2), &u(7)).unwrap();
    b.add_balance(&addr(1), &u(5)).unwrap();
    assert_eq!(a.state_root(), b.state_root());
    let before = a.state_root();
    a.add_balance(&addr(3), &u(1)).unwrap();
    assert_ne!(a.state_root(), before);
}

#[test]
fn bridge_debit_needs_the_balance() {
    let mut s = WorldState::new();
    s.add_balance(&addr(1), &u(100)).unwrap();
    assert_eq!(
        s.sub_balance(&addr(1), &u(101)),
        Err(StateError::InsufficientBalance { account_balance: u(100), amount: u(101) })
    );
    s.sub_balance(&addr(1), &u(40)).unwrap();
    assert_eq!(s.get_balance(&addr(1)), u(60));
    let max = U256 { w0: u64::MAX, w1: u64::MAX, w2: u64::MAX, w3: u64::MAX };
    assert_eq!(s.add_balance(&addr(1), &max), Err(StateError::BalanceOverflow));
}

#[test]
fn transfer_changes_are_applied() {
    let mut s = WorldState::new();
    let mut store = BlockStore::new();
    s.add_balance(&addr(0xA), &u(100_000)).unwrap();
    let changes = vec![
        Apply::Modify { address: addr(0xA), balance: u(78_970), nonce: u(1), code: None, storage: vec![], reset_storage: false },
        Apply::Modify { address: addr(0xB), balance: u(30), nonce: u(0), code: None, storage: vec![], reset_storage: false },
    ];
    s.finish_call(changes, true, true, &mut store, 1);
    assert_eq!(s.get_balance(&addr(0xA)), u(78_970));
    assert_eq!(s.get_balance(&addr(0xB)), u(30));
    assert_eq!(s.get_nonce(&addr(0xA)), u(1));
}

#[test]
fn simulated_call_changes_nothing() {
    let mut s = WorldState::new();
    let mut store = BlockStore::new();
    s.add_balance(&addr(0xA), &u(500)).unwrap();
    let root = s.state_root();
    let changes = vec![Apply::Modify {
        address: addr(0xA),
        balance: u(1),
        nonce: u(9),
        code: Some(vec![0x60, 0x00]),
        storage: vec![(vec![1; 32], u(5))],
        reset_storage: false,
    }];
    s.finish_call(changes, false, true, &mut store, 1);
    assert_eq!(s.state_root(), root);
    assert_eq!(s.get_balance(&addr(0xA)), u(500));
    assert_eq!(s.get_nonce(&addr(0xA)), u(0));
    assert_eq!(s.get_storage_at(&addr(0xA), &vec![1; 32]), u(0));
    assert!(store.get_code_by_hash(&keccak(&vec![0x60, 0x00])).is_none());
}

#[test]
fn deploy_stores_code_under_its_hash() {
    let mut s = WorldState::new();
    let mut store = BlockStore::new();
    let code = vec![0x60, 0x80, 0x60, 0x40, 0x52];
    let hash = keccak(&code);
    let changes = vec![Apply::Modify {
        address: addr(0xC),
        balance: u(0),
        nonce: u(1),
        code: Some(code.clone()),
        storage: vec![(vec![1; 32], u(5)), (vec![2; 32], u(6)), (vec![2; 32], u(0))],
        reset_storage: false,
    }];
    s.apply(changes, true, &mut store, 1);
    assert_eq!(s.get_code_hash(&addr(0xC)), hash);
    assert_eq!(store.get_code_by_hash(&hash), Some(&code));
    let recorded = store
        .column::<ain_chain::columns::BlockDeployedCodeHashes>()
        .get(&ain_chain::columns::encode_number(1))
        .unwrap();
    assert_eq!(recorded, &vec![hash]);
    assert_eq!(s.get_storage_at(&addr(0xC), &vec![1; 32]), u(5));
    assert_eq!(s.get_storage_at(&addr(0xC), &vec![2; 32]), u(0));
}

#[test]
fn empty_accounts_are_deleted() {
    let mut s = WorldState::new();
    let mut store = BlockStore::new();
    s.add_balance(&addr(1), &u(3)).unwrap();
    let root_empty = WorldState::new().state_root();
    let changes = vec![Apply::Modify { address: addr(1), balance: u(0), nonce: u(0), code: None, storage: vec![], reset_storage: false }];
    s.apply(changes, true, &mut store, 1);
    assert_eq!(s.state_root(), root_empty);
    s.add_balance(&addr(2), &u(3)).unwrap();
    s.apply(vec![Apply::Delete { address: addr(2) }], false, &mut store, 1);
    assert_eq!(s.state_root(), root_empty);
}

#[test]
fn u256_arithmetic() {
    let max = U256 { w0: u64::MAX, w1: u64::MAX, w2: u64::MAX, w3: u64::MAX };
    assert_eq!(u(u64::MAX).checked_add(&u(1)), Some(U256 { w0: 0, w1: 1, w2: 0, w3: 0 }));
    assert_eq!(max.checked_add(&u(1)), None);
    assert_eq!(U256 { w0: 0, w1: 1, w2: 0, w3: 0 }.checked_sub(&u(1)), Some(u(u64::MAX)));
    assert_eq!(u(1).checked_sub(&u(2)), None);
    assert_eq!(u(1 << 40).checked_mul_u64(1 << 40), Some(U256 { w0: 0, w1: 1 << 16, w2: 0, w3: 0 }));
    assert_eq!(max.checked_mul_u64(2), None);
    assert!(u(3).lt(&U256 { w0: 0, w1: 0, w2: 0, w3: 1 }));
    assert!(!u(3).lt(&u(3)));
}

#[test]
fn code_is_found_through_the_account() {
    let mut s = WorldState::new();
    let mut store = BlockStore::new();
    let code = vec![0x60, 0x01];
    let changes = vec![Apply::Modify { address: addr(0xD), balance: u(0), nonce: u(1), code: Some(code.clone()), storage: vec![], reset_storage: false }];
    s.apply(changes, true, &mut store, 2);
    assert_eq!(s.get_code(&addr(0xD), &store), Some(&code));
    assert_eq!(s.get_code(&addr(0xE), &store), None);
}

#[test]
fn earlier_states_reopen_from_their_roots() {
    let (mut archive, genesis) = StateArchive::new();
    assert_eq!(genesis, WorldState::new().state_root());
    let mut s = WorldState::new();
    s.add_balance(&addr(1), &u(10)).unwrap();
    let r1 = archive.commit(&s);
    s.add_balance(&addr(1), &u(5)).unwrap();
    let r2 = archive.commit(&s);
    assert_ne!(r1, r2);
    assert_eq!(archive.open(&r1).unwrap().get_balance(&addr(1)), u(10));
    assert_eq!(archive.open(&r2).unwrap().get_balance(&addr(1)), u(15));
    assert!(archive.open(&vec![0; 32]).is_none());
    let mut store = BlockStore::new();
    for (n, root) in [(1u64, r1.clone()), (2u64, r2.clone())] {
        let b = Block {
            number: n,
            hash: vec![n as u8; 32],
            parent_hash: vec![n as u8 - 1; 32],
            state_root: root,
            timestamp: 0,
            gas_used: 0,
            logs_bloom: vec![0; 256],
            transactions: vec![],
        };
        store.commit_block(b, vec![], vec![], vec![]);
    }
    assert_eq!(archive.state_at(&store, 1).unwrap().get_balance(&addr(1)), u(10));
    assert_eq!(archive.state_at(&store, 9).unwrap().get_balance(&addr(1)), u(15));
}
