use ain_chain::block_store::{Block, Log, Receipt};
use ain_chain::bloom::contains_input;
use sha3::Digest;
use ain_chain::finalize::BlockBuilder;
use ain_chain::handler::EVMHandler;
use ain_chain::queue::{BalanceUpdate, BridgeTx};
use ain_chain::state::{Apply, StateError, WorldState};
use ain_chain::u256::U256;

fn u(v: u64) -> U256 {
    U256::from_u64(v)
}

#[test]
fn transfer_block_is_built_and_committed() {
    let mut h = EVMHandler::new();
    let parent = WorldState::new();
    let mut b = BlockBuilder::new(&parent, 1);
    b.apply_bridge(&BridgeTx::EvmIn(BalanceUpdate { address: vec![0xA; 20], amount: u(100_000) })).unwrap();
    let code = vec![0x60, 0x00];
    let receipt = Receipt {
        tx_hash: vec![7; 32],
        status: true,
        used_gas: 21000,
        logs_bloom: vec![0; 256],
        logs: vec![Log { address: vec![0xB; 20], topics: vec![vec![3; 32]], data: vec![] }],
    };
    b.apply_transaction(
        vec![
            Apply::Modify { address: vec![0xA; 20], balance: u(78_970), nonce: u(1), code: None, storage: vec![], reset_storage: false },
            Apply::Modify { address: vec![0xB; 20], balance: u(30), nonce: u(0), code: Some(code.clone()), storage: vec![], reset_storage: false },
        ],
        receipt,
    );
    let sealed = b.seal();
    assert!(contains_input(&sealed.logs_bloom, &vec![0xB; 20]));
    assert!(contains_input(&sealed.logs_bloom, &vec![3; 32]));
    assert_eq!(sealed.codes, vec![(sha3::Keccak256::digest(&code).to_vec(), code.clone())]);
    let root = h.archive.commit(&sealed.state);
    let block = Block {
        number: 1,
        hash: vec![0xB1; 32],
        parent_hash: vec![0; 32],
        state_root: root,
        timestamp: 0,
        gas_used: 21000,
        logs_bloom: sealed.logs_bloom.clone(),
        transactions: vec![],
    };
    h.storage.commit_block(block, sealed.receipts, vec![], sealed.codes);
    assert_eq!(h.get_balance(&vec![0xA; 20], 1), Ok(u(78_970)));
    assert_eq!(h.get_balance(&vec![0xB; 20], 1), Ok(u(30)));
    assert_eq!(h.get_nonce(&vec![0xA; 20], 1), Ok(u(1)));
    assert_eq!(h.get_code(&vec![0xB; 20], 1), Ok(Some(&code)));
    assert!(h.storage.get_receipt(&vec![7; 32]).is_some());
}

#[test]
fn failed_bridge_debit_leaves_the_parent_untouched() {
    let mut parent = WorldState::new();
    parent.add_balance(&vec![0xA; 20], &u(5)).unwrap();
    let root = parent.state_root();
    let mut b = BlockBuilder::new(&parent, 1);
    let r = b.apply_bridge(&BridgeTx::EvmOut(BalanceUpdate { address: vec![0xA; 20], amount: u(6) }));
    assert_eq!(r, Err(StateError::InsufficientBalance { account_balance: u(5), amount: u(6) }));
    assert_eq!(parent.state_root(), root);
}

#[test]
fn committed_block_reads_back_its_state() {
    let mut h = EVMHandler::new();
    let mut b = BlockBuilder::new(&WorldState::new(), 1);
    b.apply_bridge(&BridgeTx::EvmIn(BalanceUpdate { address: vec![0xA; 20], amount: u(500) })).unwrap();
    b.apply_transaction(
        vec![Apply::Modify { address: vec![0xA; 20], balance: u(400), nonce: u(1), code: None, storage: vec![(vec![1; 32], u(9))], reset_storage: false }],
        Receipt { tx_hash: vec![7; 32], status: true, used_gas: 100, logs_bloom: vec![0; 256], logs: vec![] },
    );
    let sealed = b.seal();
    let expected = sealed.state.state_root();
    let root = h.commit_sealed(sealed, 1, vec![0xB1; 32], vec![0; 32], 10, 100, vec![], vec![]);
    assert_eq!(root, expected);
    assert_eq!(h.get_balance(&vec![0xA; 20], 1), Ok(u(400)));
    assert_eq!(h.get_nonce(&vec![0xA; 20], 1), Ok(u(1)));
    assert_eq!(h.get_storage_at(&vec![0xA; 20], &vec![1; 32], 1), Ok(u(9)));
    assert_eq!(h.storage.get_latest_block().unwrap().state_root, root);
    assert!(h.storage.get_receipt(&vec![7; 32]).is_some());
}
