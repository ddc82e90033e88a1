use ain_chain::block_store::Block;
use ain_chain::handler::{EVMError, EVMHandler};
use ain_chain::queue::{QueueError, QueueTx, SignedTx};
use ain_chain::state::WorldState;
use ain_chain::u256::U256;

fn block(number: u64, root: Vec<u8>) -> Block {
    Block {
        number,
        hash: vec![0xB0 + number as u8; 32],
        parent_hash: vec![0xB0 + number as u8 - 1; 32],
        state_root: root,
        timestamp: 0,
        gas_used: 0,
        logs_bloom: vec![0; 256],
        transactions: vec![],
    }
}

fn transfer(nonce: u64, hash: u8) -> QueueTx {
    QueueTx::SignedTx(SignedTx {
        sender: vec![0xA; 20],
        nonce: U256::from_u64(nonce),
        gas_limit: 21000,
        gas_price: U256::from_u64(1),
        value: U256::from_u64(30),
        to: Some(vec![0xB; 20]),
        data: vec![],
        hash: vec![hash; 32],
    })
}

#[test]
fn handler_reads_and_admits_against_blocks() {
    let mut h = EVMHandler::new();
    assert_eq!(h.get_balance(&vec![0xA; 20], 0), Ok(U256::zero()));
    let ctx = h.get_context().unwrap();
    assert_eq!(h.queue_tx(ctx, transfer(0, 1), vec![1; 32]), Err(EVMError::QueueError(QueueError::InsufficientBalance { balance: U256::zero(), requested: U256::from_u64(21030) })));
    let mut s = WorldState::new();
    s.add_balance(&vec![0xA; 20], &U256::from_u64(100_000)).unwrap();
    let r1 = h.archive.commit(&s);
    h.storage.commit_block(block(1, r1), vec![], vec![], vec![]);
    assert_eq!(h.get_balance(&vec![0xA; 20], 1), Ok(U256::from_u64(100_000)));
    assert_eq!(h.get_balance(&vec![0xA; 20], 7), Ok(U256::from_u64(100_000)));
    assert_eq!(h.get_nonce(&vec![0xA; 20], 1), Ok(U256::zero()));
    assert_eq!(h.queue_tx(ctx, transfer(0, 1), vec![1; 32]), Ok(()));
    assert_eq!(h.queue_tx(ctx, transfer(2, 2), vec![2; 32]), Err(EVMError::QueueError(QueueError::InvalidNonce)));
    h.storage.commit_block(block(2, vec![9; 32]), vec![], vec![], vec![]);
    assert_eq!(h.get_balance(&vec![0xA; 20], 2), Err(EVMError::NoSuchState));
    h.disconnect_tip();
    assert_eq!(h.get_balance(&vec![0xA; 20], 2), Ok(U256::from_u64(100_000)));
    assert_eq!(h.clear(ctx), Ok(()));
    assert_eq!(h.clear(ctx), Err(EVMError::QueueError(QueueError::NoSuchContext)));
}

#[test]
fn handler_bridge_debit_reports_the_shortfall() {
    let mut h = EVMHandler::new();
    let ctx = h.get_context().unwrap();
    assert_eq!(h.add_balance(ctx, vec![0xA; 20], U256::from_u64(10), vec![1; 32]), Ok(()));
    assert_eq!(
        h.sub_balance(ctx, vec![0xA; 20], U256::from_u64(11), vec![2; 32]),
        Err(EVMError::QueueError(QueueError::InsufficientBalance { balance: U256::from_u64(10), requested: U256::from_u64(11) }))
    );
    assert_eq!(h.sub_balance(ctx, vec![0xA; 20], U256::from_u64(10), vec![3; 32]), Ok(()));
    let other = h.get_context().unwrap();
    assert!(other > ctx);
    h.clear(ctx).unwrap();
    assert!(h.get_context().unwrap() > other);
}
