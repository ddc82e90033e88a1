use ain_chain::queue::{BalanceUpdate, BridgeTx, QueueError, QueueTx, SignedTx, TransactionQueueMap};
use ain_chain::state::WorldState;
use ain_chain::u256::U256;

fn u(v: u64) -> U256 {
    U256::from_u64(v)
}

fn signed(sender: u8, nonce: u64, value: u64, hash: u8) -> QueueTx {
    QueueTx::SignedTx(SignedTx {
        sender: vec![sender; 20],
        nonce: u(nonce),
        gas_limit: 21000,
        gas_price: u(1),
        value: u(value),
        to: Some(vec![0xB; 20]),
        data: vec![],
        hash: vec![hash; 32],
    })
}

#[test]
fn transfer_needs_gas_and_value() {
    let mut chain = WorldState::new();
    chain.add_balance(&vec![0xA; 20], &u(100)).unwrap();
    let mut q = TransactionQueueMap::new();
    let ctx = q.get_context().unwrap();
    assert_eq!(q.queue_tx(ctx, signed(0xA, 0, 30, 1), vec![1; 32], &chain), Err(QueueError::InsufficientBalance { balance: u(100), requested: u(21030) }));
    let mut rich = WorldState::new();
    rich.add_balance(&vec![0xA; 20], &u(100_000)).unwrap();
    assert_eq!(q.queue_tx(ctx, signed(0xA, 0, 30, 1), vec![1; 32], &rich), Ok(()));
    assert_eq!(q.len(ctx), Ok(1));
}

#[test]
fn nonces_must_be_contiguous() {
    let mut chain = WorldState::new();
    chain.add_balance(&vec![0xA; 20], &u(1_000_000)).unwrap();
    let mut q = TransactionQueueMap::new();
    let ctx = q.get_context().unwrap();
    assert_eq!(q.queue_tx(ctx, signed(0xA, 1, 0, 1), vec![1; 32], &chain), Err(QueueError::InvalidNonce));
    assert_eq!(q.queue_tx(ctx, signed(0xA, 0, 0, 1), vec![1; 32], &chain), Ok(()));
    assert_eq!(q.queue_tx(ctx, signed(0xA, 0, 0, 2), vec![2; 32], &chain), Err(QueueError::InvalidNonce));
    assert_eq!(q.queue_tx(ctx, signed(0xA, 1, 0, 2), vec![2; 32], &chain), Ok(()));
    assert_eq!(q.queue_tx(ctx, signed(0xA, 2, 0, 3), vec![2; 32], &chain), Err(QueueError::DuplicateHash));
}

#[test]
fn bridge_debits_stay_feasible() {
    let mut chain = WorldState::new();
    chain.add_balance(&vec![0xA; 20], &u(50)).unwrap();
    let mut q = TransactionQueueMap::new();
    let ctx = q.get_context().unwrap();
    assert_eq!(q.sub_balance(ctx, vec![0xA; 20], u(40), vec![1; 32], &chain), Ok(()));
    assert_eq!(q.sub_balance(ctx, vec![0xA; 20], u(20), vec![2; 32], &chain), Err(QueueError::InsufficientBalance { balance: u(50), requested: u(60) }));
    assert_eq!(q.add_balance(ctx, vec![0xA; 20], u(15), vec![3; 32], &chain), Ok(()));
    assert_eq!(q.sub_balance(ctx, vec![0xA; 20], u(30), vec![4; 32], &chain), Err(QueueError::InsufficientBalance { balance: u(65), requested: u(70) }));
    assert_eq!(q.sub_balance(ctx, vec![0xA; 20], u(25), vec![5; 32], &chain), Ok(()));
    let items = q.drain(ctx).unwrap();
    assert_eq!(items.len(), 3);
    assert!(matches!(items[0].tx, QueueTx::BridgeTx(BridgeTx::EvmOut(BalanceUpdate { .. }))));
    assert_eq!(q.len(ctx), Ok(0));
}

#[test]
fn contexts_are_allocated_in_order_and_cleared() {
    let chain = WorldState::new();
    let mut q = TransactionQueueMap::new();
    let a = q.get_context().unwrap();
    let b = q.get_context().unwrap();
    assert!(b > a);
    assert_eq!(q.add_balance(a, vec![1; 20], u(1), vec![9; 32], &chain), Ok(()));
    assert!(q.contains_hash(a, &vec![9; 32]));
    assert!(!q.contains_hash(b, &vec![9; 32]));
    assert_eq!(q.clear(a), Ok(()));
    assert_eq!(q.clear(a), Err(QueueError::NoSuchContext));
    assert_eq!(q.add_balance(a, vec![1; 20], u(1), vec![8; 32], &chain), Err(QueueError::NoSuchContext));
    assert!(matches!(q.drain(a), Err(QueueError::NoSuchContext)));
}

#[test]
fn drained_bridge_updates_apply_in_order() {
    let mut chain = WorldState::new();
    chain.add_balance(&vec![0xA; 20], &u(50)).unwrap();
    let mut q = TransactionQueueMap::new();
    let ctx = q.get_context().unwrap();
    q.sub_balance(ctx, vec![0xA; 20], u(50), vec![1; 32], &chain).unwrap();
    q.add_balance(ctx, vec![0xA; 20], u(7), vec![2; 32], &chain).unwrap();
    q.sub_balance(ctx, vec![0xA; 20], u(7), vec![3; 32], &chain).unwrap();
    q.add_balance(ctx, vec![0xB; 20], u(9), vec![4; 32], &chain).unwrap();
    let items = q.drain(ctx).unwrap();
    let mut state = WorldState::new();
    state.add_balance(&vec![0xA; 20], &u(50)).unwrap();
    assert_eq!(state.apply_bridge_items(&items), Ok(()));
    assert_eq!(state.get_balance(&vec![0xA; 20]), u(0));
    assert_eq!(state.get_balance(&vec![0xB; 20]), u(9));
}

#[test]
fn upfront_cost_overflow_is_reported() {
    let mut chain = WorldState::new();
    chain.add_balance(&vec![0xA; 20], &u(1)).unwrap();
    let mut q = TransactionQueueMap::new();
    let ctx = q.get_context().unwrap();
    let tx = QueueTx::SignedTx(SignedTx {
        sender: vec![0xA; 20],
        nonce: u(0),
        gas_limit: 2,
        gas_price: U256 { w0: 0, w1: 0, w2: 0, w3: 1 << 63 },
        value: u(0),
        to: None,
        data: vec![],
        hash: vec![1; 32],
    });
    assert_eq!(q.queue_tx(ctx, tx, vec![1; 32], &chain), Err(QueueError::Overflow));
    assert_eq!(q.len(ctx), Ok(0));
}
