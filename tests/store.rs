use ain_chain::block_store::{Block, BlockStore, LogIndex, Receipt, StoreError, Transaction};
use ain_chain::columns::{
    AddressCodeMap, BlockDeployedCodeHashes, Blocks, Column, LatestBlockNumber, OracleHistory,
};

fn tx(tag: u8) -> Transaction {
    Transaction { hash: vec![tag; 32], raw: vec![tag, tag] }
}

fn block(number: u64, txs: Vec<Transaction>) -> Block {
    Block {
        number,
        hash: vec![0xB0 + number as u8; 32],
        parent_hash: if number == 0 { vec![0; 32] } else { vec![0xB0 + number as u8 - 1; 32] },
        state_root: vec![0; 32],
        timestamp: number * 10,
        gas_used: 0,
        logs_bloom: vec![0; 256],
        transactions: txs,
    }
}

fn receipt(tag: u8) -> Receipt {
    Receipt { tx_hash: vec![tag; 32], status: true, used_gas: 21000, logs_bloom: vec![0; 256], logs: vec![] }
}

fn commit(store: &mut BlockStore, number: u64, tags: &[u8], code: Option<(u8, Vec<u8>)>) {
    let b = block(number, tags.iter().map(|t| tx(*t)).collect());
    store.put_block(b);
    store.put_receipts(tags.iter().map(|t| receipt(*t)).collect());
    store.put_logs(vec![0xAA; 20], vec![LogIndex { tx_hash: vec![tags[0]; 32], log_index: 0 }], number);
    if let Some((h, bytes)) = code {
        store.put_code(number, &vec![h; 32], bytes);
    }
    let latest = store.get_block_by_number(number).map(|b| b.number);
    let b = block(latest.unwrap(), vec![]);
    store.put_latest_block(Some(&b));
}

#[test]
fn block_number_keys_are_big_endian() {
    let k = Blocks::key(&0x0102);
    assert_eq!(k.len(), 32);
    assert_eq!(k[30], 1);
    assert_eq!(k[31], 2);
    assert!(k[..30].iter().all(|b| *b == 0));
    assert_eq!(LatestBlockNumber::key(&()), b"latest".to_vec());
    assert_eq!(OracleHistory::key(&"ab".to_string()), b"ab".to_vec());
    assert_eq!(Blocks::name(), "blocks");
    assert_eq!(AddressCodeMap::name(), "code_map");
}

#[test]
fn reorg_removes_the_latest_block() {
    let mut store = BlockStore::new();
    commit(&mut store, 1, &[1], None);
    commit(&mut store, 2, &[2], Some((0xC2, vec![0x60, 0x02])));
    commit(&mut store, 3, &[3, 4], Some((0xC3, vec![0x60, 0x03])));
    assert_eq!(store.get_latest_block().unwrap().number, 3);
    store.disconnect_latest_block();
    assert_eq!(store.get_latest_block().unwrap().number, 2);
    assert!(store.get_block_by_number(3).is_none());
    assert!(store.get_block_by_hash(&vec![0xB3; 32]).is_none());
    assert!(store.get_transaction_by_hash(&vec![3; 32]).is_none());
    assert!(store.get_transaction_by_hash(&vec![4; 32]).is_none());
    assert!(store.get_receipt(&vec![3; 32]).is_none());
    assert!(store.get_logs(3).is_none());
    assert!(store.get_code_by_hash(&vec![0xC3; 32]).is_none());
    assert_eq!(store.get_code_by_hash(&vec![0xC2; 32]), Some(&vec![0x60, 0x02]));
    assert!(store.get_transaction_by_hash(&vec![2; 32]).is_some());
    assert!(store.column::<BlockDeployedCodeHashes>().get(&Blocks::key(&3)).is_none());
}

#[test]
fn commit_then_disconnect_restores_the_columns() {
    let mut store = BlockStore::new();
    commit(&mut store, 1, &[1], None);
    let before = store.dump_all(100);
    let code_before = store.dump_column::<AddressCodeMap>(None, 100);
    let latest_before = store.dump_column::<LatestBlockNumber>(None, 100);
    commit(&mut store, 2, &[2, 5], Some((0xC2, vec![1, 2, 3])));
    assert_ne!(store.dump_all(100), before);
    store.disconnect_latest_block();
    assert_eq!(store.dump_all(100), before);
    assert_eq!(store.dump_column::<AddressCodeMap>(None, 100), code_before);
    assert_eq!(store.dump_column::<LatestBlockNumber>(None, 100), latest_before);
}

#[test]
fn disconnecting_the_first_block_clears_the_pointer() {
    let mut store = BlockStore::new();
    commit(&mut store, 1, &[1], None);
    store.disconnect_latest_block();
    assert!(store.get_latest_block().is_none());
    assert_eq!(store.dump_all(10), BlockStore::new().dump_all(10));
    store.disconnect_latest_block();
    assert!(store.get_latest_block().is_none());
}

#[test]
fn transactions_by_block_and_index() {
    let mut store = BlockStore::new();
    commit(&mut store, 1, &[1, 2], None);
    let t = store.get_transaction_by_block_hash_and_index(&vec![0xB1; 32], 1).unwrap();
    assert_eq!(t.hash, vec![2; 32]);
    assert!(store.get_transaction_by_block_hash_and_index(&vec![0xB1; 32], 2).is_none());
    assert!(store.get_transaction_by_block_hash_and_index(&vec![0xEE; 32], 0).is_none());
    assert_eq!(store.get_transaction_by_block_number_and_index(1, 0).unwrap().unwrap().hash, vec![1; 32]);
    assert!(matches!(store.get_transaction_by_block_number_and_index(9, 0), Err(StoreError::NoSuchBlock)));
}

#[test]
fn code_hashes_are_recorded_once() {
    let mut store = BlockStore::new();
    store.put_code(4, &vec![9; 32], vec![1]);
    store.put_code(4, &vec![9; 32], vec![1]);
    store.put_code(4, &vec![8; 32], vec![2]);
    let list = store.column::<BlockDeployedCodeHashes>().get(&Blocks::key(&4)).unwrap();
    assert_eq!(list.len(), 2);
}

#[test]
fn dump_lists_hex_keys_from_a_start() {
    let mut store = BlockStore::new();
    store.put_code(1, &vec![0xab; 2], vec![1]);
    store.put_code(1, &vec![0xcd; 2], vec![2]);
    store.put_code(1, &vec![0xef; 2], vec![3]);
    assert_eq!(store.dump_column::<AddressCodeMap>(None, 10), "code_map\nabab\ncdcd\nefef\n");
    assert_eq!(store.dump_column::<AddressCodeMap>(Some(&vec![0xcd; 2]), 1), "code_map\ncdcd\n");
}

#[test]
fn reorg_keeps_code_an_earlier_block_introduced() {
    let mut store = BlockStore::new();
    commit(&mut store, 1, &[1], Some((0xC1, vec![0x60, 0x01])));
    commit(&mut store, 2, &[2], None);
    let before = store.dump_all(100);
    let code_before = store.dump_column::<AddressCodeMap>(None, 100);
    commit(&mut store, 3, &[3], Some((0xC1, vec![0x60, 0x01])));
    assert!(store.column::<BlockDeployedCodeHashes>().get(&Blocks::key(&3)).is_none());
    store.disconnect_latest_block();
    assert_eq!(store.get_code_by_hash(&vec![0xC1; 32]), Some(&vec![0x60, 0x01]));
    assert_eq!(store.dump_all(100), before);
    assert_eq!(store.dump_column::<AddressCodeMap>(None, 100), code_before);
}

#[test]
fn dump_all_ends_each_column_with_a_newline() {
    let store = BlockStore::new();
    assert_eq!(
        store.dump_all(5),
        "blocks\n\ntransactions\n\nreceipts\n\nblock_map\n\naddress_logs_map\n\nblock_code_hashes\n\n"
    );
}
