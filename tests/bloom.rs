use ain_chain::block_store::{Log, Receipt};
use ain_chain::bloom::{block_bloom, contains_input, logs_bloom};

fn log(addr: u8, topics: &[u8]) -> Log {
    Log { address: vec![addr; 20], topics: topics.iter().map(|t| vec![*t; 32]).collect(), data: vec![] }
}

#[test]
fn receipt_and_block_blooms() {
    let logs_a = vec![log(1, &[10, 11])];
    let logs_b = vec![log(2, &[12]), log(3, &[])];
    let mut bloom_a = vec![0u8; 256];
    logs_bloom(&logs_a, &mut bloom_a);
    let mut bloom_b = vec![0u8; 256];
    logs_bloom(&logs_b, &mut bloom_b);
    assert_ne!(bloom_a, vec![0u8; 256]);
    let receipts = vec![
        Receipt { tx_hash: vec![1; 32], status: true, used_gas: 0, logs_bloom: bloom_a.clone(), logs: logs_a },
        Receipt { tx_hash: vec![2; 32], status: true, used_gas: 0, logs_bloom: bloom_b.clone(), logs: logs_b },
    ];
    let block = block_bloom(&receipts);
    for r in &receipts {
        let merged: Vec<u8> = r.logs_bloom.iter().zip(block.iter()).map(|(x, y)| x | y).collect();
        assert_eq!(merged, block);
        for l in &r.logs {
            assert!(contains_input(&block, &l.address));
            for t in &l.topics {
                assert!(contains_input(&block, t));
            }
        }
    }
    assert!(contains_input(&bloom_a, &vec![1; 20]));
    assert!(!contains_input(&vec![0u8; 256], &vec![1; 20]));
    let mut single = vec![0u8; 256];
    logs_bloom(&vec![log(1, &[])], &mut single);
    let bits: u32 = single.iter().map(|b| b.count_ones()).sum();
    assert!(bits >= 1 && bits <= 3);
    let expected = ethereum_types::Bloom::from(ethereum_types::BloomInput::Raw(&[1u8; 20]));
    assert_eq!(single, expected.as_bytes().to_vec());
}
