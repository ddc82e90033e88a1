use ain_chain::table::Table;
use ain_chain::tracer::{Tracer, BASE_TX_GAS};
use ain_chain::trie::{TrieEdit, TrieMut, TrieStore};

#[test]
fn trie_root_depends_on_contents_only() {
    let mut a = TrieMut::new();
    assert!(a.is_empty());
    assert_eq!(
        a.root(),
        hex::decode("56e81f171bcc55a6ff8345e692c0f86e5b48e01b996cadc001622fb5e363b421").unwrap()
    );
    a.insert(b"do".to_vec(), b"verb".to_vec());
    a.insert(b"dog".to_vec(), b"puppy".to_vec());
    let mut b = TrieMut::new();
    b.insert(b"dog".to_vec(), b"puppy".to_vec());
    b.insert(b"x".to_vec(), b"y".to_vec());
    b.insert(b"do".to_vec(), b"verb".to_vec());
    assert_eq!(b.remove(&b"x".to_vec()), Some(b"y".to_vec()));
    assert_eq!(a.root(), b.root());
    assert_eq!(a.get(&b"dog".to_vec()), Some(b"puppy".to_vec()));
    assert!(!a.contains(&b"cat".to_vec()));
    assert_eq!(a.insert(b"do".to_vec(), b"noun".to_vec()), Some(b"verb".to_vec()));
    assert_ne!(a.root(), b.root());
}

#[test]
fn tracer_records_gas_before_each_step() {
    let mut t = Tracer::new(30000);
    assert_eq!(t.gas_left(), 30000 - BASE_TX_GAS);
    t.on_step(0, "PUSH1".to_string(), 3, vec![], vec![]);
    t.on_step(2, "MSTORE".to_string(), 8990, vec![vec![1]], vec![0; 32]);
    t.on_step(3, "STOP".to_string(), 5, vec![], vec![]);
    assert_eq!(t.gas_left(), 2);
    t.on_step(4, "SSTORE".to_string(), 10, vec![], vec![]);
    assert_eq!(t.gas_left(), 0);
    let steps = t.into_steps();
    assert_eq!(steps.len(), 4);
    assert_eq!(steps[3].gas, 2);
    assert_eq!(steps[0].gas, 9000);
    assert_eq!(steps[1].gas, 8997);
    assert_eq!(steps[2].gas, 7);
    assert_eq!(steps[1].op, "MSTORE");
    assert_eq!(Tracer::new(100).gas_left(), 0);
}

#[test]
fn table_keys_stay_unique() {
    let mut t: Table<Vec<u8>, u32> = Table::new();
    t.insert(vec![1], 1);
    t.insert(vec![1], 2);
    t.insert(vec![2], 3);
    assert_eq!(t.len(), 2);
    assert_eq!(t.get(&vec![1]), Some(&2));
    assert_eq!(t.remove(&vec![1]), Some(2));
    assert_eq!(t.remove(&vec![1]), None);
    assert_eq!(t.len(), 1);
}

#[test]
fn same_edits_from_the_same_root_give_the_same_root() {
    let (mut store, empty) = TrieStore::create_root();
    let mut t = store.open_mut(&empty).unwrap();
    t.insert(b"a".to_vec(), b"1".to_vec());
    let r = store.commit(&t);
    let edits = || vec![
        TrieEdit::Insert(b"b".to_vec(), b"2".to_vec()),
        TrieEdit::Remove(b"a".to_vec()),
        TrieEdit::Insert(b"c".to_vec(), b"3".to_vec()),
    ];
    let mut first = store.open_mut(&r).unwrap();
    let mut second = store.open_mut(&r).unwrap();
    first.apply_edits(edits());
    second.apply_edits(edits());
    assert_eq!(first.root(), second.root());
    assert_ne!(first.root(), r);
    assert!(first.get(&b"a".to_vec()).is_none());
    assert_eq!(store.open_mut(&r).unwrap().get(&b"a".to_vec()), Some(b"1".to_vec()));
    assert!(store.open_mut(&vec![0; 32]).is_none());
}
