use blockchain_data_storage::chain::Transaction;
use blockchain_data_storage::mempool::Mempool;

#[test]
fn mempool_add_and_get() {
    let mut mempool = Mempool::new(10);
    let tx1 = Transaction::new_transfer(vec![1], vec![2], 100);
    let tx1_hash = tx1.calculate_hash();
    let tx2 = Transaction::new_transfer(vec![3], vec![4], 200);
    let tx2_hash = tx2.calculate_hash();

    assert!(mempool.add_transaction(tx1.clone()).unwrap());
    assert_eq!(mempool.size(), 1);
    assert!(mempool.add_transaction(tx2.clone()).unwrap());
    assert_eq!(mempool.size(), 2);

    // Adding a duplicate reports not-added and changes nothing.
    assert!(!mempool.add_transaction(tx1.clone()).unwrap());
    assert_eq!(mempool.size(), 2);

    let retrieved = mempool.get_transactions(5);
    assert_eq!(retrieved.len(), 2);
    assert_eq!(retrieved[0].calculate_hash(), tx1_hash);
    assert_eq!(retrieved[1].calculate_hash(), tx2_hash);

    let retrieved_limited = mempool.get_transactions(1);
    assert_eq!(retrieved_limited.len(), 1);
    assert_eq!(retrieved_limited[0].calculate_hash(), tx1_hash);
}

#[test]
fn mempool_remove() {
    let mut mempool = Mempool::new(10);
    let tx1 = Transaction::new_transfer(vec![1], vec![2], 100);
    let tx1_hash = tx1.calculate_hash();
    let tx2 = Transaction::new_transfer(vec![3], vec![4], 200);
    let tx2_hash = tx2.calculate_hash();

    mempool.add_transaction(tx1.clone()).unwrap();
    mempool.add_transaction(tx2.clone()).unwrap();
    assert_eq!(mempool.size(), 2);

    mempool.remove_transactions(&[tx1_hash]);
    assert_eq!(mempool.size(), 1);
    assert!(!mempool.contains(&tx1_hash));
    assert!(mempool.contains(&tx2_hash));
    let order = mempool.get_transactions(10);
    assert_eq!(order.len(), 1);
    assert_eq!(order[0].calculate_hash(), tx2_hash);

    mempool.remove_transactions(&[tx2_hash]);
    assert_eq!(mempool.size(), 0);
    assert!(mempool.is_empty());
    assert!(mempool.get_transactions(10).is_empty());

    // Removing an unknown hash is silently ignored.
    mempool.remove_transactions(&[[0u8; 32]]);
    assert_eq!(mempool.size(), 0);
}

#[test]
fn mempool_max_size_eviction() {
    let mut mempool = Mempool::new(2);
    let tx1 = Transaction::new_transfer(vec![1], vec![2], 100);
    let tx1_hash = tx1.calculate_hash();
    let tx2 = Transaction::new_transfer(vec![3], vec![4], 200);
    let tx2_hash = tx2.calculate_hash();
    let tx3 = Transaction::new_transfer(vec![5], vec![6], 300);
    let tx3_hash = tx3.calculate_hash();

    mempool.add_transaction(tx1.clone()).unwrap();
    mempool.add_transaction(tx2.clone()).unwrap();
    assert_eq!(mempool.size(), 2);

    // Adding tx3 at capacity evicts tx1, the oldest.
    assert!(mempool.add_transaction(tx3.clone()).unwrap());
    assert_eq!(mempool.size(), 2);
    assert!(!mempool.contains(&tx1_hash));
    assert!(mempool.contains(&tx2_hash));
    assert!(mempool.contains(&tx3_hash));
    let order = mempool.get_transactions(10);
    assert_eq!(order.len(), 2);
    assert_eq!(order[0].calculate_hash(), tx2_hash);
    assert_eq!(order[1].calculate_hash(), tx3_hash);
}

#[test]
fn mempool_zero_capacity_cannot_hold_anything() {
    let mut mempool = Mempool::new(0);
    let tx = Transaction::new_transfer(vec![1], vec![2], 100);
    assert!(mempool.add_transaction(tx).is_err());
    assert_eq!(mempool.size(), 0);
}

#[test]
fn mempool_duplicate_keeps_prior_entry() {
    // A rejected re-add leaves the size and the prior entry untouched.
    let mut mempool = Mempool::new(10);
    let tx1 = Transaction::new_transfer(vec![7], vec![8], 900);
    let tx1_hash = tx1.calculate_hash();
    mempool.add_transaction(tx1.clone()).unwrap();
    let before = mempool.get_transactions(10);
    assert!(!mempool.add_transaction(tx1.clone()).unwrap());
    assert_eq!(mempool.size(), 1);
    let after = mempool.get_transactions(10);
    assert_eq!(before[0], after[0]);
    assert_eq!(after[0].calculate_hash(), tx1_hash);
}
