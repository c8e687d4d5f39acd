use blockchain_data_storage::chain::{Block, Transaction};
use blockchain_data_storage::storage::{StorageError, StorageManager};

fn create_test_block(height: u64, previous_hash: blockchain_data_storage::chain::Hash, num_tx: usize) -> Block {
    let transactions = (0..num_tx)
        .map(|i| Transaction::new_transfer(vec![(i % 256) as u8], vec![], i as u64))
        .collect();
    Block::new(previous_hash, transactions, 10, height)
}

#[test]
fn test_storage_new_open() {
    {
        let storage = StorageManager::new();
        assert!(storage.get_last_block_hash().unwrap().is_none());
    }
    let storage = StorageManager::new();
    assert!(storage.get_last_block_hash().unwrap().is_none());
    assert!(storage.get_chain_height().unwrap().is_none());
}

#[test]
fn test_save_and_get_block() {
    let mut storage = StorageManager::new();

    let block0 = create_test_block(0, [0u8; 32], 0);
    let hash0 = block0.hash();
    storage.save_block(&block0).expect("Failed to save block 0");

    let block1 = create_test_block(1, hash0, 2);
    let hash1 = block1.hash();
    storage.save_block(&block1).expect("Failed to save block 1");

    let retrieved_block0 =
        storage.get_block_by_hash(&hash0).unwrap().expect("Block 0 not found by hash");
    assert_eq!(retrieved_block0.header, block0.header);
    assert_eq!(retrieved_block0.transactions, block0.transactions);

    let retrieved_block1 =
        storage.get_block_by_hash(&hash1).unwrap().expect("Block 1 not found by hash");
    assert_eq!(retrieved_block1.header, block1.header);
    assert_eq!(retrieved_block1.transactions, block1.transactions);

    let retrieved_block0_h =
        storage.get_block_by_height(0).unwrap().expect("Block 0 not found by height");
    assert_eq!(retrieved_block0_h.header, block0.header);

    let retrieved_block1_h =
        storage.get_block_by_height(1).unwrap().expect("Block 1 not found by height");
    assert_eq!(retrieved_block1_h.header, block1.header);

    assert!(storage.get_block_by_hash(&[99u8; 32]).unwrap().is_none());
    assert!(storage.get_block_by_height(2).unwrap().is_none());

    assert_eq!(storage.get_last_block_hash().unwrap(), Some(hash1));
    assert_eq!(storage.get_chain_height().unwrap(), Some(1));
}

#[test]
fn test_get_hash_by_height() {
    let mut storage = StorageManager::new();

    let block0 = create_test_block(0, [0u8; 32], 0);
    let hash0 = block0.hash();
    storage.save_block(&block0).unwrap();

    let block1 = create_test_block(1, hash0, 1);
    let hash1 = block1.hash();
    storage.save_block(&block1).unwrap();

    assert_eq!(storage.get_hash_by_height(0).unwrap(), Some(hash0));
    assert_eq!(storage.get_hash_by_height(1).unwrap(), Some(hash1));
    assert!(storage.get_hash_by_height(2).unwrap().is_none());
}

#[test]
fn test_malformed_hash_record_is_a_format_error() {
    // A height-index record that does not hold 32 bytes is a fatal format
    // error, not a silent miss.
    let mut storage = StorageManager::new();
    storage.put_raw(vec![104, 0, 0, 0, 0, 0, 0, 0, 5], vec![1, 2, 3]);
    match storage.get_hash_by_height(5) {
        Err(StorageError::InvalidFormat(_)) => {},
        other => panic!("Expected InvalidFormat, got {:?}", other),
    }
}

#[test]
fn test_malformed_block_record_is_a_deserialization_error() {
    // A block record that is not a canonical encoding is reported, not
    // decoded into something else.
    let mut storage = StorageManager::new();
    let hash = [9u8; 32];
    let mut key = vec![98u8];
    key.extend_from_slice(&hash);
    storage.put_raw(key, vec![0, 1, 2, 3]);
    match storage.get_block_by_hash(&hash) {
        Err(StorageError::Deserialization(_)) => {},
        other => panic!("Expected Deserialization, got {:?}", other),
    }
}

#[test]
fn test_malformed_tip_height_record_is_a_format_error() {
    let mut storage = StorageManager::new();
    storage.put_raw(vec![99, 104], vec![1, 2, 3]);
    match storage.get_chain_height() {
        Err(StorageError::InvalidFormat(_)) => {},
        other => panic!("Expected InvalidFormat, got {:?}", other),
    }
}

#[test]
fn test_put_raw_overwrites_previous_binding() {
    let mut storage = StorageManager::new();
    storage.put_raw(vec![108, 104], vec![1u8; 32]);
    storage.put_raw(vec![108, 104], vec![2u8; 32]);
    assert_eq!(storage.get_last_block_hash().unwrap(), Some([2u8; 32]));
}
