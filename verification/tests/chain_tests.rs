use blockchain_data_storage::chain::{Block, Transaction};
use blockchain_data_storage::consensus::{calculate_next_difficulty, mine};
use blockchain_data_storage::engine::{Blockchain, BlockchainError, MEMPOOL_MAX_SIZE};
use blockchain_data_storage::storage::StorageManager;

fn fresh_blockchain() -> Blockchain {
    Blockchain::new(StorageManager::new()).unwrap()
}

fn create_test_block(
    prev_hash: blockchain_data_storage::chain::Hash,
    height: u64,
    difficulty: u32,
    transactions: Vec<Transaction>,
) -> Block {
    let mut block = Block::new(prev_hash, transactions, difficulty, height);
    let _mined_hash = mine(&mut block.header, difficulty).unwrap();
    block
}

#[test]
fn blockchain_new_with_mempool() {
    let blockchain = Blockchain::new(StorageManager::new());
    assert!(blockchain.is_ok());
    let bc = blockchain.unwrap();
    assert!(bc.get_last_block_hash().is_none());
    assert!(bc.get_chain_height().is_none());
    assert!(bc.mempool().is_empty());
    assert_eq!(bc.mempool().max_size(), MEMPOOL_MAX_SIZE);
}

#[test]
fn blockchain_add_pending_transaction() {
    let mut blockchain = fresh_blockchain();
    let tx1 = Transaction::new_transfer(vec![1], vec![2], 100);
    let tx2 = Transaction::new_transfer(vec![3], vec![4], 200);

    assert!(blockchain.add_pending_transaction(tx1.clone()).unwrap());
    assert!(!blockchain.mempool().is_empty());
    assert!(blockchain.add_pending_transaction(tx2.clone()).unwrap());
    // Adding a duplicate reports not-added.
    assert!(!blockchain.add_pending_transaction(tx1.clone()).unwrap());
}

#[test]
fn blockchain_initialize_genesis() {
    let mut blockchain = fresh_blockchain();
    assert!(blockchain.get_chain_height().is_none());

    let genesis_result = blockchain.initialize_genesis_if_needed();
    assert!(genesis_result.is_ok());
    assert_eq!(blockchain.get_chain_height(), Some(0));
    assert!(blockchain.get_last_block_hash().is_some());

    // Initializing again does nothing.
    let genesis_again_result = blockchain.initialize_genesis_if_needed();
    assert!(genesis_again_result.is_ok());
    assert_eq!(blockchain.get_chain_height(), Some(0));
}

#[test]
fn blockchain_add_block_valid() {
    let mut blockchain = fresh_blockchain();
    blockchain.initialize_genesis_if_needed().unwrap();

    let prev_hash = blockchain.get_last_block_hash().unwrap();
    let height = blockchain.get_chain_height().unwrap();
    let difficulty = calculate_next_difficulty(height, blockchain.storage()).unwrap();

    let block1 = create_test_block(prev_hash, height + 1, difficulty, vec![]);
    let block1_hash = block1.hash();
    let add_result = blockchain.add_block(block1);

    if let Err(e) = &add_result {
        println!("Add block failed: {:?}", e);
    }
    assert!(add_result.is_ok());
    assert_eq!(blockchain.get_chain_height(), Some(1));
    assert_eq!(blockchain.get_last_block_hash(), Some(block1_hash));
}

#[test]
fn blockchain_add_block_invalid_height() {
    let mut blockchain = fresh_blockchain();
    blockchain.initialize_genesis_if_needed().unwrap();

    let prev_hash = blockchain.get_last_block_hash().unwrap();
    let height = blockchain.get_chain_height().unwrap();
    let difficulty = calculate_next_difficulty(height, blockchain.storage()).unwrap();

    // The height should be 1; 2 is invalid.
    let block_invalid = create_test_block(prev_hash, height + 2, difficulty, vec![]);
    let add_result = blockchain.add_block(block_invalid);
    assert!(add_result.is_err());
    match add_result.err().unwrap() {
        BlockchainError::Validation(msg) => assert!(msg.contains("Invalid block height")),
        _ => panic!("Expected Validation error"),
    }
}

#[test]
fn blockchain_add_block_invalid_prev_hash() {
    let mut blockchain = fresh_blockchain();
    blockchain.initialize_genesis_if_needed().unwrap();

    let height = blockchain.get_chain_height().unwrap();
    let difficulty = calculate_next_difficulty(height, blockchain.storage()).unwrap();

    let block_invalid = create_test_block([1u8; 32], height + 1, difficulty, vec![]);
    let add_result = blockchain.add_block(block_invalid);
    assert!(add_result.is_err());
    match add_result.err().unwrap() {
        BlockchainError::Validation(msg) => assert!(msg.contains("Invalid previous block hash")),
        _ => panic!("Expected Validation error"),
    }
}

#[test]
fn blockchain_add_block_before_genesis_is_refused() {
    let mut blockchain = fresh_blockchain();
    let block = create_test_block([0u8; 32], 1, 4, vec![]);
    match blockchain.add_block(block) {
        Err(BlockchainError::NotInitialized) => {},
        other => panic!("Expected NotInitialized, got {:?}", other),
    }
}

#[test]
fn blockchain_mine_and_process_block() {
    let mut blockchain = fresh_blockchain();
    blockchain.initialize_genesis_if_needed().unwrap();

    let tx1 = Transaction::new_transfer(vec![1], vec![2], 50);
    let tx2 = Transaction::new_transfer(vec![3], vec![4], 150);
    blockchain.add_pending_transaction(tx1.clone()).unwrap();
    blockchain.add_pending_transaction(tx2.clone()).unwrap();
    assert!(!blockchain.mempool().is_empty());

    let mine_result = blockchain.mine_new_block();
    assert!(mine_result.is_ok());
    let mined_block = mine_result.unwrap();
    assert_eq!(mined_block.header.height, 1);
    assert_eq!(mined_block.transactions.len(), 2);
    assert!(mined_block.transactions.contains(&tx1));
    assert!(mined_block.transactions.contains(&tx2));

    let mined_hash = mined_block.hash();
    let process_result = blockchain.process_mined_block(mined_block);
    assert!(process_result.is_ok());

    assert_eq!(blockchain.get_chain_height(), Some(1));
    assert_eq!(blockchain.get_last_block_hash(), Some(mined_hash));

    assert!(blockchain.mempool().is_empty());

    let stored_block = blockchain.get_block_by_height(1).unwrap().unwrap();
    assert_eq!(stored_block.hash(), mined_hash);
}

#[test]
fn blockchain_new_refuses_inconsistent_tip_metadata() {
    // A tip hash with no tip height is an inconsistent store.
    let mut storage = StorageManager::new();
    storage.put_raw(vec![108, 104], vec![7u8; 32]);
    match Blockchain::new(storage) {
        Err(BlockchainError::Initialization(_)) => {},
        other => panic!("Expected Initialization error, got {:?}", other.err()),
    }
}
