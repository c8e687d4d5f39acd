use blockchain_data_storage::chain::Transaction;
use blockchain_data_storage::consensus::{verify_pow, ADJUSTMENT_INTERVAL_BLOCKS, MIN_DIFFICULTY};
use blockchain_data_storage::engine::{Blockchain, BlockchainError};
use blockchain_data_storage::mempool::Mempool;
use blockchain_data_storage::storage::StorageManager;

#[test]
fn bootstrap_and_first_append() {
    // A fresh store: the genesis block sits at height 0 with an all-zero
    // previous hash, the minimum difficulty and no transactions; mining and
    // processing the next block advances the tip to height 1, linked to the
    // genesis hash.
    let mut bc = Blockchain::new(StorageManager::new()).unwrap();
    bc.initialize_genesis_if_needed().unwrap();

    let genesis = bc.get_block_by_height(0).unwrap().expect("genesis stored");
    assert_eq!(genesis.header.height, 0);
    assert_eq!(genesis.header.previous_hash, [0u8; 32]);
    assert_eq!(genesis.header.difficulty, MIN_DIFFICULTY);
    assert_eq!(genesis.header.nonce, 0);
    assert!(genesis.transactions.is_empty());
    assert_eq!(bc.get_chain_height(), Some(0));
    let genesis_hash = genesis.hash();
    assert_eq!(bc.get_last_block_hash(), Some(genesis_hash));

    let mined = bc.mine_new_block().unwrap();
    bc.process_mined_block(mined).unwrap();
    assert_eq!(bc.get_chain_height(), Some(1));
    let block1 = bc.get_block_by_height(1).unwrap().expect("block 1 stored");
    assert_eq!(block1.header.previous_hash, genesis_hash);
}

#[test]
fn tip_records_name_a_stored_block() {
    // Whenever the tip height is h, the block at height h is stored and its
    // hash is the stored tip hash.
    let mut bc = Blockchain::new(StorageManager::new()).unwrap();
    bc.initialize_genesis_if_needed().unwrap();
    for _ in 0..3 {
        let mined = bc.mine_new_block().unwrap();
        bc.process_mined_block(mined).unwrap();
    }
    let h = bc.get_chain_height().unwrap();
    assert_eq!(h, 3);
    let tip = bc.get_block_by_height(h).unwrap().expect("tip stored");
    assert_eq!(Some(tip.hash()), bc.get_last_block_hash());
}

#[test]
fn mempool_eviction_at_exact_capacity() {
    // Capacity 2: after tx1, tx2, tx3 the contents are tx2 and tx3, and a
    // drain returns them in that order.
    let mut mempool = Mempool::new(2);
    let tx1 = Transaction::new_transfer(vec![1], vec![2], 1);
    let tx2 = Transaction::new_transfer(vec![3], vec![4], 2);
    let tx3 = Transaction::new_transfer(vec![5], vec![6], 3);
    mempool.add_transaction(tx1.clone()).unwrap();
    mempool.add_transaction(tx2.clone()).unwrap();
    assert!(mempool.add_transaction(tx3.clone()).unwrap());
    assert_eq!(mempool.size(), 2);
    let taken = mempool.get_transactions(10);
    assert_eq!(taken, vec![tx2, tx3]);
    assert!(!mempool.contains(&tx1.calculate_hash()));
}

#[test]
fn rejected_block_leaves_mempool_intact() {
    // A mined block whose nonce is broken fails consensus; the mempool and
    // the tip are untouched.
    let mut bc = Blockchain::new(StorageManager::new()).unwrap();
    bc.initialize_genesis_if_needed().unwrap();
    let tip_before = bc.get_last_block_hash();

    let tx1 = Transaction::new_transfer(vec![1], vec![2], 42);
    let tx1_hash = tx1.calculate_hash();
    bc.add_pending_transaction(tx1).unwrap();

    let mut block = bc.mine_new_block().unwrap();
    // Find a nonce whose hash no longer meets the difficulty.
    loop {
        block.header.nonce = block.header.nonce.wrapping_add(1);
        if !verify_pow(&block.hash(), block.header.difficulty) {
            break;
        }
    }
    match bc.process_mined_block(block) {
        Err(BlockchainError::Consensus(_)) => {},
        other => panic!("Expected Consensus error, got {:?}", other),
    }
    assert!(bc.mempool().contains(&tx1_hash));
    assert_eq!(bc.get_last_block_hash(), tip_before);
    assert_eq!(bc.get_chain_height(), Some(0));
}

#[test]
fn mined_transactions_leave_the_mempool_unmined_stay() {
    // Processing a mined block removes exactly the transactions it carries.
    let mut bc = Blockchain::new(StorageManager::new()).unwrap();
    bc.initialize_genesis_if_needed().unwrap();
    let tx1 = Transaction::new_transfer(vec![1], vec![2], 10);
    let tx1_hash = tx1.calculate_hash();
    bc.add_pending_transaction(tx1).unwrap();

    let mined = bc.mine_new_block().unwrap();

    // A transaction submitted after assembly stays pending.
    let tx2 = Transaction::new_transfer(vec![8], vec![9], 11);
    let tx2_hash = tx2.calculate_hash();
    bc.add_pending_transaction(tx2).unwrap();

    bc.process_mined_block(mined).unwrap();
    assert!(!bc.mempool().contains(&tx1_hash));
    assert!(bc.mempool().contains(&tx2_hash));
    assert_eq!(bc.mempool().size(), 1);
}

#[test]
fn genesis_difficulty_is_not_rederived() {
    // The genesis block is written without a proof-of-work or difficulty
    // check; the checks begin with the block at height 1.
    let mut bc = Blockchain::new(StorageManager::new()).unwrap();
    bc.initialize_genesis_if_needed().unwrap();
    let genesis = bc.get_block_by_height(0).unwrap().unwrap();
    // The genesis hash was never mined, yet the block is stored.
    assert_eq!(genesis.header.difficulty, MIN_DIFFICULTY);
    assert_eq!(bc.get_chain_height(), Some(0));
}

#[test]
fn difficulty_adjusts_at_the_second_boundary() {
    // Difficulty stays at the genesis value until the first boundary that
    // does not anchor on the genesis block; blocks mined back to back then
    // drive it up, clamped by the change factor.
    let mut bc = Blockchain::new(StorageManager::new()).unwrap();
    bc.initialize_genesis_if_needed().unwrap();
    let last_plain_height = 2 * ADJUSTMENT_INTERVAL_BLOCKS - 1;
    while bc.get_chain_height().unwrap() < last_plain_height {
        let mined = bc.mine_new_block().unwrap();
        assert_eq!(mined.header.difficulty, MIN_DIFFICULTY);
        bc.process_mined_block(mined).unwrap();
    }
    // The next block crosses the boundary: the interval took nearly no
    // time, so the difficulty rises; a zero interval ticks it up by one,
    // anything faster than a quarter of the target quadruples it.
    let mined = bc.mine_new_block().unwrap();
    let d = mined.header.difficulty;
    assert!(d == MIN_DIFFICULTY + 1 || d == 4 * MIN_DIFFICULTY, "unexpected difficulty {}", d);
    bc.process_mined_block(mined).unwrap();
    assert_eq!(bc.get_chain_height(), Some(last_plain_height + 1));
}
