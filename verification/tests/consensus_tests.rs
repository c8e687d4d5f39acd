use blockchain_data_storage::chain::{Block, BlockHeader, Transaction};
use blockchain_data_storage::consensus::{
    calculate_next_difficulty, difficulty_update, mine, verify_pow, ADJUSTMENT_INTERVAL_BLOCKS,
    MAX_DIFFICULTY, MAX_DIFFICULTY_CHANGE_FACTOR, MIN_DIFFICULTY, TARGET_BLOCK_TIME_SECS,
};
use blockchain_data_storage::storage::StorageManager;

fn create_test_block_with_details(
    height: u64,
    previous_hash: blockchain_data_storage::chain::Hash,
    timestamp: u64,
    difficulty: u32,
) -> Block {
    let transactions = vec![Transaction::new_transfer(vec![height as u8], vec![], 0)];
    let mut header = BlockHeader {
        previous_hash,
        merkle_root: [0u8; 32],
        timestamp,
        nonce: 0,
        difficulty,
        height,
    };
    header.merkle_root = Block::calculate_merkle_root(&transactions);
    Block { header, transactions }
}

/// Builds a chain of `count` blocks whose consecutive timestamps are
/// `gap` seconds apart, all at the given difficulty. The adjustment tests
/// span two intervals: the first boundary (tip height 19) anchors its
/// interval on the genesis block and deliberately makes no change, so an
/// actual adjustment is observable only from the second boundary on.
fn build_chain(count: u64, gap: u64, difficulty: u32) -> StorageManager {
    let mut storage = StorageManager::new();
    let mut last_hash = [0u8; 32];
    let t0: u64 = 1_700_000_000;
    let mut i: u64 = 0;
    while i < count {
        let block = create_test_block_with_details(i, last_hash, t0 + i * gap, difficulty);
        last_hash = block.hash();
        storage.save_block(&block).unwrap();
        i += 1;
    }
    storage
}

#[test]
fn test_verify_pow_simple() {
    let hash1 = [
        0x00, 0x12, 0x34, 0x56, 0x78, 0x9a, 0xbc, 0xde, 0x00, 0x12, 0x34, 0x56, 0x78, 0x9a, 0xbc,
        0xde, 0x00, 0x12, 0x34, 0x56, 0x78, 0x9a, 0xbc, 0xde, 0x00, 0x12, 0x34, 0x56, 0x78, 0x9a,
        0xbc, 0xde,
    ];
    // The hash shows 11 leading zero bits (the second byte is 0001 0010).
    assert!(verify_pow(&hash1, 8));
    assert!(verify_pow(&hash1, 9));
    assert!(verify_pow(&hash1, 11));
    assert!(!verify_pow(&hash1, 12));
    let hash2 = [
        0x0F, 0x12, 0x34, 0x56, 0x78, 0x9a, 0xbc, 0xde, 0x00, 0x12, 0x34, 0x56, 0x78, 0x9a, 0xbc,
        0xde, 0x00, 0x12, 0x34, 0x56, 0x78, 0x9a, 0xbc, 0xde, 0x00, 0x12, 0x34, 0x56, 0x78, 0x9a,
        0xbc, 0xde,
    ];
    assert!(verify_pow(&hash2, 4));
    assert!(!verify_pow(&hash2, 5));
    let hash3 = [
        0x00, 0x00, 0x34, 0x56, 0x78, 0x9a, 0xbc, 0xde, 0x00, 0x12, 0x34, 0x56, 0x78, 0x9a, 0xbc,
        0xde, 0x00, 0x12, 0x34, 0x56, 0x78, 0x9a, 0xbc, 0xde, 0x00, 0x12, 0x34, 0x56, 0x78, 0x9a,
        0xbc, 0xde,
    ];
    // The hash shows 18 leading zero bits (the third byte is 0011 0100).
    assert!(verify_pow(&hash3, 16));
    assert!(verify_pow(&hash3, 17));
    assert!(verify_pow(&hash3, 18));
    assert!(!verify_pow(&hash3, 19));
    let hash4 = [
        0x00, 0x00, 0x7F, 0x56, 0x78, 0x9a, 0xbc, 0xde, 0x00, 0x12, 0x34, 0x56, 0x78, 0x9a, 0xbc,
        0xde, 0x00, 0x12, 0x34, 0x56, 0x78, 0x9a, 0xbc, 0xde, 0x00, 0x12, 0x34, 0x56, 0x78, 0x9a,
        0xbc, 0xde,
    ];
    assert!(verify_pow(&hash4, 17));
    assert!(!verify_pow(&hash4, 18));
}

#[test]
fn test_verify_pow_zero_difficulty_accepts_any_hash() {
    assert!(verify_pow(&[0xffu8; 32], 0));
    assert!(verify_pow(&[0u8; 32], 0));
}

#[test]
fn test_mine_simple() {
    let difficulty = 8;
    let mut header = BlockHeader {
        previous_hash: [0u8; 32],
        merkle_root: [1u8; 32],
        timestamp: 1234567890,
        nonce: 0,
        difficulty,
        height: 1,
    };
    let final_hash = mine(&mut header, difficulty).unwrap();
    assert!(verify_pow(&final_hash, difficulty));
    assert_eq!(header.calculate_hash(), final_hash);
}

#[test]
fn test_difficulty_no_adjustment_before_interval() {
    let initial_difficulty = 10;
    let storage = build_chain(ADJUSTMENT_INTERVAL_BLOCKS - 1, TARGET_BLOCK_TIME_SECS,
        initial_difficulty);
    let next_difficulty =
        calculate_next_difficulty(ADJUSTMENT_INTERVAL_BLOCKS - 2, &storage).unwrap();
    assert_eq!(next_difficulty, initial_difficulty);
}

#[test]
fn test_difficulty_first_interval_is_anchored_on_genesis() {
    // The first boundary reaches back to the genesis block, so no
    // adjustment is made there.
    let initial_difficulty = 10;
    let storage = build_chain(ADJUSTMENT_INTERVAL_BLOCKS, 1, initial_difficulty);
    let next_difficulty =
        calculate_next_difficulty(ADJUSTMENT_INTERVAL_BLOCKS - 1, &storage).unwrap();
    assert_eq!(next_difficulty, initial_difficulty);
}

#[test]
fn test_difficulty_adjustment_target_time() {
    let initial_difficulty = 10;
    let storage = build_chain(2 * ADJUSTMENT_INTERVAL_BLOCKS, TARGET_BLOCK_TIME_SECS,
        initial_difficulty);
    let h = 2 * ADJUSTMENT_INTERVAL_BLOCKS - 1;
    let next_difficulty = calculate_next_difficulty(h, &storage).unwrap();
    // The measured interval spans ADJUSTMENT_INTERVAL_BLOCKS - 1 gaps.
    let actual = (ADJUSTMENT_INTERVAL_BLOCKS - 1) * TARGET_BLOCK_TIME_SECS;
    let target = TARGET_BLOCK_TIME_SECS * ADJUSTMENT_INTERVAL_BLOCKS;
    let expected = (initial_difficulty as f64 * (target as f64 / actual as f64)).round() as u32;
    assert_eq!(next_difficulty, expected.clamp(MIN_DIFFICULTY, MAX_DIFFICULTY));
}

#[test]
fn test_difficulty_adjustment_too_fast() {
    let initial_difficulty = 10;
    let time_per_block = TARGET_BLOCK_TIME_SECS / 2;
    let storage = build_chain(2 * ADJUSTMENT_INTERVAL_BLOCKS, time_per_block, initial_difficulty);
    let h = 2 * ADJUSTMENT_INTERVAL_BLOCKS - 1;
    let next_difficulty = calculate_next_difficulty(h, &storage).unwrap();
    let actual = (ADJUSTMENT_INTERVAL_BLOCKS - 1) * time_per_block;
    let target = TARGET_BLOCK_TIME_SECS * ADJUSTMENT_INTERVAL_BLOCKS;
    let expected = (initial_difficulty as f64 * (target as f64 / actual as f64)).round() as u32;
    assert!(next_difficulty > initial_difficulty);
    assert_eq!(next_difficulty, expected.clamp(MIN_DIFFICULTY, MAX_DIFFICULTY));
}

#[test]
fn test_difficulty_adjustment_too_slow() {
    let initial_difficulty = 10;
    let time_per_block = TARGET_BLOCK_TIME_SECS * 2;
    let storage = build_chain(2 * ADJUSTMENT_INTERVAL_BLOCKS, time_per_block, initial_difficulty);
    let h = 2 * ADJUSTMENT_INTERVAL_BLOCKS - 1;
    let next_difficulty = calculate_next_difficulty(h, &storage).unwrap();
    let actual = (ADJUSTMENT_INTERVAL_BLOCKS - 1) * time_per_block;
    let target = TARGET_BLOCK_TIME_SECS * ADJUSTMENT_INTERVAL_BLOCKS;
    let expected = (initial_difficulty as f64 * (target as f64 / actual as f64)).round() as u32;
    assert!(next_difficulty < initial_difficulty);
    assert_eq!(next_difficulty, expected.clamp(MIN_DIFFICULTY, MAX_DIFFICULTY));
}

#[test]
fn test_difficulty_adjustment_limits() {
    let initial_difficulty = 10;
    let h = 2 * ADJUSTMENT_INTERVAL_BLOCKS - 1;

    // Extremely fast blocks: limited by MAX_DIFFICULTY_CHANGE_FACTOR.
    let storage = build_chain(2 * ADJUSTMENT_INTERVAL_BLOCKS, 1, initial_difficulty);
    let next_difficulty_fast = calculate_next_difficulty(h, &storage).unwrap();
    let max_expected = (initial_difficulty as f64 * MAX_DIFFICULTY_CHANGE_FACTOR as f64).round()
        as u32;
    assert_eq!(next_difficulty_fast, max_expected.clamp(MIN_DIFFICULTY, MAX_DIFFICULTY));

    // Extremely slow blocks: limited by 1 / MAX_DIFFICULTY_CHANGE_FACTOR.
    let time_per_block_slow = TARGET_BLOCK_TIME_SECS * (MAX_DIFFICULTY_CHANGE_FACTOR * 2);
    let storage_slow =
        build_chain(2 * ADJUSTMENT_INTERVAL_BLOCKS, time_per_block_slow, initial_difficulty);
    let next_difficulty_slow = calculate_next_difficulty(h, &storage_slow).unwrap();
    let min_expected = (initial_difficulty as f64 / MAX_DIFFICULTY_CHANGE_FACTOR as f64).round()
        as u32;
    assert_eq!(next_difficulty_slow, min_expected.clamp(MIN_DIFFICULTY, MAX_DIFFICULTY));

    // The MIN_DIFFICULTY floor.
    let storage_min =
        build_chain(2 * ADJUSTMENT_INTERVAL_BLOCKS, time_per_block_slow, MIN_DIFFICULTY);
    let next_difficulty_min = calculate_next_difficulty(h, &storage_min).unwrap();
    assert_eq!(next_difficulty_min, MIN_DIFFICULTY);

    // The MAX_DIFFICULTY ceiling.
    let storage_max = build_chain(2 * ADJUSTMENT_INTERVAL_BLOCKS, 1, MAX_DIFFICULTY);
    let next_difficulty_max = calculate_next_difficulty(h, &storage_max).unwrap();
    assert_eq!(next_difficulty_max, MAX_DIFFICULTY);
}

#[test]
fn test_difficulty_adjustment_zero_actual_time() {
    let initial_difficulty = 10;
    let storage = build_chain(2 * ADJUSTMENT_INTERVAL_BLOCKS, 0, initial_difficulty);
    let next_difficulty =
        calculate_next_difficulty(2 * ADJUSTMENT_INTERVAL_BLOCKS - 1, &storage).unwrap();
    assert_eq!(next_difficulty, (initial_difficulty + 1).clamp(MIN_DIFFICULTY, MAX_DIFFICULTY));
}

#[test]
fn test_difficulty_update_zero_interval_ticks_up() {
    assert_eq!(difficulty_update(10, 0), 11);
    assert_eq!(difficulty_update(MAX_DIFFICULTY, 0), MAX_DIFFICULTY);
}

#[test]
fn test_difficulty_update_clamps_extreme_factors() {
    // A ratio far above MAX_DIFFICULTY_CHANGE_FACTOR is clamped to it.
    assert_eq!(difficulty_update(10, 1), 40);
    // A ratio far below its inverse is clamped to it, then floored.
    assert_eq!(difficulty_update(10, 10_000_000), MIN_DIFFICULTY);
    // round(10 / 4) rounds half up to 3, floored to MIN_DIFFICULTY.
    assert_eq!(difficulty_update(10, 48_001), 4);
}

#[test]
fn test_difficulty_update_exact_values() {
    // target / actual == 2: 10 * 2 = 20.
    assert_eq!(difficulty_update(10, 6000), 20);
    // target / actual == 1: unchanged.
    assert_eq!(difficulty_update(10, 12000), 10);
    // 10 * 12000 / 22800 = 5.26..: rounds to 5.
    assert_eq!(difficulty_update(10, 22800), 5);
    // 10 * 12000 / 11400 = 10.52..: rounds to 11.
    assert_eq!(difficulty_update(10, 11400), 11);
    // 15 * 12000 / 24000 = 7.5: rounds half up to 8.
    assert_eq!(difficulty_update(15, 24000), 8);
}
