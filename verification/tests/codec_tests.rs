use blockchain_data_storage::chain::{Block, BlockHeader, Transaction};
use blockchain_data_storage::codec::{
    deserialize_block, deserialize_transaction, serialize_block, serialize_transaction,
};
use blockchain_data_storage::hashing::{hex_encode, sha256};
use blockchain_data_storage::offchain::OffChainStorageManager;

fn sample_transfer() -> Transaction {
    Transaction::new_transfer(vec![1, 2, 3], vec![4, 5], 1234)
}

fn sample_storage_pointer() -> Transaction {
    Transaction::new_storage(vec![9, 9], [7u8; 32], 4096)
}

fn sample_block() -> Block {
    Block::new([3u8; 32], vec![sample_transfer(), sample_storage_pointer()], 8, 5)
}

#[test]
fn transaction_round_trip() {
    for tx in [sample_transfer(), sample_storage_pointer()] {
        let bytes = serialize_transaction(&tx);
        let back = deserialize_transaction(bytes.as_slice()).expect("decoding an encoding");
        assert_eq!(back, tx);
        // The identity hash is preserved across the round trip.
        assert_eq!(back.calculate_hash(), tx.calculate_hash());
    }
}

#[test]
fn block_round_trip() {
    let block = sample_block();
    let bytes = serialize_block(&block);
    let back = deserialize_block(bytes.as_slice()).expect("decoding an encoding");
    assert_eq!(back, block);
    assert_eq!(back.hash(), block.hash());
}

#[test]
fn empty_block_round_trip() {
    let block = Block::new([0u8; 32], vec![], 4, 0);
    let bytes = serialize_block(&block);
    assert_eq!(bytes.len(), 100);
    let back = deserialize_block(bytes.as_slice()).expect("decoding an encoding");
    assert_eq!(back, block);
}

#[test]
fn decoder_rejects_non_encodings() {
    assert!(deserialize_transaction(&[]).is_none());
    assert!(deserialize_transaction(&[2, 0, 0, 0]).is_none());
    assert!(deserialize_block(&[0u8; 50]).is_none());

    // A valid encoding with trailing garbage is rejected.
    let tx = sample_transfer();
    let mut bytes = serialize_transaction(&tx);
    bytes.push(0);
    assert!(deserialize_transaction(bytes.as_slice()).is_none());

    // A truncated encoding is rejected.
    let block = sample_block();
    let bytes = serialize_block(&block);
    assert!(deserialize_block(&bytes.as_slice()[..bytes.len() - 1]).is_none());
}

#[test]
fn transaction_encodings_differ_by_variant_tag() {
    let transfer = serialize_transaction(&sample_transfer());
    let storage = serialize_transaction(&sample_storage_pointer());
    assert_eq!(transfer[0], 0);
    assert_eq!(storage[0], 1);
}

#[test]
fn distinct_transactions_have_distinct_hashes() {
    let tx1 = Transaction::new_transfer(vec![1], vec![2], 100);
    let tx2 = Transaction::new_transfer(vec![1], vec![2], 200);
    assert_ne!(tx1.calculate_hash(), tx2.calculate_hash());
}

#[test]
fn sha256_known_answer() {
    // The SHA-256 digest of "abc", as its specification publishes it.
    let digest = sha256(b"abc");
    assert_eq!(
        hex_encode(&digest),
        "ba7816bf8f01cfea414140de5dae2223b00361a396177a9cb410ff61f20015ad"
    );
}

#[test]
fn hex_encode_is_lower_case_in_order() {
    assert_eq!(hex_encode(&[0xde, 0xad, 0xbe, 0xef]), "deadbeef");
    assert_eq!(hex_encode(&[0x00, 0x0f, 0xa0]), "000fa0");
    assert_eq!(hex_encode(&[]), "");
}

#[test]
fn merkle_root_of_empty_list_is_all_zero() {
    assert_eq!(Block::calculate_merkle_root(&[]), [0u8; 32]);
}

#[test]
fn merkle_root_binds_transaction_order() {
    let a = sample_transfer();
    let b = sample_storage_pointer();
    let ab = Block::calculate_merkle_root(&[a.clone(), b.clone()]);
    let ba = Block::calculate_merkle_root(&[b, a]);
    assert_ne!(ab, ba);
}

#[test]
fn header_hash_depends_on_every_field() {
    let header = BlockHeader {
        previous_hash: [1u8; 32],
        merkle_root: [2u8; 32],
        timestamp: 3,
        nonce: 4,
        difficulty: 5,
        height: 6,
    };
    let base = header.calculate_hash();
    let mut changed = header.clone();
    changed.nonce = 7;
    assert_ne!(changed.calculate_hash(), base);
    let mut changed2 = header.clone();
    changed2.height = 7;
    assert_ne!(changed2.calculate_hash(), base);
}

#[test]
fn offchain_addressing_is_deterministic_and_checkable() {
    // Storing the same bytes twice yields the same content address.
    let payload = b"hello offchain world";
    let h1 = OffChainStorageManager::payload_address(payload);
    let h2 = OffChainStorageManager::payload_address(payload);
    assert_eq!(h1, h2);
    // A retrieved payload can be checked against its address.
    assert!(OffChainStorageManager::verify_payload(payload, &h1));
    assert!(!OffChainStorageManager::verify_payload(b"another payload data", &h1));
    // Objects are filed under the lower-case hex of their address.
    assert_eq!(OffChainStorageManager::object_file_name(&h1), hex_encode(&h1));
    let manager = OffChainStorageManager::new("offchain_storage".to_string());
    assert_eq!(manager.storage_path().as_str(), "offchain_storage");
}
