//! The chain engine: validation, mining, atomic append and mempool
//! reconciliation, over the chain store and the mempool.
//!
//! The engine caches the tip hash and tip height and keeps them in
//! agreement with the store. A block is appended only after the full
//! validation funnel: height, previous hash, merkle root, proof-of-work,
//! and the derived difficulty; a failed check leaves every part of the
//! state untouched. Locally mined and externally delivered blocks traverse
//! the identical funnel.

use vstd::prelude::*;

use crate::bytes::{be8, hash_eq};
use crate::chain::{block_hash, merkle_root_of, tx_hash, Block, BlockV, HeaderV, TxV};
use crate::codec::{encode_block, wf_block};
use crate::consensus::{
    calculate_next_difficulty, difficulty_inputs_clean, expected_next_difficulty, header_with_nonce,
    mine, nonce_space_exhausted, pow_ok, verify_pow, MIN_DIFFICULTY,
};
use crate::hashing::now_secs;
use crate::mempool::{has_hash, hash_listed, survives, Mempool, MempoolEntryV};
use crate::storage::{
    block_key, chain_height_key, height_key, last_hash_key, StorageError, StorageManager,
};

verus! {

/// The most transactions a mined block may carry.
pub const MAX_TRANSACTIONS_PER_BLOCK: usize = 100;

/// The mempool size the engine is configured with.
pub const MEMPOOL_MAX_SIZE: usize = 1000;

/// One block appended in this session, with the hash recorded for it at
/// append time.
pub struct SessionEntry {
    pub block: BlockV,
    pub hash: Seq<u8>,
}

/// A failure of an engine operation.
#[derive(Debug)]
pub enum BlockchainError {
    /// The chain store failed.
    Storage(StorageError),
    /// The block's structural relationship to the chain is wrong.
    Validation(String),
    /// The proof-of-work or the stated difficulty is wrong.
    Consensus(String),
    /// The persisted tip metadata is inconsistent.
    Initialization(String),
    /// No block is stored under the named hash.
    BlockNotFoundByHash(String),
    /// No block is stored at the named height.
    BlockNotFoundByHeight(u64),
    /// The genesis block already exists.
    GenesisAlreadyExists,
    /// A mutating operation ran before the genesis block was created.
    NotInitialized,
    /// The mempool refused the transaction.
    Mempool(String),
}

/// Manages the chain state: the store, the mempool, and the cached tip.
pub struct Blockchain {
    storage: StorageManager,
    mempool: Mempool,
    current_tip_hash: Option<crate::chain::Hash>,
    current_height: Option<u64>,
    session: Ghost<Seq<SessionEntry>>,
}

/// The identity hashes of a transaction list.
pub open spec fn txs_hashes(ts: Seq<TxV>) -> Seq<Seq<u8>> {
    ts.map_values(|t: TxV| tx_hash(t))
}

/// The transactions a mined block drains: the oldest pending entries, at
/// most `MAX_TRANSACTIONS_PER_BLOCK` of them, in insertion order.
pub open spec fn drained_txs(mp: Seq<MempoolEntryV>) -> Seq<TxV> {
    mp.take(
        if MAX_TRANSACTIONS_PER_BLOCK as int <= mp.len() {
            MAX_TRANSACTIONS_PER_BLOCK as int
        } else {
            mp.len() as int
        },
    ).map_values(|e: MempoolEntryV| e.tx)
}

impl Blockchain {
    /// The store's key-value map.
    pub closed spec fn storage_map(&self) -> Map<Seq<u8>, Seq<u8>> {
        self.storage@
    }

    /// The pending transactions, in insertion order.
    pub closed spec fn mempool_view(&self) -> Seq<MempoolEntryV> {
        self.mempool@
    }

    /// The cached tip hash.
    pub closed spec fn tip_hash_spec(&self) -> Option<Seq<u8>> {
        match self.current_tip_hash {
            Some(t) => Some(t@),
            None => None,
        }
    }

    /// The cached tip height.
    pub closed spec fn height_spec(&self) -> Option<u64> {
        self.current_height
    }

    /// The blocks appended in this session, oldest first, ending at the
    /// tip.
    pub closed spec fn session_view(&self) -> Seq<SessionEntry> {
        self.session@
    }

    /// The whole observable state, for stating that an operation changed
    /// nothing.
    pub open spec fn state(&self) -> (
        Map<Seq<u8>, Seq<u8>>,
        Seq<MempoolEntryV>,
        Option<Seq<u8>>,
        Option<u64>,
        Seq<SessionEntry>,
    ) {
        (
            self.storage_map(),
            self.mempool_view(),
            self.tip_hash_spec(),
            self.height_spec(),
            self.session_view(),
        )
    }

    /// The engine invariant: the tip cache agrees with the store's tip
    /// records; the blocks appended in this session sit at consecutive
    /// heights ending at the tip, each linked to its predecessor's recorded
    /// hash, each above the genesis carrying a hash that meets its own
    /// difficulty, and each with its height-index and block records stored.
    pub closed spec fn wf(&self) -> bool {
        &&& self.mempool.wf()
        &&& self.mempool.capacity() == MEMPOOL_MAX_SIZE as int
        &&& self.storage.wf()
        &&& (self.current_tip_hash is Some <==> self.current_height is Some)
        &&& (self.current_height is None ==> self.session@.len() == 0)
        &&& (self.current_tip_hash is None ==> !self.storage@.contains_key(last_hash_key())
            && !self.storage@.contains_key(chain_height_key()))
        &&& match self.current_height {
            Some(h) => {
                let m = self.storage@;
                let s = self.session@;
                let tip = self.current_tip_hash.unwrap()@;
                &&& m.contains_key(last_hash_key()) && m[last_hash_key()] == tip
                &&& m.contains_key(chain_height_key()) && m[chain_height_key()] == be8(h)
                &&& s.len() <= h as int + 1
                &&& (forall|i: int| 0 <= i < s.len() ==> (#[trigger] s[i]).hash.len() == 32)
                &&& (forall|i: int|
                    0 <= i < s.len() ==> (#[trigger] s[i]).block.header.height == h + 1 - s.len()
                        + i)
                &&& (forall|i: int| 0 <= i < s.len() ==> wf_block((#[trigger] s[i]).block))
                &&& (forall|i: int|
                    0 <= i < s.len() && s[i].block.header.height > 0 ==> pow_ok(
                        (#[trigger] s[i]).hash,
                        s[i].block.header.difficulty,
                    ))
                &&& (forall|i: int|
                    1 <= i < s.len() ==> (#[trigger] s[i]).block.header.previous_hash == s[i
                        - 1].hash)
                &&& (s.len() > 0 ==> s[s.len() - 1].hash == tip)
                &&& (forall|i: int|
                    0 <= i < s.len() ==> m.contains_key(
                        height_key((#[trigger] s[i]).block.header.height),
                    ) && m[height_key(s[i].block.header.height)] == s[i].hash)
                &&& (forall|i: int|
                    0 <= i < s.len() ==> m.contains_key(block_key((#[trigger] s[i]).hash))
                        && exists|b2: BlockV|
                        m[block_key(s[i].hash)] == encode_block(b2) && wf_block(b2))
                &&& (forall|i: int|
                    0 <= i < s.len() ==> m[block_key((#[trigger] s[i]).hash)] == encode_block(
                        s[i].block,
                    ) || exists|j: int| i < j < s.len() && s[j].hash == s[i].hash)
            },
            None => true,
        }
    }

    /// Builds an engine over the given store, loading the tip metadata.
    /// Exactly one of the two tip records being present refuses to start;
    /// a tip record that is present but malformed surfaces as a storage
    /// format error rather than an initialization error.
    pub fn new(storage: StorageManager) -> (r: Result<Blockchain, BlockchainError>)
        requires
            storage.wf(),
        ensures
            match r {
                Ok(bc) => {
                    &&& bc.wf()
                    &&& bc.storage_map() == storage@
                    &&& bc.mempool_view() == Seq::<MempoolEntryV>::empty()
                    &&& bc.session_view() == Seq::<SessionEntry>::empty()
                    &&& (bc.height_spec() matches Some(h) ==> storage@.contains_key(
                        chain_height_key(),
                    ) && storage@[chain_height_key()] == be8(h))
                    &&& (bc.tip_hash_spec() matches Some(t) ==> storage@.contains_key(
                        last_hash_key(),
                    ) && storage@[last_hash_key()] == t)
                    &&& (bc.height_spec() is None ==> !storage@.contains_key(chain_height_key()))
                    &&& (bc.tip_hash_spec() is None ==> !storage@.contains_key(last_hash_key()))
                },
                Err(e) => match e {
                    BlockchainError::Storage(se) => se is InvalidFormat && ((
                    storage@.contains_key(last_hash_key()) && storage@[last_hash_key()].len()
                        != 32) || (storage@.contains_key(chain_height_key())
                        && storage@[chain_height_key()].len() != 8)),
                    BlockchainError::Initialization(_) => storage@.contains_key(last_hash_key())
                        != storage@.contains_key(chain_height_key()),
                    _ => false,
                },
            },
    {
        let current_tip_hash = match storage.get_last_block_hash() {
            Ok(t) => t,
            Err(e) => {
                return Err(BlockchainError::Storage(e));
            },
        };
        let current_height = match storage.get_chain_height() {
            Ok(h) => h,
            Err(e) => {
                return Err(BlockchainError::Storage(e));
            },
        };
        if current_tip_hash.is_some() != current_height.is_some() {
            return Err(
                BlockchainError::Initialization(
                    "Inconsistent tip hash and height in storage".to_owned(),
                ),
            );
        }
        let bc = Blockchain {
            storage,
            mempool: Mempool::new(MEMPOOL_MAX_SIZE),
            current_tip_hash,
            current_height,
            session: Ghost(Seq::empty()),
        };
        Ok(bc)
    }

    /// The pending-transaction buffer.
    pub fn mempool(&self) -> (r: &Mempool)
        ensures
            r@ == self.mempool_view(),
            self.wf() ==> r.wf() && r.capacity() == MEMPOOL_MAX_SIZE as int,
    {
        &self.mempool
    }

    /// The chain store.
    pub fn storage(&self) -> (r: &StorageManager)
        ensures
            r@ == self.storage_map(),
            self.wf() ==> r.wf(),
    {
        &self.storage
    }

    /// The hash of the tip block, when the chain is initialized.
    pub fn get_last_block_hash(&self) -> (r: Option<crate::chain::Hash>)
        ensures
            match r {
                Some(t) => self.tip_hash_spec() == Some(t@),
                None => self.tip_hash_spec() is None,
            },
    {
        self.current_tip_hash
    }

    /// The height of the tip block, when the chain is initialized.
    pub fn get_chain_height(&self) -> (r: Option<u64>)
        ensures
            r == self.height_spec(),
    {
        self.current_height
    }

    /// Retrieves a block by its hash from the store.
    pub fn get_block_by_hash(&self, hash: &crate::chain::Hash) -> (r: Result<
        Option<Block>,
        BlockchainError,
    >)
        requires
            self.wf(),
        ensures
            match r {
                Ok(ob) => match ob {
                    Some(b) => self.storage_map().contains_key(block_key(hash@))
                        && self.storage_map()[block_key(hash@)] == encode_block(b@) && wf_block(
                        b@,
                    ),
                    None => !self.storage_map().contains_key(block_key(hash@)),
                },
                Err(e) => e matches BlockchainError::Storage(se) && se is Deserialization
                    && self.storage_map().contains_key(block_key(hash@))
                    && crate::codec::decoded_block(self.storage_map()[block_key(hash@)]) is None,
            },
    {
        match self.storage.get_block_by_hash(hash) {
            Ok(ob) => Ok(ob),
            Err(e) => Err(BlockchainError::Storage(e)),
        }
    }

    /// Retrieves a block by its height from the store.
    pub fn get_block_by_height(&self, height: u64) -> (r: Result<Option<Block>, BlockchainError>)
        requires
            self.wf(),
        ensures
            match r {
                Ok(ob) => match ob {
                    Some(b) => crate::storage::stored_block_at(self.storage_map(), height) == Some(
                        b@,
                    ) && wf_block(b@),
                    None => !crate::storage::clean_block_at(self.storage_map(), height),
                },
                Err(e) => e is Storage && !crate::storage::clean_block_at(
                    self.storage_map(),
                    height,
                ),
            },
    {
        match self.storage.get_block_by_height(height) {
            Ok(ob) => Ok(ob),
            Err(e) => Err(BlockchainError::Storage(e)),
        }
    }

    /// Adds a transaction to the mempool; `Ok(false)` reports that its hash
    /// was already pending. The engine's mempool capacity is fixed above
    /// zero, so this never fails.
    pub fn add_pending_transaction(&mut self, tx: crate::chain::Transaction) -> (r: Result<
        bool,
        BlockchainError,
    >)
        requires
            old(self).wf(),
        ensures
            final(self).wf(),
            r is Ok,
            final(self).storage_map() == old(self).storage_map(),
            final(self).tip_hash_spec() == old(self).tip_hash_spec(),
            final(self).height_spec() == old(self).height_spec(),
            final(self).session_view() == old(self).session_view(),
            match r {
                Ok(added) => {
                    if added {
                        &&& !has_hash(old(self).mempool_view(), tx_hash(tx@))
                        &&& {
                            let entry = MempoolEntryV { hash: tx_hash(tx@), tx: tx@ };
                            if old(self).mempool_view().len() < MEMPOOL_MAX_SIZE as int {
                                final(self).mempool_view() == old(self).mempool_view().push(entry)
                            } else {
                                final(self).mempool_view() == old(self).mempool_view().subrange(
                                    1,
                                    old(self).mempool_view().len() as int,
                                ).push(entry)
                            }
                        }
                    } else {
                        &&& has_hash(old(self).mempool_view(), tx_hash(tx@))
                        &&& final(self).mempool_view() == old(self).mempool_view()
                    }
                },
                Err(_) => false,
            },
    {
        match self.mempool.add_transaction(tx) {
            Ok(added) => Ok(added),
            Err(msg) => Err(BlockchainError::Mempool(msg)),
        }
    }

    /// Creates and saves the genesis block when the chain is empty: height
    /// zero, all-zero previous hash, no transactions, the minimum
    /// difficulty, nonce zero, timestamped with the current clock reading.
    pub fn initialize_genesis_if_needed(&mut self) -> (r: Result<(), BlockchainError>)
        requires
            old(self).wf(),
        ensures
            final(self).wf(),
            r is Ok,
            final(self).mempool_view() == old(self).mempool_view(),
            old(self).height_spec() is Some ==> final(self).state() == old(self).state(),
            old(self).height_spec() is None ==> {
                &&& final(self).height_spec() == Some(0u64)
                &&& final(self).session_view().len() == 1
                &&& {
                    let e = final(self).session_view()[0];
                    &&& e.block.header.height == 0
                    &&& e.block.header.previous_hash == crate::chain::zero_hash()
                    &&& e.block.header.merkle_root == merkle_root_of(Seq::<TxV>::empty())
                    &&& e.block.header.difficulty == MIN_DIFFICULTY
                    &&& e.block.header.nonce == 0
                    &&& e.block.transactions == Seq::<TxV>::empty()
                    &&& e.hash == block_hash(e.block.header)
                    &&& final(self).tip_hash_spec() == Some(e.hash)
                    &&& final(self).storage_map() == old(self).storage_map().insert(
                        block_key(e.hash),
                        encode_block(e.block),
                    ).insert(height_key(0), e.hash).insert(last_hash_key(), e.hash).insert(
                        chain_height_key(),
                        be8(0),
                    )
                }
            },
    {
        if self.current_height.is_some() {
            return Ok(());
        }
        let transactions: Vec<crate::chain::Transaction> = Vec::new();
        let merkle_root = Block::calculate_merkle_root(transactions.as_slice());
        let timestamp = now_secs();
        let header = crate::chain::BlockHeader {
            previous_hash: [0u8; 32],
            merkle_root,
            timestamp,
            nonce: 0,
            difficulty: MIN_DIFFICULTY,
            height: 0,
        };
        let block = Block { header, transactions };
        let genesis_hash = block.hash();
        proof {
            assert(block@.transactions =~= Seq::<TxV>::empty());
            assert(block@.header.previous_hash =~= crate::chain::zero_hash());
        }
        match self.storage.save_block(&block) {
            Ok(()) => {},
            Err(e) => {
                return Err(BlockchainError::Storage(e));
            },
        }
        self.current_tip_hash = Some(genesis_hash);
        self.current_height = Some(0);
        let ghost genesis_session = seq![SessionEntry { block: block@, hash: genesis_hash@ }];
        self.session = Ghost(genesis_session);
        proof {
            lemma_chain_key_shapes();
            assert(self.wf());
        }
        Ok(())
    }

    /// Validates a block against the tip and appends it: the height must be
    /// the next one, the previous hash must be the tip hash, the merkle
    /// root must match the transactions, the hash must meet the block's
    /// stated difficulty, and that difficulty must equal the derived
    /// expectation. Any failure leaves the state untouched.
    pub fn add_block(&mut self, block: Block) -> (r: Result<(), BlockchainError>)
        requires
            old(self).wf(),
        ensures
            final(self).wf(),
            match r {
                Ok(()) => {
                    let h = old(self).height_spec().unwrap();
                    let bh = block_hash(block@.header);
                    &&& old(self).height_spec() is Some
                    &&& block@.header.height == h + 1
                    &&& Some(block@.header.previous_hash) == old(self).tip_hash_spec()
                    &&& block@.header.merkle_root == merkle_root_of(block@.transactions)
                    &&& pow_ok(bh, block@.header.difficulty)
                    &&& expected_next_difficulty(old(self).storage_map(), h) == Some(
                        block@.header.difficulty,
                    )
                    &&& final(self).height_spec() == Some(block@.header.height)
                    &&& final(self).tip_hash_spec() == Some(bh)
                    &&& final(self).session_view() == old(self).session_view().push(
                        SessionEntry { block: block@, hash: bh },
                    )
                    &&& final(self).mempool_view() == old(self).mempool_view()
                    &&& final(self).storage_map() == old(self).storage_map().insert(
                        block_key(bh),
                        encode_block(block@),
                    ).insert(height_key(block@.header.height), bh).insert(
                        last_hash_key(),
                        bh,
                    ).insert(chain_height_key(), be8(block@.header.height))
                },
                Err(e) => {
                    &&& final(self).state() == old(self).state()
                    &&& match e {
                        BlockchainError::NotInitialized => old(self).height_spec() is None,
                        BlockchainError::Validation(_) => {
                            let h = old(self).height_spec().unwrap();
                            &&& old(self).height_spec() is Some
                            &&& (block@.header.height != h + 1 || Some(
                                block@.header.previous_hash,
                            ) != old(self).tip_hash_spec() || block@.header.merkle_root
                                != merkle_root_of(block@.transactions))
                        },
                        BlockchainError::Consensus(_) => {
                            let h = old(self).height_spec().unwrap();
                            &&& old(self).height_spec() is Some
                            &&& block@.header.height == h + 1
                            &&& Some(block@.header.previous_hash) == old(self).tip_hash_spec()
                            &&& block@.header.merkle_root == merkle_root_of(block@.transactions)
                            &&& (!pow_ok(block_hash(block@.header), block@.header.difficulty)
                                || !(difficulty_inputs_clean(old(self).storage_map(), h)
                                && expected_next_difficulty(old(self).storage_map(), h) == Some(
                                block@.header.difficulty,
                            )))
                        },
                        _ => false,
                    }
                },
            },
    {
        let current_height = match self.current_height {
            Some(h) => h,
            None => {
                return Err(BlockchainError::NotInitialized);
            },
        };
        let current_tip_hash = match self.current_tip_hash {
            Some(t) => t,
            None => {
                return Err(BlockchainError::NotInitialized);
            },
        };
        let block_hash_arr = block.hash();
        let height_ok = match current_height.checked_add(1) {
            Some(expected) => block.header.height == expected,
            None => false,
        };
        if !height_ok {
            return Err(BlockchainError::Validation("Invalid block height".to_owned()));
        }
        if !hash_eq(&block.header.previous_hash, &current_tip_hash) {
            return Err(BlockchainError::Validation("Invalid previous block hash".to_owned()));
        }
        let merkle = Block::calculate_merkle_root(block.transactions.as_slice());
        if !hash_eq(&block.header.merkle_root, &merkle) {
            return Err(BlockchainError::Validation("Invalid Merkle root".to_owned()));
        }
        if !verify_pow(&block_hash_arr, block.header.difficulty) {
            return Err(
                BlockchainError::Consensus(
                    "Invalid Proof-of-Work: the hash does not meet the difficulty".to_owned(),
                ),
            );
        }
        let expected_difficulty = match calculate_next_difficulty(current_height, &self.storage) {
            Ok(d) => d,
            Err(msg) => {
                return Err(BlockchainError::Consensus(msg));
            },
        };
        if block.header.difficulty != expected_difficulty {
            return Err(
                BlockchainError::Consensus("Incorrect difficulty for this height".to_owned()),
            );
        }
        let ghost pre = *self;
        match self.storage.save_block(&block) {
            Ok(()) => {},
            Err(e) => {
                return Err(BlockchainError::Storage(e));
            },
        }
        self.current_tip_hash = Some(block_hash_arr);
        self.current_height = Some(block.header.height);
        let ghost grown_session = self.session@.push(
            SessionEntry { block: block@, hash: block_hash_arr@ },
        );
        self.session = Ghost(grown_session);
        proof {
            lemma_chain_key_shapes();
            let s = self.session@;
            let m = self.storage@;
            let h = block@.header.height;
            assert forall|i: int| 0 <= i < s.len() - 1 implies m.contains_key(
                height_key((#[trigger] s[i]).block.header.height),
            ) && m[height_key(s[i].block.header.height)] == s[i].hash by {
                assert(s[i] == pre.session@[i]);
                assert(s[i].block.header.height < h);
                lemma_height_key_injective(s[i].block.header.height, h);
            }
            assert forall|i: int| 0 <= i < s.len() - 1 implies m.contains_key(
                block_key((#[trigger] s[i]).hash),
            ) && exists|b2: BlockV|
                m[block_key(s[i].hash)] == encode_block(b2) && wf_block(b2) by {
                assert(s[i] == pre.session@[i]);
                if block_key(s[i].hash) == block_key(block_hash_arr@) {
                    assert(m[block_key(s[i].hash)] == encode_block(block@) && wf_block(block@));
                } else {
                    let b0 = choose|b2: BlockV|
                        pre.storage@[block_key(s[i].hash)] == encode_block(b2) && wf_block(b2);
                    assert(m[block_key(s[i].hash)] == encode_block(b0) && wf_block(b0));
                }
            }
            assert forall|i: int| 0 <= i < s.len() implies m[block_key((#[trigger] s[i]).hash)]
                == encode_block(s[i].block) || exists|j: int|
                i < j < s.len() && s[j].hash == s[i].hash by {
                if i == s.len() - 1 {
                    assert(m[block_key(s[i].hash)] == encode_block(block@));
                } else {
                    assert(s[i] == pre.session@[i]);
                    if block_key(s[i].hash) == block_key(block_hash_arr@) {
                        assert(s[i].hash.len() == 32);
                        assert(block_key(s[i].hash).subrange(1, 33) =~= s[i].hash);
                        assert(block_key(block_hash_arr@).subrange(1, 33) =~= block_hash_arr@);
                        assert(s[i].hash == block_hash_arr@);
                        assert(s[s.len() - 1].hash == s[i].hash);
                    } else {
                        assert(m[block_key(s[i].hash)] == pre.storage@[block_key(s[i].hash)]);
                        if pre.storage@[block_key(s[i].hash)] != encode_block(s[i].block) {
                            let j0 = choose|j: int|
                                i < j < pre.session@.len() && pre.session@[j].hash == s[i].hash;
                            assert(s[j0].hash == s[i].hash);
                        }
                    }
                }
            }
            assert(self.wf());
        }
        Ok(())
    }

    /// Assembles a candidate block over the tip from up to
    /// `MAX_TRANSACTIONS_PER_BLOCK` pending transactions, derives its
    /// difficulty, and mines it. The engine state is unchanged; the caller
    /// appends the block through `process_mined_block`. A consensus error
    /// comes back only when the difficulty derivation cannot read its
    /// records or no nonce at all satisfies the target for the assembled
    /// header.
    pub fn mine_new_block(&mut self) -> (r: Result<Block, BlockchainError>)
        requires
            old(self).wf(),
        ensures
            final(self).wf(),
            final(self).state() == old(self).state(),
            match r {
                Ok(b) => {
                    let h = old(self).height_spec().unwrap();
                    &&& old(self).height_spec() is Some
                    &&& b@.header.height == h + 1
                    &&& Some(b@.header.previous_hash) == old(self).tip_hash_spec()
                    &&& b@.header.merkle_root == merkle_root_of(b@.transactions)
                    &&& pow_ok(block_hash(b@.header), b@.header.difficulty)
                    &&& expected_next_difficulty(old(self).storage_map(), h) == Some(
                        b@.header.difficulty,
                    )
                    &&& b@.transactions == drained_txs(old(self).mempool_view())
                },
                Err(e) => match e {
                    BlockchainError::NotInitialized => old(self).height_spec() is None,
                    BlockchainError::Consensus(_) => {
                        let h = old(self).height_spec().unwrap();
                        let m = old(self).storage_map();
                        &&& old(self).height_spec() is Some
                        &&& h < u64::MAX
                        &&& (!difficulty_inputs_clean(m, h) || {
                            let d = expected_next_difficulty(m, h).unwrap();
                            exists|ts: u64|
                                #[trigger] nonce_space_exhausted(
                                    HeaderV {
                                        previous_hash: old(self).tip_hash_spec().unwrap(),
                                        merkle_root: merkle_root_of(
                                            drained_txs(old(self).mempool_view()),
                                        ),
                                        timestamp: ts,
                                        nonce: 0,
                                        difficulty: d,
                                        height: (h + 1) as u64,
                                    },
                                    d,
                                )
                        })
                    },
                    BlockchainError::Validation(_) => old(self).height_spec()
                        == Some(u64::MAX as u64),
                    _ => false,
                },
            },
    {
        let current_height = match self.current_height {
            Some(h) => h,
            None => {
                return Err(BlockchainError::NotInitialized);
            },
        };
        let previous_hash = match self.current_tip_hash {
            Some(t) => t,
            None => {
                return Err(BlockchainError::NotInitialized);
            },
        };
        let next_height = match current_height.checked_add(1) {
            Some(x) => x,
            None => {
                return Err(
                    BlockchainError::Validation("the chain height cannot grow further".to_owned()),
                );
            },
        };
        let transactions = self.mempool.get_transactions(MAX_TRANSACTIONS_PER_BLOCK);
        let difficulty = match calculate_next_difficulty(current_height, &self.storage) {
            Ok(d) => d,
            Err(msg) => {
                return Err(BlockchainError::Consensus(msg));
            },
        };
        let ghost txs_view = transactions.deep_view();
        proof {
            assert(txs_view =~= drained_txs(old(self).mempool_view()));
        }
        let mut block = Block::new(previous_hash, transactions, difficulty, next_height);
        let ghost assembled = block@;
        let mined = match mine(&mut block.header, difficulty) {
            Ok(hh) => hh,
            Err(msg) => {
                proof {
                    let m = old(self).storage_map();
                    let ghost d = difficulty;
                    let ghost ts = assembled.header.timestamp;
                    let hv = HeaderV {
                        previous_hash: old(self).tip_hash_spec().unwrap(),
                        merkle_root: merkle_root_of(drained_txs(old(self).mempool_view())),
                        timestamp: ts,
                        nonce: 0,
                        difficulty: d,
                        height: (current_height + 1) as u64,
                    };
                    assert(assembled.header =~= hv);
                    assert forall|n: u64| !pow_ok(
                        #[trigger] block_hash(header_with_nonce(hv, d, n)),
                        d,
                    ) by {
                        assert(n >= assembled.header.nonce);
                        assert(header_with_nonce(hv, d, n) == header_with_nonce(
                            assembled.header,
                            d,
                            n,
                        ));
                    }
                    assert(nonce_space_exhausted(hv, d));
                    let h_spec = old(self).height_spec().unwrap();
                    assert(h_spec == current_height);
                    assert(expected_next_difficulty(m, h_spec) == Some(difficulty));
                    let d2 = expected_next_difficulty(m, h_spec).unwrap();
                    assert(d2 == difficulty);
                    let hv2 = HeaderV {
                        previous_hash: old(self).tip_hash_spec().unwrap(),
                        merkle_root: merkle_root_of(drained_txs(old(self).mempool_view())),
                        timestamp: ts,
                        nonce: 0,
                        difficulty: d2,
                        height: (h_spec + 1) as u64,
                    };
                    assert(hv2 == hv);
                    assert(nonce_space_exhausted(hv2, d2));
                }
                return Err(BlockchainError::Consensus(msg));
            },
        };
        proof {
            assert(block@.transactions == assembled.transactions);
            assert(block@.header.merkle_root == merkle_root_of(block@.transactions));
        }
        Ok(block)
    }

    /// Runs a mined block through the append funnel: on success the given
    /// block is the one appended and persisted, and every transaction it
    /// carries is removed from the mempool; on failure the mempool and the
    /// chain are untouched, and the error kind names the check that
    /// failed, exactly as in `add_block`.
    pub fn process_mined_block(&mut self, mined_block: Block) -> (r: Result<(), BlockchainError>)
        requires
            old(self).wf(),
        ensures
            final(self).wf(),
            match r {
                Ok(()) => {
                    let h = old(self).height_spec().unwrap();
                    let bh = block_hash(mined_block@.header);
                    &&& old(self).height_spec() is Some
                    &&& mined_block@.header.height == h + 1
                    &&& Some(mined_block@.header.previous_hash) == old(self).tip_hash_spec()
                    &&& mined_block@.header.merkle_root == merkle_root_of(
                        mined_block@.transactions,
                    )
                    &&& pow_ok(bh, mined_block@.header.difficulty)
                    &&& expected_next_difficulty(old(self).storage_map(), h) == Some(
                        mined_block@.header.difficulty,
                    )
                    &&& final(self).height_spec() == Some(mined_block@.header.height)
                    &&& final(self).tip_hash_spec() == Some(bh)
                    &&& final(self).session_view() == old(self).session_view().push(
                        SessionEntry { block: mined_block@, hash: bh },
                    )
                    &&& final(self).storage_map() == old(self).storage_map().insert(
                        block_key(bh),
                        encode_block(mined_block@),
                    ).insert(height_key(mined_block@.header.height), bh).insert(
                        last_hash_key(),
                        bh,
                    ).insert(chain_height_key(), be8(mined_block@.header.height))
                    &&& final(self).mempool_view() == old(self).mempool_view().filter(
                        survives(txs_hashes(mined_block@.transactions)),
                    )
                    &&& (forall|i: int|
                        0 <= i < mined_block@.transactions.len() ==> !has_hash(
                            final(self).mempool_view(),
                            tx_hash(#[trigger] mined_block@.transactions[i]),
                        ))
                },
                Err(e) => {
                    &&& final(self).state() == old(self).state()
                    &&& match e {
                        BlockchainError::NotInitialized => old(self).height_spec() is None,
                        BlockchainError::Validation(_) => {
                            let h = old(self).height_spec().unwrap();
                            &&& old(self).height_spec() is Some
                            &&& (mined_block@.header.height != h + 1 || Some(
                                mined_block@.header.previous_hash,
                            ) != old(self).tip_hash_spec() || mined_block@.header.merkle_root
                                != merkle_root_of(mined_block@.transactions))
                        },
                        BlockchainError::Consensus(_) => {
                            let h = old(self).height_spec().unwrap();
                            &&& old(self).height_spec() is Some
                            &&& mined_block@.header.height == h + 1
                            &&& Some(mined_block@.header.previous_hash) == old(
                                self,
                            ).tip_hash_spec()
                            &&& mined_block@.header.merkle_root == merkle_root_of(
                                mined_block@.transactions,
                            )
                            &&& (!pow_ok(
                                block_hash(mined_block@.header),
                                mined_block@.header.difficulty,
                            ) || !(difficulty_inputs_clean(old(self).storage_map(), h)
                                && expected_next_difficulty(old(self).storage_map(), h) == Some(
                                mined_block@.header.difficulty,
                            )))
                        },
                        _ => false,
                    }
                },
            },
    {
        let ghost gb = mined_block@;
        let n = mined_block.transactions.len();
        let mut tx_hashes: Vec<crate::chain::Hash> = Vec::new();
        let mut i: usize = 0;
        while i < n
            invariant
                0 <= i <= n,
                n == mined_block.transactions@.len(),
                gb == mined_block@,
                tx_hashes.deep_view().len() == i,
                forall|j: int|
                    0 <= j < i ==> tx_hashes.deep_view()[j] == tx_hash(
                        #[trigger] gb.transactions[j],
                    ),
            decreases n - i,
        {
            let h = mined_block.transactions[i].calculate_hash();
            tx_hashes.push(h);
            proof {
                assert(mined_block.transactions@[i as int]@ == gb.transactions[i as int]);
                assert(tx_hashes.deep_view()[i as int] == h@);
            }
            i += 1;
        }
        proof {
            assert(tx_hashes.deep_view() =~= txs_hashes(gb.transactions));
        }
        match self.add_block(mined_block) {
            Ok(()) => {},
            Err(e) => {
                return Err(e);
            },
        }
        self.mempool.remove_transactions(tx_hashes.as_slice());
        proof {
            assert(self.session@.last().block == gb);
            assert forall|i2: int| 0 <= i2 < gb.transactions.len() implies !has_hash(
                self.mempool@,
                tx_hash(#[trigger] gb.transactions[i2]),
            ) by {
                assert(tx_hashes.deep_view()[i2] == tx_hash(gb.transactions[i2]));
                assert(hash_listed(tx_hashes.deep_view(), tx_hash(gb.transactions[i2])));
            }
        }
        Ok(())
    }
}

/// The four kinds of store keys never collide across kinds; keys of the
/// same kind collide only on the same height or hash.
pub proof fn lemma_chain_key_shapes()
    ensures
        forall|a: u64, hh: Seq<u8>|
            hh.len() == 32 ==> #[trigger] height_key(a) != #[trigger] block_key(hh),
        forall|a: u64| #[trigger] height_key(a) != last_hash_key(),
        forall|a: u64| #[trigger] height_key(a) != chain_height_key(),
        forall|hh: Seq<u8>| hh.len() == 32 ==> #[trigger] block_key(hh) != last_hash_key(),
        forall|hh: Seq<u8>| hh.len() == 32 ==> #[trigger] block_key(hh) != chain_height_key(),
        last_hash_key() != chain_height_key(),
{
    assert forall|a: u64, hh: Seq<u8>| hh.len() == 32 implies #[trigger] height_key(a)
        != #[trigger] block_key(hh) by {
        assert(height_key(a).len() == 9);
        assert(block_key(hh).len() == 33);
    }
    assert forall|a: u64| #[trigger] height_key(a) != last_hash_key() by {
        assert(height_key(a).len() == 9 && last_hash_key().len() == 2);
    }
    assert forall|a: u64| #[trigger] height_key(a) != chain_height_key() by {
        assert(height_key(a).len() == 9 && chain_height_key().len() == 2);
    }
    assert forall|hh: Seq<u8>| hh.len() == 32 implies #[trigger] block_key(hh)
        != last_hash_key() by {
        assert(block_key(hh).len() == 33 && last_hash_key().len() == 2);
    }
    assert forall|hh: Seq<u8>| hh.len() == 32 implies #[trigger] block_key(hh)
        != chain_height_key() by {
        assert(block_key(hh).len() == 33 && chain_height_key().len() == 2);
    }
    assert(last_hash_key()[0] != chain_height_key()[0]);
}

/// Height-index keys of different heights differ.
pub proof fn lemma_height_key_injective(a: u64, b: u64)
    requires
        a != b,
    ensures
        height_key(a) != height_key(b),
{
    if height_key(a) == height_key(b) {
        assert(be8(a) =~= height_key(a).subrange(1, 9));
        assert(be8(b) =~= height_key(b).subrange(1, 9));
        crate::bytes::lemma_be8_injective(a, b);
    }
}

/// Every block appended in this session above the genesis links to its
/// predecessor: its stated previous hash is the hash recorded for the
/// session block one height below.
pub proof fn lemma_session_blocks_linked(bc: &Blockchain, i: int)
    requires
        bc.wf(),
        1 <= i < bc.session_view().len(),
    ensures
        bc.session_view()[i].block.header.previous_hash == bc.session_view()[i - 1].hash,
        bc.session_view()[i].block.header.height == bc.session_view()[i - 1].block.header.height
            + 1,
{
}

/// Every block appended in this session above the genesis carries a hash
/// that meets the block's own stated difficulty.
pub proof fn lemma_session_blocks_pow(bc: &Blockchain, i: int)
    requires
        bc.wf(),
        0 <= i < bc.session_view().len(),
        bc.session_view()[i].block.header.height > 0,
    ensures
        pow_ok(bc.session_view()[i].hash, bc.session_view()[i].block.header.difficulty),
{
}

/// Every block appended in this session is reachable in the store: its
/// height-index record holds its recorded hash and a block record is
/// stored under that hash; the session ends at the cached tip, whose
/// records the store holds.
pub proof fn lemma_session_blocks_stored(bc: &Blockchain, i: int)
    requires
        bc.wf(),
        0 <= i < bc.session_view().len(),
    ensures
        bc.storage_map().contains_key(height_key(bc.session_view()[i].block.header.height)),
        bc.storage_map()[height_key(bc.session_view()[i].block.header.height)]
            == bc.session_view()[i].hash,
        bc.storage_map().contains_key(block_key(bc.session_view()[i].hash)),
        bc.session_view().len() > 0 ==> bc.tip_hash_spec() == Some(
            bc.session_view().last().hash,
        ) && bc.storage_map()[last_hash_key()] == bc.session_view().last().hash,
{
}


/// The mempool never holds more than the configured maximum number of
/// pending transactions.
pub proof fn lemma_mempool_bounded(bc: &Blockchain)
    requires
        bc.wf(),
    ensures
        bc.mempool_view().len() <= MEMPOOL_MAX_SIZE as int,
{
}



/// The cached tip agrees with the store's tip records at every rest
/// point: present together with matching values, or absent together.
pub proof fn lemma_tip_cache_agrees(bc: &Blockchain)
    requires
        bc.wf(),
    ensures
        match bc.height_spec() {
            Some(h) => {
                &&& bc.tip_hash_spec() is Some
                &&& bc.storage_map().contains_key(chain_height_key())
                &&& bc.storage_map()[chain_height_key()] == be8(h)
                &&& bc.storage_map().contains_key(last_hash_key())
                &&& bc.storage_map()[last_hash_key()] == bc.tip_hash_spec().unwrap()
            },
            None => {
                &&& bc.tip_hash_spec() is None
                &&& !bc.storage_map().contains_key(chain_height_key())
                &&& !bc.storage_map().contains_key(last_hash_key())
            },
        },
{
}

/// The tip block appended in this session is stored intact: the height
/// index at the tip height names its recorded hash, the block record
/// under that hash is exactly its encoding, and reading the tip height
/// through the store yields exactly that block.
pub proof fn lemma_tip_block_stored(bc: &Blockchain)
    requires
        bc.wf(),
        bc.session_view().len() > 0,
    ensures
        ({
            let e = bc.session_view().last();
            let m = bc.storage_map();
            &&& bc.height_spec() == Some(e.block.header.height)
            &&& bc.tip_hash_spec() == Some(e.hash)
            &&& m.contains_key(height_key(e.block.header.height))
            &&& m[height_key(e.block.header.height)] == e.hash
            &&& m.contains_key(block_key(e.hash))
            &&& m[block_key(e.hash)] == encode_block(e.block)
            &&& crate::storage::stored_block_at(m, e.block.header.height) == Some(e.block)
        }),
{
    let e = bc.session_view().last();
    let m = bc.storage_map();
    let k = bc.session_view().len() - 1;
    assert(bc.session_view()[k] == e);
    assert(m[block_key(e.hash)] == encode_block(e.block)) by {
        if m[block_key(e.hash)] != encode_block(e.block) {
            let j = choose|j: int|
                k < j < bc.session_view().len() && bc.session_view()[j].hash == e.hash;
        }
    }
    crate::codec::lemma_decoded_block_of_encoding(e.block);
}


} // verus!
