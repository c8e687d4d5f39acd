//! The chain data model: transactions, block headers and blocks, together
//! with their hashing rules.
//!
//! A transaction is identified by the SHA-256 digest of its canonical
//! encoding; a block is identified by the SHA-256 digest of its header's
//! canonical encoding. The merkle root of a block is the SHA-256 digest of
//! the concatenation of its transaction hashes in order (the empty list
//! yields the all-zero root).

use vstd::prelude::*;

use crate::bytes::{bytes_eq, hash_eq};
use crate::codec::{encode_header, encode_tx, serialize_header, serialize_transaction};
use crate::hashing::{now_secs, sha256, sha256_of};

verus! {

/// A 32-byte SHA-256 value.
pub type Hash = [u8; 32];

/// An opaque, variable-length account address.
pub type Address = Vec<u8>;

/// Mathematical value of a transaction.
#[verifier::ext_equal]
pub enum TxV {
    Transfer { sender: Seq<u8>, receiver: Seq<u8>, amount: u64, timestamp: u64 },
    StoragePointer { sender: Seq<u8>, payload_hash: Seq<u8>, payload_size: u64, timestamp: u64 },
}

/// Mathematical value of a block header.
#[verifier::ext_equal]
pub struct HeaderV {
    pub previous_hash: Seq<u8>,
    pub merkle_root: Seq<u8>,
    pub timestamp: u64,
    pub nonce: u64,
    pub difficulty: u32,
    pub height: u64,
}

/// Mathematical value of a block.
#[verifier::ext_equal]
pub struct BlockV {
    pub header: HeaderV,
    pub transactions: Seq<TxV>,
}

/// A transaction: either a value transfer or a pointer to an off-chain
/// payload, stored by content hash and size.
#[derive(Debug)]
pub enum Transaction {
    Transfer { sender: Address, receiver: Address, amount: u64, timestamp: u64 },
    StoragePointer { sender: Address, payload_hash: Hash, payload_size: u64, timestamp: u64 },
}

impl View for Transaction {
    type V = TxV;

    open spec fn view(&self) -> TxV {
        match self {
            Transaction::Transfer { sender, receiver, amount, timestamp } => TxV::Transfer {
                sender: sender@,
                receiver: receiver@,
                amount: *amount,
                timestamp: *timestamp,
            },
            Transaction::StoragePointer {
                sender,
                payload_hash,
                payload_size,
                timestamp,
            } => TxV::StoragePointer {
                sender: sender@,
                payload_hash: payload_hash@,
                payload_size: *payload_size,
                timestamp: *timestamp,
            },
        }
    }
}

impl DeepView for Transaction {
    type V = TxV;

    open spec fn deep_view(&self) -> TxV {
        self.view()
    }
}

/// The header of a block. The block hash is the SHA-256 digest of this
/// header's canonical encoding; the transactions are bound to the block
/// only through `merkle_root`.
#[derive(Debug)]
pub struct BlockHeader {
    pub previous_hash: Hash,
    pub merkle_root: Hash,
    pub timestamp: u64,
    pub nonce: u64,
    pub difficulty: u32,
    pub height: u64,
}

impl View for BlockHeader {
    type V = HeaderV;

    open spec fn view(&self) -> HeaderV {
        HeaderV {
            previous_hash: self.previous_hash@,
            merkle_root: self.merkle_root@,
            timestamp: self.timestamp,
            nonce: self.nonce,
            difficulty: self.difficulty,
            height: self.height,
        }
    }
}

/// A block: a header plus an ordered list of transactions.
#[derive(Debug)]
pub struct Block {
    pub header: BlockHeader,
    pub transactions: Vec<Transaction>,
}

impl View for Block {
    type V = BlockV;

    open spec fn view(&self) -> BlockV {
        BlockV { header: self.header@, transactions: self.transactions.deep_view() }
    }
}

/// The identity of a transaction: the SHA-256 digest of its canonical
/// encoding.
pub open spec fn tx_hash(t: TxV) -> Seq<u8> {
    sha256_of(encode_tx(t))
}

/// The identity of a block: the SHA-256 digest of its header's canonical
/// encoding.
pub open spec fn block_hash(h: HeaderV) -> Seq<u8> {
    sha256_of(encode_header(h))
}

/// The all-zero 32-byte value: previous hash of the genesis block and
/// merkle root of an empty transaction list.
pub open spec fn zero_hash() -> Seq<u8> {
    Seq::new(32, |i: int| 0u8)
}

/// The transaction hashes of a list, concatenated in order.
pub open spec fn hashes_concat(ts: Seq<TxV>) -> Seq<u8>
    decreases ts.len(),
{
    if ts.len() == 0 {
        Seq::empty()
    } else {
        tx_hash(ts[0]) + hashes_concat(ts.skip(1))
    }
}

/// The merkle root of a transaction list: all zeroes when the list is
/// empty, else the SHA-256 digest of the concatenated transaction hashes.
pub open spec fn merkle_root_of(ts: Seq<TxV>) -> Seq<u8> {
    if ts.len() == 0 {
        zero_hash()
    } else {
        sha256_of(hashes_concat(ts))
    }
}

/// Peeling one element off the front of `hashes_concat`.
pub proof fn lemma_hashes_concat_take(ts: Seq<TxV>, i: int)
    requires
        0 <= i < ts.len(),
    ensures
        hashes_concat(ts.take(i + 1)) == hashes_concat(ts.take(i)) + tx_hash(ts[i]),
    decreases i,
{
    if i == 0 {
        let s1 = ts.take(1);
        assert(s1.len() == 1);
        assert(s1[0] == ts[0]);
        assert(s1.skip(1) =~= Seq::<TxV>::empty());
        assert(hashes_concat(s1) == tx_hash(s1[0]) + hashes_concat(s1.skip(1)));
        assert(hashes_concat(Seq::<TxV>::empty()) == Seq::<u8>::empty());
        assert(ts.take(0) =~= Seq::<TxV>::empty());
        assert(hashes_concat(ts.take(1)) =~= hashes_concat(ts.take(0)) + tx_hash(ts[0]));
    } else {
        lemma_hashes_concat_take(ts.skip(1), i - 1);
        assert(ts.take(i + 1).skip(1) =~= ts.skip(1).take(i));
        assert(ts.take(i).skip(1) =~= ts.skip(1).take(i - 1));
        assert(ts.skip(1)[i - 1] == ts[i]);
        assert(hashes_concat(ts.take(i + 1)) == tx_hash(ts[0]) + hashes_concat(ts.skip(1).take(i)));
        assert(hashes_concat(ts.take(i)) == tx_hash(ts[0]) + hashes_concat(ts.skip(1).take(i - 1)));
        assert(tx_hash(ts[0]) + (hashes_concat(ts.skip(1).take(i - 1)) + tx_hash(ts[i])) =~= (
        tx_hash(ts[0]) + hashes_concat(ts.skip(1).take(i - 1))) + tx_hash(ts[i]));
    }
}

impl Transaction {
    /// Builds a value-transfer transaction, timestamped with the current
    /// clock reading.
    pub fn new_transfer(sender: Address, receiver: Address, amount: u64) -> (r: Transaction)
        ensures
            r@ matches TxV::Transfer { sender: s, receiver: rc, amount: a, timestamp: _ } && s
                == sender@ && rc == receiver@ && a == amount,
    {
        let timestamp = now_secs();
        Transaction::Transfer { sender, receiver, amount, timestamp }
    }

    /// Builds a storage-pointer transaction for an off-chain payload,
    /// timestamped with the current clock reading.
    pub fn new_storage(sender: Address, data_hash: Hash, data_size: u64) -> (r: Transaction)
        ensures
            r@ matches TxV::StoragePointer {
                sender: s,
                payload_hash: h,
                payload_size: z,
                timestamp: _,
            } && s == sender@ && h == data_hash@ && z == data_size,
    {
        let timestamp = now_secs();
        Transaction::StoragePointer {
            sender,
            payload_hash: data_hash,
            payload_size: data_size,
            timestamp,
        }
    }

    /// The transaction's identity hash.
    pub fn calculate_hash(&self) -> (h: Hash)
        ensures
            h@ == tx_hash(self@),
    {
        let bytes = serialize_transaction(self);
        sha256(bytes.as_slice())
    }
}

impl BlockHeader {
    /// The block hash: the SHA-256 digest of the canonical header encoding.
    pub fn calculate_hash(&self) -> (h: Hash)
        ensures
            h@ == block_hash(self@),
    {
        let bytes = serialize_header(self);
        sha256(bytes.as_slice())
    }
}

impl Block {
    /// Assembles a block over the given parent with the given transactions;
    /// the merkle root is computed, the nonce starts at zero, and the
    /// timestamp is the current clock reading.
    pub fn new(previous_hash: Hash, transactions: Vec<Transaction>, difficulty: u32, height: u64)
        -> (r: Block)
        ensures
            r@.header.previous_hash == previous_hash@,
            r@.header.merkle_root == merkle_root_of(r@.transactions),
            r@.header.nonce == 0,
            r@.header.difficulty == difficulty,
            r@.header.height == height,
            r@.transactions == transactions.deep_view(),
    {
        let timestamp = now_secs();
        let merkle_root = Self::calculate_merkle_root(transactions.as_slice());
        let header = BlockHeader {
            previous_hash,
            merkle_root,
            timestamp,
            nonce: 0,
            difficulty,
            height,
        };
        Block { header, transactions }
    }

    /// The merkle root of a transaction list.
    pub fn calculate_merkle_root(transactions: &[Transaction]) -> (r: Hash)
        ensures
            r@ == merkle_root_of(transactions.deep_view()),
    {
        let n = transactions.len();
        if n == 0 {
            let r = [0u8; 32];
            assert(r@ =~= zero_hash());
            return r;
        }
        let ghost ts = transactions.deep_view();
        let mut buf: Vec<u8> = Vec::new();
        let mut i: usize = 0;
        while i < n
            invariant
                0 <= i <= n,
                n == transactions@.len(),
                ts == transactions.deep_view(),
                buf@ == hashes_concat(ts.take(i as int)),
            decreases n - i,
        {
            let h = transactions[i].calculate_hash();
            crate::bytes::push_bytes(&mut buf, h.as_slice());
            proof {
                assert(transactions@[i as int]@ == ts[i as int]);
                lemma_hashes_concat_take(ts, i as int);
            }
            i += 1;
        }
        proof {
            assert(ts.take(n as int) =~= ts);
        }
        sha256(buf.as_slice())
    }

    /// The block's identity hash.
    pub fn hash(&self) -> (h: Hash)
        ensures
            h@ == block_hash(self.header@),
    {
        self.header.calculate_hash()
    }
}

impl Clone for BlockHeader {
    /// Field-for-field copy of the header.
    fn clone(&self) -> (r: Self)
        ensures
            r@ == self@,
    {
        BlockHeader {
            previous_hash: self.previous_hash,
            merkle_root: self.merkle_root,
            timestamp: self.timestamp,
            nonce: self.nonce,
            difficulty: self.difficulty,
            height: self.height,
        }
    }
}

impl Clone for Transaction {
    /// A copy with the same mathematical value.
    fn clone(&self) -> (r: Self)
        ensures
            r@ == self@,
    {
        match self {
            Transaction::Transfer { sender, receiver, amount, timestamp } => {
                Transaction::Transfer {
                    sender: clone_bytes(sender),
                    receiver: clone_bytes(receiver),
                    amount: *amount,
                    timestamp: *timestamp,
                }
            },
            Transaction::StoragePointer { sender, payload_hash, payload_size, timestamp } => {
                Transaction::StoragePointer {
                    sender: clone_bytes(sender),
                    payload_hash: *payload_hash,
                    payload_size: *payload_size,
                    timestamp: *timestamp,
                }
            },
        }
    }
}

impl Clone for Block {
    /// A copy with the same mathematical value.
    fn clone(&self) -> (r: Self)
        ensures
            r@ == self@,
    {
        let mut txs: Vec<Transaction> = Vec::new();
        let n = self.transactions.len();
        let mut i: usize = 0;
        while i < n
            invariant
                0 <= i <= n,
                n == self.transactions@.len(),
                txs@.len() == i,
                forall|j: int| 0 <= j < i ==> txs@[j]@ == #[trigger] self.transactions@[j]@,
            decreases n - i,
        {
            txs.push(self.transactions[i].clone());
            i += 1;
        }
        assert(txs.deep_view() =~= self.transactions.deep_view());
        let r = Block { header: self.header.clone(), transactions: txs };
        assert(r@ =~= self@);
        r
    }
}

/// A byte-vector copy with the same contents.
pub fn clone_bytes(v: &Vec<u8>) -> (r: Vec<u8>)
    ensures
        r@ == v@,
{
    let mut r: Vec<u8> = Vec::new();
    let mut i: usize = 0;
    let n = v.len();
    while i < n
        invariant
            0 <= i <= n,
            n == v@.len(),
            r@ == v@.take(i as int),
        decreases n - i,
    {
        r.push(v[i]);
        assert(r@ =~= v@.take(i as int + 1));
        i += 1;
    }
    assert(r@ =~= v@);
    r
}

impl PartialEq for Transaction {
    /// Equality of all fields.
    fn eq(&self, other: &Self) -> (r: bool)
        ensures
            r == (self@ == other@),
    {
        match (self, other) {
            (
                Transaction::Transfer { sender: s1, receiver: r1, amount: a1, timestamp: t1 },
                Transaction::Transfer { sender: s2, receiver: r2, amount: a2, timestamp: t2 },
            ) => bytes_eq(s1, s2) && bytes_eq(r1, r2) && a1 == a2 && t1 == t2,
            (
                Transaction::StoragePointer {
                    sender: s1,
                    payload_hash: h1,
                    payload_size: z1,
                    timestamp: t1,
                },
                Transaction::StoragePointer {
                    sender: s2,
                    payload_hash: h2,
                    payload_size: z2,
                    timestamp: t2,
                },
            ) => bytes_eq(s1, s2) && hash_eq(h1, h2) && z1 == z2 && t1 == t2,
            _ => false,
        }
    }
}

impl vstd::std_specs::cmp::PartialEqSpecImpl for Transaction {
    open spec fn obeys_eq_spec() -> bool {
        true
    }

    open spec fn eq_spec(&self, other: &Self) -> bool {
        self@ == other@
    }
}

impl Eq for Transaction {

}

impl PartialEq for BlockHeader {
    /// Equality of all fields.
    fn eq(&self, other: &Self) -> (r: bool)
        ensures
            r == (self@ == other@),
    {
        hash_eq(&self.previous_hash, &other.previous_hash) && hash_eq(
            &self.merkle_root,
            &other.merkle_root,
        ) && self.timestamp == other.timestamp && self.nonce == other.nonce && self.difficulty
            == other.difficulty && self.height == other.height
    }
}

impl vstd::std_specs::cmp::PartialEqSpecImpl for BlockHeader {
    open spec fn obeys_eq_spec() -> bool {
        true
    }

    open spec fn eq_spec(&self, other: &Self) -> bool {
        self@ == other@
    }
}

impl Eq for BlockHeader {

}

impl PartialEq for Block {
    /// Equality of the header and of every transaction.
    fn eq(&self, other: &Self) -> (r: bool)
        ensures
            r == (self@ == other@),
    {
        if !(self.header == other.header) {
            assert(self@ != other@);
            return false;
        }
        let n = self.transactions.len();
        if n != other.transactions.len() {
            assert(self@.transactions.len() != other@.transactions.len());
            return false;
        }
        let mut i: usize = 0;
        while i < n
            invariant
                0 <= i <= n,
                n == self.transactions@.len() == other.transactions@.len(),
                self.header@ == other.header@,
                forall|j: int|
                    0 <= j < i ==> self.transactions.deep_view()[j]
                        == other.transactions.deep_view()[j],
            decreases n - i,
        {
            if !(&self.transactions[i] == &other.transactions[i]) {
                assert(self.transactions.deep_view()[i as int] != other.transactions.deep_view()[
                i as int]);
                return false;
            }
            i += 1;
        }
        assert(self.transactions.deep_view() =~= other.transactions.deep_view());
        assert(self@ =~= other@);
        true
    }
}

impl vstd::std_specs::cmp::PartialEqSpecImpl for Block {
    open spec fn obeys_eq_spec() -> bool {
        true
    }

    open spec fn eq_spec(&self, other: &Self) -> bool {
        self@ == other@
    }
}

impl Eq for Block {

}

} // verus!
