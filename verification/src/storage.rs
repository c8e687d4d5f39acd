//! The chain store: a key-value map holding blocks by hash, a height index,
//! and the cached tip metadata.
//!
//! Key schema: `'b' + block-hash -> encoded block`, `'h' + big-endian
//! height -> block hash`, `"lh" -> tip hash`, `"ch" -> big-endian tip
//! height`. Saving a block writes all four entries together, so the tip
//! pointers never name a block whose record is absent. The records are held
//! in memory; an embedding application that wants them durable can read
//! them out through `snapshot` and reload them through `put_raw`.

use vstd::prelude::*;

use crate::bytes::{be8, push_bytes, read_hash32, slice_eq, u64_from_be_bytes, u64_to_be_bytes};
use crate::chain::{block_hash, Block, BlockV};
use crate::codec::{decoded_block, deserialize_block, encode_block, serialize_block, wf_block};

verus! {

/// Key prefix of a block record (the letter `b`).
pub const PREFIX_BLOCK: u8 = 98;

/// Key prefix of a height-index record (the letter `h`).
pub const PREFIX_HEIGHT_TO_HASH: u8 = 104;

/// The key of a block record: the prefix byte, then the block hash.
pub open spec fn block_key(h: Seq<u8>) -> Seq<u8> {
    seq![PREFIX_BLOCK] + h
}

/// The key of a height-index record: the prefix byte, then the big-endian
/// height.
pub open spec fn height_key(x: u64) -> Seq<u8> {
    seq![PREFIX_HEIGHT_TO_HASH] + be8(x)
}

/// The key under which the tip hash is stored (the letters `lh`).
pub open spec fn last_hash_key() -> Seq<u8> {
    seq![108u8, 104u8]
}

/// The key under which the tip height is stored (the letters `ch`).
pub open spec fn chain_height_key() -> Seq<u8> {
    seq![99u8, 104u8]
}

/// A failure of the chain store.
#[derive(Debug)]
pub enum StorageError {
    /// A fault of a durable backing engine; the in-memory store never
    /// raises it.
    Database(String),
    /// A value could not be serialized; the canonical encoder never fails.
    Serialization(String),
    /// A stored block record is not a canonical block encoding.
    Deserialization(String),
    /// A stored hash or height record has the wrong length.
    InvalidFormat(String),
}

/// The map a list of key-value pairs holds, later pairs overriding earlier
/// ones.
pub open spec fn pairs_map(s: Seq<(Vec<u8>, Vec<u8>)>) -> Map<Seq<u8>, Seq<u8>>
    decreases s.len(),
{
    if s.len() == 0 {
        Map::empty()
    } else {
        pairs_map(s.drop_last()).insert(s.last().0@, s.last().1@)
    }
}

/// A pair list with pairwise distinct keys.
pub open spec fn distinct_keys(s: Seq<(Vec<u8>, Vec<u8>)>) -> bool {
    forall|i: int, j: int| 0 <= i < j < s.len() ==> s[i].0@ != s[j].0@
}

/// With distinct keys, the map binds each listed key to its listed value.
pub proof fn lemma_pairs_map_index(s: Seq<(Vec<u8>, Vec<u8>)>, i: int)
    requires
        distinct_keys(s),
        0 <= i < s.len(),
    ensures
        pairs_map(s).contains_key(s[i].0@),
        pairs_map(s)[s[i].0@] == s[i].1@,
    decreases s.len(),
{
    if i == s.len() - 1 {
    } else {
        assert(s.drop_last()[i] == s[i]);
        lemma_pairs_map_index(s.drop_last(), i);
        assert(s[s.len() - 1].0@ != s[i].0@);
    }
}

/// Every key of the map is a listed key.
pub proof fn lemma_pairs_map_keys(s: Seq<(Vec<u8>, Vec<u8>)>, k: Seq<u8>)
    requires
        pairs_map(s).contains_key(k),
    ensures
        exists|i: int| 0 <= i < s.len() && s[i].0@ == k,
    decreases s.len(),
{
    if s.len() > 0 {
        if s.last().0@ == k {
            assert(s[s.len() - 1].0@ == k);
        } else {
            lemma_pairs_map_keys(s.drop_last(), k);
            let i = choose|i: int| 0 <= i < s.drop_last().len() && s.drop_last()[i].0@ == k;
            assert(s[i].0@ == k);
        }
    }
}

/// Appending a pair inserts its binding.
pub proof fn lemma_pairs_map_push(s: Seq<(Vec<u8>, Vec<u8>)>, p: (Vec<u8>, Vec<u8>))
    ensures
        pairs_map(s.push(p)) == pairs_map(s).insert(p.0@, p.1@),
{
    assert(s.push(p).drop_last() =~= s);
    assert(s.push(p).last() == p);
}

/// Removing the pair that holds a key removes the key's binding.
pub proof fn lemma_pairs_map_remove(s: Seq<(Vec<u8>, Vec<u8>)>, i: int)
    requires
        distinct_keys(s),
        0 <= i < s.len(),
    ensures
        pairs_map(s.remove(i)) == pairs_map(s).remove(s[i].0@),
    decreases s.len(),
{
    let k = s[i].0@;
    if i == s.len() - 1 {
        assert(s.remove(i) =~= s.drop_last());
        assert(!pairs_map(s.drop_last()).contains_key(k)) by {
            if pairs_map(s.drop_last()).contains_key(k) {
                lemma_pairs_map_keys(s.drop_last(), k);
                let j = choose|j: int| 0 <= j < s.drop_last().len() && s.drop_last()[j].0@ == k;
                assert(s[j].0@ == k);
            }
        }
        assert(pairs_map(s.drop_last()) =~= pairs_map(s.drop_last()).insert(k, s[i].1@).remove(k));
    } else {
        let d = s.drop_last();
        assert(s.remove(i).drop_last() =~= d.remove(i));
        assert(s.remove(i).last() == s.last());
        assert(d[i] == s[i]);
        lemma_pairs_map_remove(d, i);
        assert(pairs_map(s.remove(i)) == pairs_map(d).remove(k).insert(s.last().0@, s.last().1@));
        assert(s.last().0@ != k);
        assert(pairs_map(d).remove(k).insert(s.last().0@, s.last().1@) =~= pairs_map(d).insert(
            s.last().0@,
            s.last().1@,
        ).remove(k));
    }
}

/// Distinct keys survive removing a pair.
pub proof fn lemma_distinct_remove(s: Seq<(Vec<u8>, Vec<u8>)>, i: int)
    requires
        distinct_keys(s),
        0 <= i < s.len(),
    ensures
        distinct_keys(s.remove(i)),
{
    assert forall|a: int, b: int| 0 <= a < b < s.remove(i).len() implies s.remove(i)[a].0@
        != s.remove(i)[b].0@ by {
        let a0: int = if a < i {
            a
        } else {
            a + 1
        };
        let b0: int = if b < i {
            b
        } else {
            b + 1
        };
        assert(s.remove(i)[a] == s[a0] && s.remove(i)[b] == s[b0]);
    }
}

/// The block record named by the height index at `h`, decoded; `None` when
/// either record is absent or the block record is not a canonical encoding.
pub open spec fn stored_block_at(m: Map<Seq<u8>, Seq<u8>>, h: u64) -> Option<BlockV> {
    if m.contains_key(height_key(h)) && m.contains_key(block_key(m[height_key(h)])) {
        decoded_block(m[block_key(m[height_key(h)])])
    } else {
        None
    }
}

/// All records needed to read the block at height `h` are present and well
/// formed.
pub open spec fn clean_block_at(m: Map<Seq<u8>, Seq<u8>>, h: u64) -> bool {
    &&& m.contains_key(height_key(h))
    &&& m[height_key(h)].len() == 32
    &&& m.contains_key(block_key(m[height_key(h)]))
    &&& decoded_block(m[block_key(m[height_key(h)])]) is Some
}

/// The durable, atomic key-value persistence of the chain.
#[derive(Debug)]
pub struct StorageManager {
    pairs: Vec<(Vec<u8>, Vec<u8>)>,
}

impl View for StorageManager {
    type V = Map<Seq<u8>, Seq<u8>>;

    closed spec fn view(&self) -> Map<Seq<u8>, Seq<u8>> {
        pairs_map(self.pairs@)
    }
}

/// The key of a block record for this hash.
pub fn block_key_exec(hash: &crate::chain::Hash) -> (r: Vec<u8>)
    ensures
        r@ == block_key(hash@),
{
    let mut r: Vec<u8> = Vec::new();
    r.push(PREFIX_BLOCK);
    assert(r@ =~= seq![PREFIX_BLOCK]);
    push_bytes(&mut r, hash.as_slice());
    r
}

/// The key of the height-index record for this height.
pub fn height_key_exec(height: u64) -> (r: Vec<u8>)
    ensures
        r@ == height_key(height),
{
    let mut r: Vec<u8> = Vec::new();
    r.push(PREFIX_HEIGHT_TO_HASH);
    assert(r@ =~= seq![PREFIX_HEIGHT_TO_HASH]);
    let be = u64_to_be_bytes(height);
    push_bytes(&mut r, be.as_slice());
    r
}

/// The key of the tip-hash record.
fn last_hash_key_exec() -> (r: Vec<u8>)
    ensures
        r@ == last_hash_key(),
{
    let mut r: Vec<u8> = Vec::new();
    r.push(108);
    r.push(104);
    assert(r@ =~= last_hash_key());
    r
}

/// The key of the tip-height record.
fn chain_height_key_exec() -> (r: Vec<u8>)
    ensures
        r@ == chain_height_key(),
{
    let mut r: Vec<u8> = Vec::new();
    r.push(99);
    r.push(104);
    assert(r@ =~= chain_height_key());
    r
}

/// The position of a key in a pair list, or the list's length when the key
/// is absent.
fn key_index(pairs: &Vec<(Vec<u8>, Vec<u8>)>, key: &[u8]) -> (r: usize)
    ensures
        r <= pairs@.len(),
        r < pairs@.len() ==> pairs@[r as int].0@ == key@,
        r == pairs@.len() ==> forall|j: int| 0 <= j < pairs@.len() ==> pairs@[j].0@ != key@,
{
    let n = pairs.len();
    let mut i: usize = 0;
    while i < n
        invariant
            0 <= i <= n,
            n == pairs@.len(),
            forall|j: int| 0 <= j < i ==> pairs@[j].0@ != key@,
        decreases n - i,
    {
        if slice_eq(pairs[i].0.as_slice(), key) {
            return i;
        }
        i += 1;
    }
    n
}

impl StorageManager {
    /// Keys are pairwise distinct.
    pub closed spec fn wf(&self) -> bool {
        distinct_keys(self.pairs@)
    }

    /// Creates an empty chain store.
    pub fn new() -> (r: StorageManager)
        ensures
            r@ =~= Map::<Seq<u8>, Seq<u8>>::empty(),
            r.wf(),
    {
        let r = StorageManager { pairs: Vec::new() };
        proof {
            assert(r.pairs@.len() == 0);
        }
        r
    }

    /// Looks a key up.
    fn kv_get(&self, key: &[u8]) -> (r: Option<&Vec<u8>>)
        requires
            self.wf(),
        ensures
            match r {
                Some(v) => self@.contains_key(key@) && self@[key@] == v@,
                None => !self@.contains_key(key@),
            },
    {
        let n = self.pairs.len();
        let mut i: usize = 0;
        while i < n
            invariant
                0 <= i <= n,
                n == self.pairs@.len(),
                self.wf(),
                forall|j: int| 0 <= j < i ==> self.pairs@[j].0@ != key@,
            decreases n - i,
        {
            if slice_eq(self.pairs[i].0.as_slice(), key) {
                proof {
                    lemma_pairs_map_index(self.pairs@, i as int);
                }
                return Some(&self.pairs[i].1);
            }
            i += 1;
        }
        proof {
            if self@.contains_key(key@) {
                lemma_pairs_map_keys(self.pairs@, key@);
            }
        }
        None
    }

    /// Binds a key to a value, replacing any previous binding.
    pub fn put_raw(&mut self, key: Vec<u8>, value: Vec<u8>)
        requires
            old(self).wf(),
        ensures
            final(self).wf(),
            final(self)@ == old(self)@.insert(key@, value@),
    {
        let ghost pre = self.pairs@;
        let n = self.pairs.len();
        let found = key_index(&self.pairs, key.as_slice());
        if found < n {
            proof {
                assert(pre[found as int].0@ == key@);
                lemma_pairs_map_remove(pre, found as int);
                lemma_distinct_remove(pre, found as int);
            }
            self.pairs.remove(found);
            let ghost mid = self.pairs@;
            self.pairs.push((key, value));
            proof {
                lemma_pairs_map_push(mid, (key, value));
                assert(pairs_map(pre).remove(key@).insert(key@, value@) =~= pairs_map(pre).insert(
                    key@,
                    value@,
                ));
                assert forall|a: int, b: int|
                    0 <= a < b < self.pairs@.len() implies self.pairs@[a].0@
                    != self.pairs@[b].0@ by {
                    if b == self.pairs@.len() - 1 {
                        let a0: int = if a < found {
                            a
                        } else {
                            a + 1
                        };
                        assert(self.pairs@[a] == mid[a]);
                        assert(mid[a] == pre[a0]);
                        assert(a0 != found);
                        assert(pre[a0].0@ != pre[found as int].0@);
                        assert(self.pairs@[b].0@ == key@);
                    } else {
                        assert(self.pairs@[a] == mid[a] && self.pairs@[b] == mid[b]);
                    }
                }
            }
        } else {
            let ghost mid = self.pairs@;
            self.pairs.push((key, value));
            proof {
                lemma_pairs_map_push(mid, (key, value));
                assert forall|a: int, b: int|
                    0 <= a < b < self.pairs@.len() implies self.pairs@[a].0@
                    != self.pairs@[b].0@ by {
                    if b == self.pairs@.len() - 1 {
                        assert(self.pairs@[a] == mid[a]);
                    } else {
                        assert(self.pairs@[a] == mid[a] && self.pairs@[b] == mid[b]);
                    }
                }
            }
        }
    }

    /// The stored pairs, for an embedding application to persist.
    pub fn snapshot(&self) -> (r: &Vec<(Vec<u8>, Vec<u8>)>)
        ensures
            pairs_map(r@) == self@,
    {
        &self.pairs
    }

    /// Saves a block: the block record under its hash, the height-index
    /// entry, and the two tip records, all in one update. This is the sole
    /// operation that advances the tip metadata.
    pub fn save_block(&mut self, block: &Block) -> (r: Result<(), StorageError>)
        requires
            old(self).wf(),
        ensures
            final(self).wf(),
            r is Ok,
            wf_block(block@),
            final(self)@ == old(self)@.insert(
                block_key(block_hash(block@.header)),
                encode_block(block@),
            ).insert(height_key(block@.header.height), block_hash(block@.header)).insert(
                last_hash_key(),
                block_hash(block@.header),
            ).insert(chain_height_key(), be8(block@.header.height)),
    {
        let hash = block.hash();
        let encoded = serialize_block(block);
        let bk = block_key_exec(&hash);
        self.put_raw(bk, encoded);
        let hk = height_key_exec(block.header.height);
        let mut hv: Vec<u8> = Vec::new();
        push_bytes(&mut hv, hash.as_slice());
        proof {
            assert(hv@ =~= hash@);
        }
        self.put_raw(hk, hv);
        let lk = last_hash_key_exec();
        let mut lv: Vec<u8> = Vec::new();
        push_bytes(&mut lv, hash.as_slice());
        proof {
            assert(lv@ =~= hash@);
        }
        self.put_raw(lk, lv);
        let ck = chain_height_key_exec();
        let cv = u64_to_be_bytes(block.header.height);
        self.put_raw(ck, cv);
        Ok(())
    }

    /// Fetches the block stored under this hash, when its record decodes.
    pub fn get_block_by_hash(&self, hash: &crate::chain::Hash) -> (r: Result<
        Option<Block>,
        StorageError,
    >)
        requires
            self.wf(),
        ensures
            match r {
                Ok(ob) => match ob {
                    Some(b) => self@.contains_key(block_key(hash@)) && self@[block_key(hash@)]
                        == encode_block(b@) && wf_block(b@) && decoded_block(
                        self@[block_key(hash@)],
                    ) == Some(b@),
                    None => !self@.contains_key(block_key(hash@)),
                },
                Err(e) => e is Deserialization && self@.contains_key(block_key(hash@))
                    && decoded_block(self@[block_key(hash@)]) is None,
            },
    {
        let bk = block_key_exec(hash);
        match self.kv_get(bk.as_slice()) {
            None => Ok(None),
            Some(v) => {
                match deserialize_block(v.as_slice()) {
                    Some(b) => {
                        proof {
                            crate::codec::lemma_decoded_block_of_encoding(b@);
                        }
                        Ok(Some(b))
                    },
                    None => {
                        proof {
                            if decoded_block(v@) is Some {
                                let bv = choose|bv: BlockV|
                                    wf_block(bv) && v@ == encode_block(bv);
                                assert(wf_block(bv) && v@ == encode_block(bv));
                            }
                        }
                        Err(
                            StorageError::Deserialization(
                                "stored block record is not a canonical block encoding".to_owned(),
                            ),
                        )
                    },
                }
            },
        }
    }

    /// Fetches the block hash indexed at this height.
    pub fn get_hash_by_height(&self, height: u64) -> (r: Result<
        Option<crate::chain::Hash>,
        StorageError,
    >)
        requires
            self.wf(),
        ensures
            match r {
                Ok(oh) => match oh {
                    Some(h) => self@.contains_key(height_key(height)) && self@[height_key(height)]
                        == h@,
                    None => !self@.contains_key(height_key(height)),
                },
                Err(e) => e is InvalidFormat && self@.contains_key(height_key(height))
                    && self@[height_key(height)].len() != 32,
            },
    {
        let hk = height_key_exec(height);
        match self.kv_get(hk.as_slice()) {
            None => Ok(None),
            Some(v) => {
                if v.len() == 32 {
                    let h = read_hash32(v.as_slice(), 0);
                    proof {
                        assert(h@ =~= v@);
                    }
                    Ok(Some(h))
                } else {
                    Err(
                        StorageError::InvalidFormat(
                            "stored hash record does not hold 32 bytes".to_owned(),
                        ),
                    )
                }
            },
        }
    }

    /// Fetches the block at this height through the height index.
    pub fn get_block_by_height(&self, height: u64) -> (r: Result<Option<Block>, StorageError>)
        requires
            self.wf(),
        ensures
            match r {
                Ok(ob) => match ob {
                    Some(b) => clean_block_at(self@, height) && stored_block_at(self@, height)
                        == Some(b@) && wf_block(b@) && self@[block_key(self@[height_key(height)])]
                        == encode_block(b@),
                    None => !self@.contains_key(height_key(height)) || (self@[height_key(
                        height,
                    )].len() == 32 && !self@.contains_key(block_key(self@[height_key(height)]))),
                },
                Err(e) => (e is InvalidFormat && self@.contains_key(height_key(height))
                    && self@[height_key(height)].len() != 32) || (e is Deserialization
                    && self@.contains_key(height_key(height))
                    && self@.contains_key(block_key(self@[height_key(height)])) && decoded_block(
                    self@[block_key(self@[height_key(height)])],
                ) is None),
            },
    {
        match self.get_hash_by_height(height) {
            Err(e) => Err(e),
            Ok(None) => Ok(None),
            Ok(Some(h)) => self.get_block_by_hash(&h),
        }
    }

    /// Fetches the stored tip hash.
    pub fn get_last_block_hash(&self) -> (r: Result<Option<crate::chain::Hash>, StorageError>)
        requires
            self.wf(),
        ensures
            match r {
                Ok(oh) => match oh {
                    Some(h) => self@.contains_key(last_hash_key()) && self@[last_hash_key()] == h@,
                    None => !self@.contains_key(last_hash_key()),
                },
                Err(e) => e is InvalidFormat && self@.contains_key(last_hash_key())
                    && self@[last_hash_key()].len() != 32,
            },
    {
        let lk = last_hash_key_exec();
        match self.kv_get(lk.as_slice()) {
            None => Ok(None),
            Some(v) => {
                if v.len() == 32 {
                    let h = read_hash32(v.as_slice(), 0);
                    proof {
                        assert(h@ =~= v@);
                    }
                    Ok(Some(h))
                } else {
                    Err(StorageError::InvalidFormat("Invalid last_hash length".to_owned()))
                }
            },
        }
    }

    /// Fetches the stored tip height.
    pub fn get_chain_height(&self) -> (r: Result<Option<u64>, StorageError>)
        requires
            self.wf(),
        ensures
            match r {
                Ok(ox) => match ox {
                    Some(x) => self@.contains_key(chain_height_key()) && self@[chain_height_key()]
                        == be8(x),
                    None => !self@.contains_key(chain_height_key()),
                },
                Err(e) => e is InvalidFormat && self@.contains_key(chain_height_key())
                    && self@[chain_height_key()].len() != 8,
            },
    {
        let ck = chain_height_key_exec();
        match self.kv_get(ck.as_slice()) {
            None => Ok(None),
            Some(v) => {
                if v.len() == 8 {
                    let x = u64_from_be_bytes(v.as_slice());
                    Ok(Some(x))
                } else {
                    Err(StorageError::InvalidFormat("Invalid chain_height length".to_owned()))
                }
            },
        }
    }
}

} // verus!
