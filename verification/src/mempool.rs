//! The mempool: a bounded buffer of pending transactions, deduplicated by
//! transaction hash and drained strictly in first-in, first-out order.
//!
//! At capacity, adding a new transaction evicts the oldest entry. An entry
//! is keyed by the transaction's identity hash: a transaction whose hash is
//! already present is not added again.

use vstd::prelude::*;

use crate::bytes::hash_eq;
use crate::chain::{tx_hash, Transaction, TxV};

verus! {

/// One pending transaction together with its identity hash.
#[derive(Debug)]
pub struct MempoolEntry {
    pub hash: crate::chain::Hash,
    pub tx: Transaction,
}

/// Mathematical value of a mempool entry.
#[verifier::ext_equal]
pub struct MempoolEntryV {
    pub hash: Seq<u8>,
    pub tx: TxV,
}

impl View for MempoolEntry {
    type V = MempoolEntryV;

    open spec fn view(&self) -> MempoolEntryV {
        MempoolEntryV { hash: self.hash@, tx: self.tx@ }
    }
}

impl DeepView for MempoolEntry {
    type V = MempoolEntryV;

    open spec fn deep_view(&self) -> MempoolEntryV {
        self.view()
    }
}

/// Some entry of the list carries this hash.
pub open spec fn has_hash(s: Seq<MempoolEntryV>, h: Seq<u8>) -> bool {
    exists|i: int| 0 <= i < s.len() && s[i].hash == h
}

/// The hash appears in the list of hashes.
pub open spec fn hash_listed(hs: Seq<Seq<u8>>, h: Seq<u8>) -> bool {
    exists|i: int| 0 <= i < hs.len() && hs[i] == h
}

/// The predicate an entry must satisfy to survive a removal with the given
/// hash list: its hash is not listed.
pub open spec fn survives(hs: Seq<Seq<u8>>) -> spec_fn(MempoolEntryV) -> bool {
    |e: MempoolEntryV| !hash_listed(hs, e.hash)
}

/// Pending transactions in insertion order, capped at a configured size.
#[derive(Debug)]
pub struct Mempool {
    entries: Vec<MempoolEntry>,
    max_size: usize,
}

impl View for Mempool {
    type V = Seq<MempoolEntryV>;

    closed spec fn view(&self) -> Seq<MempoolEntryV> {
        self.entries.deep_view()
    }
}

impl Mempool {
    /// The configured maximum number of entries.
    pub closed spec fn capacity(&self) -> int {
        self.max_size as int
    }

    /// Entry hashes are pairwise distinct and the size never exceeds the
    /// configured maximum.
    pub open spec fn wf(&self) -> bool {
        &&& self@.len() <= self.capacity()
        &&& forall|i: int, j: int| 0 <= i < j < self@.len() ==> self@[i].hash != self@[j].hash
    }

    /// Creates an empty mempool with the given maximum size.
    pub fn new(max_size: usize) -> (r: Mempool)
        ensures
            r@ =~= Seq::<MempoolEntryV>::empty(),
            r.capacity() == max_size,
            r.wf(),
    {
        let r = Mempool { entries: Vec::new(), max_size };
        proof {
            assert(r@ =~= Seq::<MempoolEntryV>::empty());
        }
        r
    }

    /// The configured maximum number of entries.
    pub fn max_size(&self) -> (r: usize)
        ensures
            r == self.capacity(),
    {
        self.max_size
    }

    /// The number of pending transactions.
    pub fn size(&self) -> (r: usize)
        ensures
            r == self@.len(),
    {
        proof {
            assert(self@.len() == self.entries@.len());
        }
        self.entries.len()
    }

    /// Whether no transaction is pending.
    pub fn is_empty(&self) -> (r: bool)
        ensures
            r == (self@.len() == 0),
    {
        proof {
            assert(self@.len() == self.entries@.len());
        }
        self.entries.len() == 0
    }

    /// Whether an entry with this hash is pending.
    pub fn contains(&self, hash: &crate::chain::Hash) -> (r: bool)
        ensures
            r == has_hash(self@, hash@),
    {
        let n = self.entries.len();
        let mut i: usize = 0;
        while i < n
            invariant
                0 <= i <= n,
                n == self.entries@.len(),
                self@.len() == n,
                forall|j: int| 0 <= j < i ==> self@[j].hash != hash@,
            decreases n - i,
        {
            if hash_eq(&self.entries[i].hash, hash) {
                assert(self@[i as int].hash == hash@);
                return true;
            }
            assert(self@[i as int].hash == self.entries@[i as int]@.hash);
            i += 1;
        }
        false
    }

    /// Adds a transaction unless its hash is already pending. Returns
    /// `Ok(true)` when added, `Ok(false)` when the hash was already there
    /// (the buffer is untouched), and an error only when the configured
    /// maximum is zero, so that nothing can ever be held. At capacity the
    /// oldest entry is evicted first.
    pub fn add_transaction(&mut self, tx: Transaction) -> (r: Result<bool, String>)
        requires
            old(self).wf(),
        ensures
            final(self).wf(),
            final(self).capacity() == old(self).capacity(),
            match r {
                Ok(added) => {
                    if added {
                        &&& !has_hash(old(self)@, tx_hash(tx@))
                        &&& old(self).capacity() > 0
                        &&& {
                            let entry = MempoolEntryV { hash: tx_hash(tx@), tx: tx@ };
                            if old(self)@.len() < old(self).capacity() {
                                final(self)@ == old(self)@.push(entry)
                            } else {
                                final(self)@ == old(self)@.subrange(
                                    1,
                                    old(self)@.len() as int,
                                ).push(entry)
                            }
                        }
                    } else {
                        &&& has_hash(old(self)@, tx_hash(tx@))
                        &&& final(self)@ == old(self)@
                    }
                },
                Err(_) => {
                    &&& old(self).capacity() == 0
                    &&& final(self)@ == old(self)@
                },
            },
    {
        let h = tx.calculate_hash();
        if self.contains(&h) {
            return Ok(false);
        }
        let ghost pre = self@;
        if self.entries.len() >= self.max_size {
            if self.max_size == 0 {
                return Err("Mempool full, but failed to evict oldest transaction".to_owned());
            }
            proof {
                assert(self.entries@.len() >= 1);
            }
            self.entries.remove(0);
            proof {
                assert(self@ =~= pre.subrange(1, pre.len() as int));
            }
        }
        let ghost mid = self@;
        let entry = MempoolEntry { hash: h, tx };
        self.entries.push(entry);
        proof {
            assert(self@ =~= mid.push(MempoolEntryV { hash: tx_hash(tx@), tx: tx@ }));
            assert forall|i: int, j: int| 0 <= i < j < self@.len() implies self@[i].hash
                != self@[j].hash by {
                if j == self@.len() - 1 {
                    if mid == pre {
                        assert(!has_hash(pre, tx_hash(tx@)));
                        assert(self@[i] == pre[i]);
                    } else {
                        assert(self@[i] == pre[i + 1]);
                        assert(!has_hash(pre, tx_hash(tx@)));
                    }
                } else {
                    if mid == pre {
                    } else {
                        assert(self@[i] == pre[i + 1] && self@[j] == pre[j + 1]);
                    }
                }
            }
        }
        Ok(true)
    }

    /// Returns up to `max_count` pending transactions from the head of the
    /// insertion order, oldest first, without removing them.
    pub fn get_transactions(&self, max_count: usize) -> (r: Vec<Transaction>)
        ensures
            r@.len() == if max_count as int <= self@.len() {
                max_count as int
            } else {
                self@.len() as int
            },
            forall|i: int| 0 <= i < r@.len() ==> r@[i]@ == #[trigger] self@[i].tx,
    {
        let n = self.entries.len();
        let m: usize = if max_count <= n {
            max_count
        } else {
            n
        };
        let mut r: Vec<Transaction> = Vec::new();
        let mut i: usize = 0;
        while i < m
            invariant
                0 <= i <= m <= n,
                n == self.entries@.len(),
                self@.len() == n,
                r@.len() == i,
                forall|j: int| 0 <= j < i ==> r@[j]@ == #[trigger] self@[j].tx,
            decreases m - i,
        {
            let t = self.entries[i].tx.clone();
            assert(t@ == self@[i as int].tx);
            r.push(t);
            i += 1;
        }
        r
    }

    /// Removes every pending entry whose hash is listed; unknown hashes are
    /// ignored. The surviving entries keep their order.
    pub fn remove_transactions(&mut self, tx_hashes: &[crate::chain::Hash])
        requires
            old(self).wf(),
        ensures
            final(self).wf(),
            final(self).capacity() == old(self).capacity(),
            final(self)@ == old(self)@.filter(survives(tx_hashes.deep_view())),
            forall|h: Seq<u8>|
                hash_listed(tx_hashes.deep_view(), h) ==> !has_hash(final(self)@, h),
    {
        let ghost pre = self@;
        let ghost hs = tx_hashes.deep_view();
        let ghost pred = survives(hs);
        let n = self.entries.len();
        let mut kept: Vec<MempoolEntry> = Vec::new();
        let mut i: usize = 0;
        proof {
            assert(pre.take(0) =~= Seq::<MempoolEntryV>::empty());
            lemma_filter_empty(pred);
            assert(kept.deep_view() =~= Seq::<MempoolEntryV>::empty());
        }
        while i < n
            invariant
                0 <= i <= n,
                n == self.entries@.len(),
                pre == self@,
                pre.len() == n,
                hs == tx_hashes.deep_view(),
                pred == survives(hs),
                kept.deep_view() == pre.take(i as int).filter(pred),
                forall|a: int|
                    0 <= a < kept.deep_view().len() ==> !hash_listed(
                        hs,
                        #[trigger] kept.deep_view()[a].hash,
                    ),
            decreases n - i,
        {
            let ghost kept_old = kept.deep_view();
            let e = clone_entry(&self.entries[i]);
            assert(e@ == pre[i as int]);
            let listed = hash_in_list(tx_hashes, &e.hash);
            if !listed {
                kept.push(e);
                proof {
                    assert(kept.deep_view() =~= kept_old.push(pre[i as int]));
                }
            }
            proof {
                assert(pre.take(i as int + 1) =~= pre.take(i as int).push(pre[i as int]));
                lemma_filter_push(pre.take(i as int), pred, pre[i as int]);
                assert(pred(pre[i as int]) == !listed);
                if listed {
                    assert(kept.deep_view() == kept_old);
                }
                assert(kept.deep_view() == pre.take(i as int + 1).filter(pred));
            }
            i += 1;
        }
        proof {
            assert(pre.take(n as int) =~= pre);
        }
        self.entries = kept;
        proof {
            assert(self@ == pre.filter(pred));
            assert forall|a: int, b: int| 0 <= a < b < self@.len() implies self@[a].hash
                != self@[b].hash by {
                lemma_filter_order(pre, pred, a, b);
                let (pa, pb) = choose|pa: int, pb: int|
                    0 <= pa < pb < pre.len() && pre[pa] == self@[a] && pre[pb] == self@[b];
                assert(pre[pa].hash != pre[pb].hash);
            }
            assert(self@.len() <= pre.len()) by {
                lemma_filter_shorter(pre, pred);
            }
            assert forall|h: Seq<u8>| hash_listed(hs, h) implies !has_hash(self@, h) by {
                if has_hash(self@, h) {
                    let a = choose|a: int| 0 <= a < self@.len() && self@[a].hash == h;
                    assert(!hash_listed(hs, self@[a].hash));
                }
            }
        }
    }
}

/// A copy of a mempool entry with the same mathematical value.
fn clone_entry(e: &MempoolEntry) -> (r: MempoolEntry)
    ensures
        r@ == e@,
{
    MempoolEntry { hash: e.hash, tx: e.tx.clone() }
}

/// Whether a hash occurs in a list of hashes.
pub fn hash_in_list(hs: &[crate::chain::Hash], h: &crate::chain::Hash) -> (r: bool)
    ensures
        r == hash_listed(hs.deep_view(), h@),
{
    let n = hs.len();
    let mut i: usize = 0;
    while i < n
        invariant
            0 <= i <= n,
            n == hs@.len(),
            hs.deep_view().len() == n,
            forall|j: int| 0 <= j < i ==> hs.deep_view()[j] != h@,
        decreases n - i,
    {
        assert(hs.deep_view()[i as int] == hs@[i as int]@);
        if hash_eq(&hs[i], h) {
            return true;
        }
        i += 1;
    }
    false
}

/// Filtering the empty sequence yields the empty sequence.
pub proof fn lemma_filter_empty(pred: spec_fn(MempoolEntryV) -> bool)
    ensures
        Seq::<MempoolEntryV>::empty().filter(pred) == Seq::<MempoolEntryV>::empty(),
{
    reveal(Seq::filter);
}

/// Filtering after appending one element appends it when it passes.
pub proof fn lemma_filter_push(s: Seq<MempoolEntryV>, pred: spec_fn(MempoolEntryV) -> bool, e: MempoolEntryV)
    ensures
        s.push(e).filter(pred) == if pred(e) {
            s.filter(pred).push(e)
        } else {
            s.filter(pred)
        },
{
    reveal(Seq::filter);
    assert(s.push(e).drop_last() =~= s);
    assert(s.push(e).last() == e);
}

/// A filtered sequence is no longer than the original.
pub proof fn lemma_filter_shorter(s: Seq<MempoolEntryV>, pred: spec_fn(MempoolEntryV) -> bool)
    ensures
        s.filter(pred).len() <= s.len(),
    decreases s.len(),
{
    reveal(Seq::filter);
    if s.len() != 0 {
        lemma_filter_shorter(s.drop_last(), pred);
    }
}

/// Two positions of a filtered sequence come from two distinct positions of
/// the original, in order.
pub proof fn lemma_filter_order(
    s: Seq<MempoolEntryV>,
    pred: spec_fn(MempoolEntryV) -> bool,
    a: int,
    b: int,
)
    requires
        0 <= a < b < s.filter(pred).len(),
    ensures
        exists|pa: int, pb: int|
            0 <= pa < pb < s.len() && s[pa] == s.filter(pred)[a] && s[pb] == s.filter(pred)[b],
    decreases s.len(),
{
    reveal(Seq::filter);
    let f = s.filter(pred);
    if s.len() != 0 {
        let d = s.drop_last();
        let fd = d.filter(pred);
        if pred(s.last()) {
            assert(f == fd.push(s.last()));
            if b < f.len() - 1 {
                lemma_filter_order(d, pred, a, b);
                let (pa, pb) = choose|pa: int, pb: int|
                    0 <= pa < pb < d.len() && d[pa] == fd[a] && d[pb] == fd[b];
                assert(0 <= pa < pb < s.len() && s[pa] == f[a] && s[pb] == f[b]);
            } else {
                lemma_filter_position(d, pred, a);
                let pa = choose|pa: int| 0 <= pa < d.len() && d[pa] == fd[a];
                assert(s[s.len() - 1] == f[b]);
                assert(0 <= pa < s.len() - 1 && s[pa] == f[a]);
            }
        } else {
            assert(f == fd);
            lemma_filter_order(d, pred, a, b);
            let (pa, pb) = choose|pa: int, pb: int|
                0 <= pa < pb < d.len() && d[pa] == fd[a] && d[pb] == fd[b];
            assert(0 <= pa < pb < s.len() && s[pa] == f[a] && s[pb] == f[b]);
        }
    }
}

/// An element of a filtered sequence occurs in the original.
pub proof fn lemma_filter_position(
    s: Seq<MempoolEntryV>,
    pred: spec_fn(MempoolEntryV) -> bool,
    a: int,
)
    requires
        0 <= a < s.filter(pred).len(),
    ensures
        exists|pa: int| 0 <= pa < s.len() && s[pa] == s.filter(pred)[a],
    decreases s.len(),
{
    reveal(Seq::filter);
    let f = s.filter(pred);
    if s.len() != 0 {
        let d = s.drop_last();
        let fd = d.filter(pred);
        if pred(s.last()) && a == f.len() - 1 {
            assert(s[s.len() - 1] == f[a]);
        } else {
            lemma_filter_position(d, pred, a);
            let pa = choose|pa: int| 0 <= pa < d.len() && d[pa] == fd[a];
            assert(0 <= pa < s.len() && s[pa] == f[a]);
        }
    }
}

} // verus!
