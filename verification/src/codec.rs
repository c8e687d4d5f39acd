//! The canonical binary encoding of transactions, headers and blocks.
//!
//! The encoding is deterministic: integers are little-endian and fixed
//! width, variable-length byte strings carry a 64-bit length prefix, and a
//! transaction starts with a one-byte variant tag. The same bytes are used
//! for hashing and for storage. The deserializers accept exactly the
//! encodings: `deserialize_transaction` and `deserialize_block` return the
//! unique value a well-formed input encodes, so decoding inverts encoding.

use vstd::prelude::*;
use vstd::slice::slice_subrange;

use crate::bytes::{copy_range, push_bytes, read_hash32};
use crate::chain::{Block, BlockHeader, BlockV, HeaderV, Transaction, TxV};

verus! {

/// Variant tag of a value-transfer transaction.
pub const TAG_TRANSFER: u8 = 0;

/// Variant tag of a storage-pointer transaction.
pub const TAG_STORAGE: u8 = 1;

/// Little-endian bytes of a 64-bit integer.
pub open spec fn enc_u64le(x: u64) -> Seq<u8> {
    vstd::bytes::spec_u64_to_le_bytes(x)
}

/// Little-endian bytes of a 32-bit integer.
pub open spec fn enc_u32le(x: u32) -> Seq<u8> {
    vstd::bytes::spec_u32_to_le_bytes(x)
}

/// A length-prefixed byte string: the 64-bit length, then the bytes.
pub open spec fn enc_bytes(b: Seq<u8>) -> Seq<u8> {
    enc_u64le(b.len() as u64) + b
}

/// The canonical encoding of a transaction value.
pub open spec fn encode_tx(t: TxV) -> Seq<u8> {
    match t {
        TxV::Transfer { sender, receiver, amount, timestamp } => seq![TAG_TRANSFER] + enc_bytes(
            sender,
        ) + enc_bytes(receiver) + enc_u64le(amount) + enc_u64le(timestamp),
        TxV::StoragePointer { sender, payload_hash, payload_size, timestamp } => seq![TAG_STORAGE]
            + enc_bytes(sender) + payload_hash + enc_u64le(payload_size) + enc_u64le(timestamp),
    }
}

/// The canonical encoding of a block header: 92 bytes, fixed layout.
pub open spec fn encode_header(h: HeaderV) -> Seq<u8> {
    h.previous_hash + h.merkle_root + enc_u64le(h.timestamp) + enc_u64le(h.nonce) + enc_u32le(
        h.difficulty,
    ) + enc_u64le(h.height)
}

/// The concatenated encodings of a transaction list.
pub open spec fn encode_tx_list(ts: Seq<TxV>) -> Seq<u8>
    decreases ts.len(),
{
    if ts.len() == 0 {
        Seq::empty()
    } else {
        encode_tx(ts[0]) + encode_tx_list(ts.skip(1))
    }
}

/// The canonical encoding of a block: the header, the 64-bit transaction
/// count, then each transaction in order.
pub open spec fn encode_block(b: BlockV) -> Seq<u8> {
    encode_header(b.header) + enc_u64le(b.transactions.len() as u64) + encode_tx_list(
        b.transactions,
    )
}

/// A transaction value that an executable transaction can hold: byte-string
/// fields of machine length and a 32-byte payload hash.
pub open spec fn wf_tx(t: TxV) -> bool {
    match t {
        TxV::Transfer { sender, receiver, .. } => sender.len() < 0x1_0000_0000_0000_0000
            && receiver.len() < 0x1_0000_0000_0000_0000,
        TxV::StoragePointer { sender, payload_hash, .. } => sender.len() < 0x1_0000_0000_0000_0000
            && payload_hash.len() == 32,
    }
}

/// A header value with 32-byte hash fields.
pub open spec fn wf_header(h: HeaderV) -> bool {
    h.previous_hash.len() == 32 && h.merkle_root.len() == 32
}

/// A block value that an executable block can hold.
pub open spec fn wf_block(b: BlockV) -> bool {
    &&& wf_header(b.header)
    &&& b.transactions.len() < 0x1_0000_0000_0000_0000
    &&& forall|i: int| 0 <= i < b.transactions.len() ==> wf_tx(#[trigger] b.transactions[i])
}

/// `p` is an initial segment of `s`.
pub open spec fn is_prefix(p: Seq<u8>, s: Seq<u8>) -> bool {
    p.len() <= s.len() && p == s.subrange(0, p.len() as int)
}

/// A prefix that is a concatenation splits into a prefix and a prefix of
/// the remainder.
pub proof fn lemma_prefix_split(a: Seq<u8>, b: Seq<u8>, s: Seq<u8>)
    requires
        is_prefix(a + b, s),
    ensures
        is_prefix(a, s),
        is_prefix(b, s.skip(a.len() as int)),
        a == s.subrange(0, a.len() as int),
        b == s.subrange(a.len() as int, (a.len() + b.len()) as int),
{
    let ab = a + b;
    assert(a =~= ab.subrange(0, a.len() as int));
    assert(b =~= ab.subrange(a.len() as int, ab.len() as int));
    assert(a =~= s.subrange(0, a.len() as int));
    assert(b =~= s.subrange(a.len() as int, (a.len() + b.len()) as int));
    assert(b =~= s.skip(a.len() as int).subrange(0, b.len() as int));
}

/// The encoding lengths of the integer encoders.
pub proof fn lemma_enc_int_len()
    ensures
        forall|x: u64| (#[trigger] enc_u64le(x)).len() == 8,
        forall|x: u32| (#[trigger] enc_u32le(x)).len() == 4,
        forall|x: u64, y: u64| enc_u64le(x) == enc_u64le(y) ==> x == y,
        forall|x: u32, y: u32| enc_u32le(x) == enc_u32le(y) ==> x == y,
{
    vstd::bytes::lemma_auto_spec_u64_to_from_le_bytes();
    vstd::bytes::lemma_auto_spec_u32_to_from_le_bytes();
    assert forall|x: u64, y: u64| enc_u64le(x) == enc_u64le(y) implies x == y by {
        assert(vstd::bytes::spec_u64_from_le_bytes(vstd::bytes::spec_u64_to_le_bytes(x)) == x);
        assert(vstd::bytes::spec_u64_from_le_bytes(vstd::bytes::spec_u64_to_le_bytes(y)) == y);
    }
    assert forall|x: u32, y: u32| enc_u32le(x) == enc_u32le(y) implies x == y by {
        assert(vstd::bytes::spec_u32_to_le_bytes(x).len() == 4);
        assert(vstd::bytes::spec_u32_to_le_bytes(y).len() == 4);
        assert(vstd::bytes::spec_u32_from_le_bytes(vstd::bytes::spec_u32_to_le_bytes(x)) == x);
        assert(vstd::bytes::spec_u32_from_le_bytes(vstd::bytes::spec_u32_to_le_bytes(y)) == y);
    }
}

/// Appends the little-endian bytes of a 64-bit integer.
pub fn push_u64le(out: &mut Vec<u8>, x: u64)
    ensures
        final(out)@ == old(out)@ + enc_u64le(x),
{
    let v = vstd::bytes::u64_to_le_bytes(x);
    push_bytes(out, v.as_slice());
}

/// Appends the little-endian bytes of a 32-bit integer.
pub fn push_u32le(out: &mut Vec<u8>, x: u32)
    ensures
        final(out)@ == old(out)@ + enc_u32le(x),
{
    let v = vstd::bytes::u32_to_le_bytes(x);
    push_bytes(out, v.as_slice());
}

/// Appends a length-prefixed byte string.
pub fn push_len_bytes(out: &mut Vec<u8>, b: &Vec<u8>)
    ensures
        final(out)@ == old(out)@ + enc_bytes(b@),
        b@.len() < 0x1_0000_0000_0000_0000,
{
    let n = b.len();
    proof {
        assert(b@.len() == n);
    }
    push_u64le(out, n as u64);
    push_bytes(out, b.as_slice());
    assert(out@ =~= old(out)@ + enc_bytes(b@));
}

/// Serializes a transaction into its canonical encoding.
pub fn serialize_transaction(t: &Transaction) -> (out: Vec<u8>)
    ensures
        out@ == encode_tx(t@),
        wf_tx(t@),
{
    let mut out: Vec<u8> = Vec::new();
    match t {
        Transaction::Transfer { sender, receiver, amount, timestamp } => {
            out.push(TAG_TRANSFER);
            assert(out@ =~= seq![TAG_TRANSFER]);
            push_len_bytes(&mut out, sender);
            push_len_bytes(&mut out, receiver);
            push_u64le(&mut out, *amount);
            push_u64le(&mut out, *timestamp);
            assert(out@ =~= encode_tx(t@));
        },
        Transaction::StoragePointer { sender, payload_hash, payload_size, timestamp } => {
            out.push(TAG_STORAGE);
            assert(out@ =~= seq![TAG_STORAGE]);
            push_len_bytes(&mut out, sender);
            push_bytes(&mut out, payload_hash.as_slice());
            push_u64le(&mut out, *payload_size);
            push_u64le(&mut out, *timestamp);
            assert(out@ =~= encode_tx(t@));
        },
    }
    out
}

/// Serializes a block header into its canonical 92-byte encoding.
pub fn serialize_header(h: &BlockHeader) -> (out: Vec<u8>)
    ensures
        out@ == encode_header(h@),
        wf_header(h@),
{
    let mut out: Vec<u8> = Vec::new();
    push_bytes(&mut out, h.previous_hash.as_slice());
    push_bytes(&mut out, h.merkle_root.as_slice());
    push_u64le(&mut out, h.timestamp);
    push_u64le(&mut out, h.nonce);
    push_u32le(&mut out, h.difficulty);
    push_u64le(&mut out, h.height);
    assert(out@ =~= encode_header(h@));
    out
}

/// One step of `encode_tx_list` at the front of a suffix.
pub proof fn lemma_tx_list_skip_step(ts: Seq<TxV>, i: int)
    requires
        0 <= i < ts.len(),
    ensures
        encode_tx_list(ts.skip(i)) == encode_tx(ts[i]) + encode_tx_list(ts.skip(i + 1)),
{
    assert(ts.skip(i).len() > 0);
    assert(ts.skip(i)[0] == ts[i]);
    assert(ts.skip(i).skip(1) =~= ts.skip(i + 1));
}

/// Extending a `take` of the transaction-list encoding by one element.
pub proof fn lemma_tx_list_take_snoc(ts: Seq<TxV>, i: int)
    requires
        0 <= i < ts.len(),
    ensures
        encode_tx_list(ts.take(i + 1)) == encode_tx_list(ts.take(i)) + encode_tx(ts[i]),
    decreases i,
{
    if i == 0 {
        let s1 = ts.take(1);
        assert(s1.len() == 1);
        assert(s1[0] == ts[0]);
        assert(s1.skip(1) =~= Seq::<TxV>::empty());
        assert(encode_tx_list(s1) == encode_tx(s1[0]) + encode_tx_list(s1.skip(1)));
        assert(encode_tx_list(Seq::<TxV>::empty()) == Seq::<u8>::empty());
        assert(ts.take(0) =~= Seq::<TxV>::empty());
        assert(encode_tx_list(ts.take(1)) =~= encode_tx_list(ts.take(0)) + encode_tx(ts[0]));
    } else {
        lemma_tx_list_take_snoc(ts.skip(1), i - 1);
        assert(ts.take(i + 1).skip(1) =~= ts.skip(1).take(i));
        assert(ts.take(i).skip(1) =~= ts.skip(1).take(i - 1));
        assert(ts.skip(1)[i - 1] == ts[i]);
        assert(encode_tx_list(ts.take(i + 1)) == encode_tx(ts[0]) + encode_tx_list(
            ts.skip(1).take(i),
        ));
        assert(encode_tx_list(ts.take(i)) == encode_tx(ts[0]) + encode_tx_list(
            ts.skip(1).take(i - 1),
        ));
        assert(encode_tx(ts[0]) + (encode_tx_list(ts.skip(1).take(i - 1)) + encode_tx(ts[i])) =~= (
        encode_tx(ts[0]) + encode_tx_list(ts.skip(1).take(i - 1))) + encode_tx(ts[i]));
    }
}

/// Serializes a block into its canonical encoding.
pub fn serialize_block(b: &Block) -> (out: Vec<u8>)
    ensures
        out@ == encode_block(b@),
        wf_block(b@),
{
    let mut out = serialize_header(&b.header);
    let n = b.transactions.len();
    push_u64le(&mut out, n as u64);
    let ghost ts = b.transactions.deep_view();
    let ghost base = out@;
    let mut i: usize = 0;
    while i < n
        invariant
            0 <= i <= n,
            n == b.transactions@.len(),
            ts == b.transactions.deep_view(),
            base == encode_header(b@.header) + enc_u64le(n as u64),
            out@ == base + encode_tx_list(ts.take(i as int)),
            forall|j: int| 0 <= j < i ==> wf_tx(#[trigger] ts[j]),
        decreases n - i,
    {
        let tx_bytes = serialize_transaction(&b.transactions[i]);
        push_bytes(&mut out, tx_bytes.as_slice());
        proof {
            assert(b.transactions@[i as int]@ == ts[i as int]);
            lemma_tx_list_take_snoc(ts, i as int);
            assert(base + encode_tx_list(ts.take(i as int)) + encode_tx(ts[i as int]) =~= base
                + encode_tx_list(ts.take(i as int + 1)));
        }
        i += 1;
    }
    proof {
        assert(ts.take(n as int) =~= ts);
        assert(out@ =~= encode_block(b@));
    }
    out
}

/// The outcome a parser owes for a transaction encoding found at `off`.
pub open spec fn parsed_tx_is(r: Option<(Transaction, usize)>, tv: TxV, off: int) -> bool {
    match r {
        Some((t, end)) => t@ == tv && end == off + encode_tx(tv).len(),
        None => false,
    }
}

/// Reads a little-endian 64-bit integer at `off`; succeeds exactly when
/// eight bytes are available.
pub fn read_u64(input: &[u8], off: usize) -> (r: Option<(u64, usize)>)
    requires
        off <= input@.len(),
    ensures
        (off + 8 <= input@.len()) <==> r is Some,
        r matches Some((x, end)) ==> end == off + 8 && enc_u64le(x) == input@.subrange(
            off as int,
            off as int + 8,
        ),
{
    let n = input.len();
    if n - off < 8 {
        return None;
    }
    let x = vstd::bytes::u64_from_le_bytes(slice_subrange(input, off, off + 8));
    proof {
        vstd::bytes::lemma_auto_spec_u64_to_from_le_bytes();
    }
    Some((x, off + 8))
}

/// Reads a little-endian 32-bit integer at `off`; succeeds exactly when
/// four bytes are available.
pub fn read_u32(input: &[u8], off: usize) -> (r: Option<(u32, usize)>)
    requires
        off <= input@.len(),
    ensures
        (off + 4 <= input@.len()) <==> r is Some,
        r matches Some((x, end)) ==> end == off + 4 && enc_u32le(x) == input@.subrange(
            off as int,
            off as int + 4,
        ),
{
    let n = input.len();
    if n - off < 4 {
        return None;
    }
    let x = vstd::bytes::u32_from_le_bytes(slice_subrange(input, off, off + 4));
    proof {
        vstd::bytes::lemma_auto_spec_u32_to_from_le_bytes();
    }
    Some((x, off + 4))
}

/// Reads a 32-byte hash at `off`; succeeds exactly when 32 bytes are
/// available.
pub fn read_hash(input: &[u8], off: usize) -> (r: Option<([u8; 32], usize)>)
    requires
        off <= input@.len(),
    ensures
        (off + 32 <= input@.len()) <==> r is Some,
        r matches Some((h, end)) ==> end == off + 32 && h@ == input@.subrange(
            off as int,
            off as int + 32,
        ),
{
    let n = input.len();
    if n - off < 32 {
        return None;
    }
    let h = read_hash32(input, off);
    Some((h, off + 32))
}

/// Reads a length-prefixed byte string at `off`. Sound for whatever it
/// returns, and complete: if some length-prefixed string starts at `off`,
/// the read returns exactly it.
pub fn read_bytes(input: &[u8], off: usize) -> (r: Option<(Vec<u8>, usize)>)
    requires
        off <= input@.len(),
    ensures
        r matches Some((v, end)) ==> off + 8 + v@.len() == end && end <= input@.len() && enc_bytes(
            v@,
        ) == input@.subrange(off as int, end as int),
        forall|bs: Seq<u8>|
            is_prefix(#[trigger] enc_bytes(bs), input@.skip(off as int)) ==> match r {
                Some((v, end)) => v@ == bs && end == off + 8 + bs.len(),
                None => false,
            },
{
    let n = input.len();
    proof {
        lemma_enc_int_len();
    }
    let (len64, o1) = match read_u64(input, off) {
        Some(p) => p,
        None => {
            proof {
                assert forall|bs: Seq<u8>|
                    !is_prefix(#[trigger] enc_bytes(bs), input@.skip(off as int)) by {
                    assert(enc_bytes(bs).len() >= 8);
                }
            }
            return None;
        },
    };
    let rem = n - o1;
    if len64 > rem as u64 {
        proof {
            assert forall|bs: Seq<u8>|
                !is_prefix(#[trigger] enc_bytes(bs), input@.skip(off as int)) by {
                if is_prefix(enc_bytes(bs), input@.skip(off as int)) {
                    lemma_prefix_split(
                        enc_u64le(bs.len() as u64),
                        bs,
                        input@.skip(off as int),
                    );
                    assert(enc_u64le(bs.len() as u64) == input@.skip(off as int).subrange(0, 8));
                    assert(input@.skip(off as int).subrange(0, 8) =~= input@.subrange(
                        off as int,
                        off as int + 8,
                    ));
                    assert(bs.len() as u64 == len64);
                    assert(enc_bytes(bs).len() == 8 + bs.len());
                    assert(8 + bs.len() <= input@.len() - off);
                }
            }
        }
        return None;
    }
    let l = len64 as usize;
    let v = copy_range(input, o1, o1 + l);
    proof {
        assert(enc_bytes(v@) =~= input@.subrange(off as int, (o1 + l) as int));
        assert forall|bs: Seq<u8>|
            is_prefix(#[trigger] enc_bytes(bs), input@.skip(off as int)) implies (v@ == bs && o1 + l
            == off + 8 + bs.len()) by {
            lemma_prefix_split(enc_u64le(bs.len() as u64), bs, input@.skip(off as int));
            assert(enc_u64le(bs.len() as u64) == input@.skip(off as int).subrange(0, 8));
            assert(input@.skip(off as int).subrange(0, 8) =~= input@.subrange(
                off as int,
                off as int + 8,
            ));
            assert(bs.len() as u64 == len64);
            assert(bs == input@.skip(off as int).subrange(8, 8 + bs.len() as int));
            assert(input@.skip(off as int).subrange(8, 8 + bs.len() as int) =~= input@.subrange(
                o1 as int,
                o1 + bs.len() as int,
            ));
            assert(v@ =~= bs);
        }
    }
    Some((v, o1 + l))
}


/// Adjacent subranges concatenate to the enclosing subrange.
pub proof fn lemma_subrange_stitch(s: Seq<u8>, a: int, b: int, c: int)
    requires
        0 <= a <= b <= c <= s.len(),
    ensures
        s.subrange(a, b) + s.subrange(b, c) == s.subrange(a, c),
{
    assert(s.subrange(a, b) + s.subrange(b, c) =~= s.subrange(a, c));
}

/// A subrange of a suffix, rewritten on the whole sequence.
pub proof fn lemma_skip_subrange(s: Seq<u8>, k: int, a: int, b: int)
    requires
        0 <= k,
        0 <= a <= b,
        k + b <= s.len(),
    ensures
        s.skip(k).subrange(a, b) == s.subrange(k + a, k + b),
{
    assert(s.skip(k).subrange(a, b) =~= s.subrange(k + a, k + b));
}

/// Skipping twice is skipping the sum.
pub proof fn lemma_skip_skip(s: Seq<u8>, a: int, b: int)
    requires
        0 <= a,
        0 <= b,
        a + b <= s.len(),
    ensures
        s.skip(a).skip(b) == s.skip(a + b),
{
    assert(s.skip(a).skip(b) =~= s.skip(a + b));
}

/// The length of a transaction encoding.
pub open spec fn encode_tx_len(tv: TxV) -> int {
    match tv {
        TxV::Transfer { sender, receiver, .. } => 33 + sender.len() as int + receiver.len() as int,
        TxV::StoragePointer { sender, payload_hash, .. } => 25 + sender.len() as int + payload_hash.len() as int,
    }
}

/// Where each field of a transaction lies inside a sequence that starts
/// with the transaction's encoding.
pub proof fn lemma_encode_tx_parts(tv: TxV, s: Seq<u8>)
    requires
        is_prefix(encode_tx(tv), s),
    ensures
        encode_tx(tv).len() == encode_tx_len(tv),
        s.len() >= 1,
        match tv {
            TxV::Transfer { sender, receiver, amount, timestamp } => {
                let sl = sender.len() as int;
                let rl = receiver.len() as int;
                &&& s[0] == TAG_TRANSFER
                &&& is_prefix(enc_bytes(sender), s.skip(1))
                &&& is_prefix(enc_bytes(receiver), s.skip(9 + sl))
                &&& enc_u64le(amount) == s.subrange(17 + sl + rl, 25 + sl + rl)
                &&& enc_u64le(timestamp) == s.subrange(25 + sl + rl, 33 + sl + rl)
            },
            TxV::StoragePointer { sender, payload_hash, payload_size, timestamp } => {
                let sl = sender.len() as int;
                &&& s[0] == TAG_STORAGE
                &&& is_prefix(enc_bytes(sender), s.skip(1))
                &&& payload_hash =~= s.subrange(9 + sl, 9 + sl + payload_hash.len() as int)
                &&& enc_u64le(payload_size) == s.subrange(
                    9 + sl + payload_hash.len() as int,
                    17 + sl + payload_hash.len() as int,
                )
                &&& enc_u64le(timestamp) == s.subrange(
                    17 + sl + payload_hash.len() as int,
                    25 + sl + payload_hash.len() as int,
                )
            },
        },
{
    lemma_enc_int_len();
    let e = encode_tx(tv);
    match tv {
        TxV::Transfer { sender, receiver, amount, timestamp } => {
            let sl = sender.len() as int;
            let rl = receiver.len() as int;
            let rest1 = enc_bytes(sender) + (enc_bytes(receiver) + (enc_u64le(amount) + enc_u64le(
                timestamp,
            )));
            assert(e =~= seq![TAG_TRANSFER] + rest1);
            lemma_prefix_split(seq![TAG_TRANSFER], rest1, s);
            assert(enc_bytes(sender).len() == 8 + sl);
            assert(enc_bytes(receiver).len() == 8 + rl);
            assert(e.len() == 33 + sl + rl);
            assert(seq![TAG_TRANSFER].len() == 1);
            assert(seq![TAG_TRANSFER][0] == TAG_TRANSFER);
            assert(seq![TAG_TRANSFER] == s.subrange(0, 1));
            assert(s.subrange(0, 1)[0] == s[0]);
            assert(s[0] == TAG_TRANSFER);
            let rest2 = enc_bytes(receiver) + (enc_u64le(amount) + enc_u64le(timestamp));
            lemma_prefix_split(enc_bytes(sender), rest2, s.skip(1));
            lemma_skip_skip(s, 1, 8 + sl);
            lemma_prefix_split(enc_bytes(receiver), enc_u64le(amount) + enc_u64le(timestamp), s.skip(9 + sl));
            lemma_skip_skip(s, 9 + sl, 8 + rl);
            lemma_prefix_split(enc_u64le(amount), enc_u64le(timestamp), s.skip(17 + sl + rl));
            lemma_skip_subrange(s, 17 + sl + rl, 0, 8);
            lemma_skip_skip(s, 17 + sl + rl, 8);
            assert(enc_u64le(timestamp) == s.skip(25 + sl + rl).subrange(0, 8));
            lemma_skip_subrange(s, 25 + sl + rl, 0, 8);
        },
        TxV::StoragePointer { sender, payload_hash, payload_size, timestamp } => {
            let sl = sender.len() as int;
            let hl = payload_hash.len() as int;
            let rest1 = enc_bytes(sender) + (payload_hash + (enc_u64le(payload_size) + enc_u64le(
                timestamp,
            )));
            assert(e =~= seq![TAG_STORAGE] + rest1);
            lemma_prefix_split(seq![TAG_STORAGE], rest1, s);
            assert(enc_bytes(sender).len() == 8 + sl);
            assert(e.len() == 25 + sl + hl);
            assert(seq![TAG_STORAGE].len() == 1);
            assert(seq![TAG_STORAGE][0] == TAG_STORAGE);
            assert(seq![TAG_STORAGE] == s.subrange(0, 1));
            assert(s.subrange(0, 1)[0] == s[0]);
            assert(s[0] == TAG_STORAGE);
            let rest2 = payload_hash + (enc_u64le(payload_size) + enc_u64le(timestamp));
            lemma_prefix_split(enc_bytes(sender), rest2, s.skip(1));
            lemma_skip_skip(s, 1, 8 + sl);
            lemma_prefix_split(payload_hash, enc_u64le(payload_size) + enc_u64le(timestamp), s.skip(9 + sl));
            assert(payload_hash == s.skip(9 + sl).subrange(0, hl));
            lemma_skip_subrange(s, 9 + sl, 0, hl);
            lemma_skip_skip(s, 9 + sl, hl);
            lemma_prefix_split(enc_u64le(payload_size), enc_u64le(timestamp), s.skip(9 + sl + hl));
            lemma_skip_subrange(s, 9 + sl + hl, 0, 8);
            lemma_skip_skip(s, 9 + sl + hl, 8);
            assert(enc_u64le(timestamp) == s.skip(17 + sl + hl).subrange(0, 8));
            lemma_skip_subrange(s, 17 + sl + hl, 0, 8);
        },
    }
}

/// Parses one transaction at `off`. Sound: whatever it returns is encoded
/// there. Complete: if the encoding of a well-formed transaction value
/// starts at `off`, the parse returns exactly that value and consumes
/// exactly its encoding.
pub fn parse_transaction(input: &[u8], off: usize) -> (r: Option<(Transaction, usize)>)
    requires
        off <= input@.len(),
    ensures
        r matches Some((t, end)) ==> off < end <= input@.len() && encode_tx(t@) == input@.subrange(
            off as int,
            end as int,
        ) && wf_tx(t@),
        forall|tv: TxV|
            wf_tx(tv) && is_prefix(#[trigger] encode_tx(tv), input@.skip(off as int))
                ==> parsed_tx_is(r, tv, off as int),
{
    let n = input.len();
    let ghost rem = input@.skip(off as int);
    proof {
        lemma_enc_int_len();
    }
    if off >= n {
        proof {
            assert forall|tv: TxV|
                wf_tx(tv) && is_prefix(#[trigger] encode_tx(tv), rem) implies parsed_tx_is(
                None::<(Transaction, usize)>,
                tv,
                off as int,
            ) by {
                lemma_encode_tx_parts(tv, rem);
            }
        }
        return None;
    }
    let tag = input[off];
    if tag == TAG_TRANSFER {
        let (sender, o1) = match read_bytes(input, off + 1) {
            Some(p) => p,
            None => {
                proof {
                    assert forall|tv: TxV|
                        wf_tx(tv) && is_prefix(#[trigger] encode_tx(tv), rem) implies parsed_tx_is(
                        None::<(Transaction, usize)>,
                        tv,
                        off as int,
                    ) by {
                        lemma_encode_tx_parts(tv, rem);
                        lemma_skip_skip(input@, off as int, 1);
                    }
                }
                return None;
            },
        };
        let (receiver, o2) = match read_bytes(input, o1) {
            Some(p) => p,
            None => {
                proof {
                    assert forall|tv: TxV|
                        wf_tx(tv) && is_prefix(#[trigger] encode_tx(tv), rem) implies parsed_tx_is(
                        None::<(Transaction, usize)>,
                        tv,
                        off as int,
                    ) by {
                        lemma_encode_tx_parts(tv, rem);
                        lemma_skip_skip(input@, off as int, 1);
                        match tv {
                            TxV::Transfer { sender: s2, .. } => {
                                assert(sender@ == s2 && o1 == off + 9 + s2.len());
                                lemma_skip_skip(input@, off as int, 9 + s2.len() as int);
                            },
                            TxV::StoragePointer { .. } => {},
                        }
                    }
                }
                return None;
            },
        };
        let (amount, o3) = match read_u64(input, o2) {
            Some(p) => p,
            None => {
                proof {
                    assert forall|tv: TxV|
                        wf_tx(tv) && is_prefix(#[trigger] encode_tx(tv), rem) implies parsed_tx_is(
                        None::<(Transaction, usize)>,
                        tv,
                        off as int,
                    ) by {
                        lemma_encode_tx_parts(tv, rem);
                        lemma_skip_skip(input@, off as int, 1);
                        match tv {
                            TxV::Transfer { sender: s2, receiver: r2, .. } => {
                                assert(sender@ == s2 && o1 == off + 9 + s2.len());
                                lemma_skip_skip(input@, off as int, 9 + s2.len() as int);
                                assert(receiver@ == r2 && o2 == o1 + 8 + r2.len());
                                assert(rem.len() >= encode_tx(tv).len());
                            },
                            TxV::StoragePointer { .. } => {},
                        }
                    }
                }
                return None;
            },
        };
        let (timestamp, o4) = match read_u64(input, o3) {
            Some(p) => p,
            None => {
                proof {
                    assert forall|tv: TxV|
                        wf_tx(tv) && is_prefix(#[trigger] encode_tx(tv), rem) implies parsed_tx_is(
                        None::<(Transaction, usize)>,
                        tv,
                        off as int,
                    ) by {
                        lemma_encode_tx_parts(tv, rem);
                        lemma_skip_skip(input@, off as int, 1);
                        match tv {
                            TxV::Transfer { sender: s2, receiver: r2, .. } => {
                                assert(sender@ == s2 && o1 == off + 9 + s2.len());
                                lemma_skip_skip(input@, off as int, 9 + s2.len() as int);
                                assert(receiver@ == r2 && o2 == o1 + 8 + r2.len());
                                assert(rem.len() >= encode_tx(tv).len());
                            },
                            TxV::StoragePointer { .. } => {},
                        }
                    }
                }
                return None;
            },
        };
        let t = Transaction::Transfer { sender, receiver, amount, timestamp };
        proof {
            let iv = input@;
            let sl = sender@.len() as int;
            let rl = receiver@.len() as int;
            assert(iv.subrange(off as int, off as int + 1) =~= seq![TAG_TRANSFER]);
            lemma_subrange_stitch(iv, off as int, off as int + 1, o1 as int);
            lemma_subrange_stitch(iv, off as int, o1 as int, o2 as int);
            lemma_subrange_stitch(iv, off as int, o2 as int, o3 as int);
            lemma_subrange_stitch(iv, off as int, o3 as int, o4 as int);
            assert(encode_tx(t@) =~= iv.subrange(off as int, o4 as int));
            assert forall|tv: TxV|
                wf_tx(tv) && is_prefix(#[trigger] encode_tx(tv), rem) implies parsed_tx_is(
                Some((t, o4)),
                tv,
                off as int,
            ) by {
                lemma_encode_tx_parts(tv, rem);
                lemma_skip_skip(iv, off as int, 1);
                match tv {
                    TxV::Transfer { sender: s2, receiver: r2, amount: a2, timestamp: t2 } => {
                        assert(sender@ == s2 && o1 == off + 9 + s2.len());
                        lemma_skip_skip(iv, off as int, 9 + s2.len() as int);
                        assert(receiver@ == r2 && o2 == o1 + 8 + r2.len());
                        lemma_skip_subrange(iv, off as int, 17 + s2.len() as int + r2.len() as int, 25 + s2.len() as int + r2.len() as int);
                        lemma_skip_subrange(iv, off as int, 25 + s2.len() as int + r2.len() as int, 33 + s2.len() as int + r2.len() as int);
                        assert(enc_u64le(a2) == iv.subrange(o2 as int, o2 as int + 8));
                        assert(enc_u64le(amount) == iv.subrange(o2 as int, o2 as int + 8));
                        assert(a2 == amount);
                        assert(enc_u64le(t2) == iv.subrange(o3 as int, o3 as int + 8));
                        assert(t2 == timestamp);
                        assert(t@ == tv);
                        assert(o4 == off + encode_tx(tv).len());
                    },
                    TxV::StoragePointer { .. } => {},
                }
            }
        }
        Some((t, o4))
    } else if tag == TAG_STORAGE {
        let (sender, o1) = match read_bytes(input, off + 1) {
            Some(p) => p,
            None => {
                proof {
                    assert forall|tv: TxV|
                        wf_tx(tv) && is_prefix(#[trigger] encode_tx(tv), rem) implies parsed_tx_is(
                        None::<(Transaction, usize)>,
                        tv,
                        off as int,
                    ) by {
                        lemma_encode_tx_parts(tv, rem);
                        lemma_skip_skip(input@, off as int, 1);
                    }
                }
                return None;
            },
        };
        let (payload_hash, o2) = match read_hash(input, o1) {
            Some(p) => p,
            None => {
                proof {
                    assert forall|tv: TxV|
                        wf_tx(tv) && is_prefix(#[trigger] encode_tx(tv), rem) implies parsed_tx_is(
                        None::<(Transaction, usize)>,
                        tv,
                        off as int,
                    ) by {
                        lemma_encode_tx_parts(tv, rem);
                        lemma_skip_skip(input@, off as int, 1);
                        match tv {
                            TxV::StoragePointer { sender: s2, payload_hash: h2, .. } => {
                                assert(sender@ == s2 && o1 == off + 9 + s2.len());
                                assert(rem.len() >= encode_tx(tv).len());
                            },
                            TxV::Transfer { .. } => {},
                        }
                    }
                }
                return None;
            },
        };
        let (payload_size, o3) = match read_u64(input, o2) {
            Some(p) => p,
            None => {
                proof {
                    assert forall|tv: TxV|
                        wf_tx(tv) && is_prefix(#[trigger] encode_tx(tv), rem) implies parsed_tx_is(
                        None::<(Transaction, usize)>,
                        tv,
                        off as int,
                    ) by {
                        lemma_encode_tx_parts(tv, rem);
                        lemma_skip_skip(input@, off as int, 1);
                        match tv {
                            TxV::StoragePointer { sender: s2, .. } => {
                                assert(sender@ == s2 && o1 == off + 9 + s2.len());
                                assert(rem.len() >= encode_tx(tv).len());
                            },
                            TxV::Transfer { .. } => {},
                        }
                    }
                }
                return None;
            },
        };
        let (timestamp, o4) = match read_u64(input, o3) {
            Some(p) => p,
            None => {
                proof {
                    assert forall|tv: TxV|
                        wf_tx(tv) && is_prefix(#[trigger] encode_tx(tv), rem) implies parsed_tx_is(
                        None::<(Transaction, usize)>,
                        tv,
                        off as int,
                    ) by {
                        lemma_encode_tx_parts(tv, rem);
                        lemma_skip_skip(input@, off as int, 1);
                        match tv {
                            TxV::StoragePointer { sender: s2, .. } => {
                                assert(sender@ == s2 && o1 == off + 9 + s2.len());
                                assert(rem.len() >= encode_tx(tv).len());
                            },
                            TxV::Transfer { .. } => {},
                        }
                    }
                }
                return None;
            },
        };
        let t = Transaction::StoragePointer { sender, payload_hash, payload_size, timestamp };
        proof {
            let iv = input@;
            assert(iv.subrange(off as int, off as int + 1) =~= seq![TAG_STORAGE]);
            lemma_subrange_stitch(iv, off as int, off as int + 1, o1 as int);
            lemma_subrange_stitch(iv, off as int, o1 as int, o2 as int);
            lemma_subrange_stitch(iv, off as int, o2 as int, o3 as int);
            lemma_subrange_stitch(iv, off as int, o3 as int, o4 as int);
            assert(encode_tx(t@) =~= iv.subrange(off as int, o4 as int));
            assert forall|tv: TxV|
                wf_tx(tv) && is_prefix(#[trigger] encode_tx(tv), rem) implies parsed_tx_is(
                Some((t, o4)),
                tv,
                off as int,
            ) by {
                lemma_encode_tx_parts(tv, rem);
                lemma_skip_skip(iv, off as int, 1);
                match tv {
                    TxV::StoragePointer {
                        sender: s2,
                        payload_hash: h2,
                        payload_size: z2,
                        timestamp: t2,
                    } => {
                        assert(sender@ == s2 && o1 == off + 9 + s2.len());
                        lemma_skip_subrange(iv, off as int, 9 + s2.len() as int, 41 + s2.len() as int);
                        lemma_skip_subrange(iv, off as int, 41 + s2.len() as int, 49 + s2.len() as int);
                        lemma_skip_subrange(iv, off as int, 49 + s2.len() as int, 57 + s2.len() as int);
                        assert(h2 =~= iv.subrange(o1 as int, o1 as int + 32));
                        assert(payload_hash@ == iv.subrange(o1 as int, o1 as int + 32));
                        assert(payload_hash@ == h2);
                        assert(enc_u64le(z2) == iv.subrange(o2 as int, o2 as int + 8));
                        assert(z2 == payload_size);
                        assert(enc_u64le(t2) == iv.subrange(o3 as int, o3 as int + 8));
                        assert(t2 == timestamp);
                        assert(t@ == tv);
                        assert(o4 == off + encode_tx(tv).len());
                    },
                    TxV::Transfer { .. } => {},
                }
            }
        }
        Some((t, o4))
    } else {
        proof {
            assert forall|tv: TxV|
                wf_tx(tv) && is_prefix(#[trigger] encode_tx(tv), rem) implies parsed_tx_is(
                None::<(Transaction, usize)>,
                tv,
                off as int,
            ) by {
                lemma_encode_tx_parts(tv, rem);
            }
        }
        None
    }
}



/// Where each field of a header lies inside a sequence that starts with the
/// header's encoding.
pub proof fn lemma_encode_header_parts(hv: HeaderV, s: Seq<u8>)
    requires
        wf_header(hv),
        is_prefix(encode_header(hv), s),
    ensures
        encode_header(hv).len() == 92,
        s.len() >= 92,
        hv.previous_hash == s.subrange(0, 32),
        hv.merkle_root == s.subrange(32, 64),
        enc_u64le(hv.timestamp) == s.subrange(64, 72),
        enc_u64le(hv.nonce) == s.subrange(72, 80),
        enc_u32le(hv.difficulty) == s.subrange(80, 84),
        enc_u64le(hv.height) == s.subrange(84, 92),
{
    lemma_enc_int_len();
    let e = encode_header(hv);
    let rest1 = hv.merkle_root + (enc_u64le(hv.timestamp) + (enc_u64le(hv.nonce) + (enc_u32le(
        hv.difficulty,
    ) + enc_u64le(hv.height))));
    assert(e =~= hv.previous_hash + rest1);
    lemma_prefix_split(hv.previous_hash, rest1, s);
    let rest2 = enc_u64le(hv.timestamp) + (enc_u64le(hv.nonce) + (enc_u32le(hv.difficulty)
        + enc_u64le(hv.height)));
    lemma_prefix_split(hv.merkle_root, rest2, s.skip(32));
    lemma_skip_subrange(s, 32, 0, 32);
    lemma_skip_skip(s, 32, 32);
    let rest3 = enc_u64le(hv.nonce) + (enc_u32le(hv.difficulty) + enc_u64le(hv.height));
    lemma_prefix_split(enc_u64le(hv.timestamp), rest3, s.skip(64));
    lemma_skip_subrange(s, 64, 0, 8);
    lemma_skip_skip(s, 64, 8);
    let rest4 = enc_u32le(hv.difficulty) + enc_u64le(hv.height);
    lemma_prefix_split(enc_u64le(hv.nonce), rest4, s.skip(72));
    lemma_skip_subrange(s, 72, 0, 8);
    lemma_skip_skip(s, 72, 8);
    lemma_prefix_split(enc_u32le(hv.difficulty), enc_u64le(hv.height), s.skip(80));
    lemma_skip_subrange(s, 80, 0, 4);
    lemma_skip_skip(s, 80, 4);
    assert(enc_u64le(hv.height) == s.skip(84).subrange(0, 8));
    lemma_skip_subrange(s, 84, 0, 8);
}

/// Parses a block header at `off`: succeeds exactly when 92 bytes are
/// available, is sound for what it returns, and returns exactly the header
/// value whose encoding starts at `off`, when there is one.
pub fn parse_header(input: &[u8], off: usize) -> (r: Option<(BlockHeader, usize)>)
    requires
        off <= input@.len(),
    ensures
        (off + 92 <= input@.len()) <==> r is Some,
        r matches Some((h, end)) ==> end == off + 92 && encode_header(h@) == input@.subrange(
            off as int,
            off as int + 92,
        ) && wf_header(h@),
        forall|hv: HeaderV|
            wf_header(hv) && is_prefix(#[trigger] encode_header(hv), input@.skip(off as int)) ==> (
            match r {
                Some((h, end)) => h@ == hv && end == off + 92,
                None => false,
            }),
{
    let n = input.len();
    let ghost iv = input@;
    proof {
        lemma_enc_int_len();
    }
    if n - off < 92 {
        proof {
            assert forall|hv: HeaderV|
                wf_header(hv) && is_prefix(
                    #[trigger] encode_header(hv),
                    iv.skip(off as int),
                ) implies false by {
                lemma_encode_header_parts(hv, iv.skip(off as int));
            }
        }
        return None;
    }
    let previous_hash = read_hash32(input, off);
    let merkle_root = read_hash32(input, off + 32);
    let (timestamp, _o3) = match read_u64(input, off + 64) {
        Some(p) => p,
        None => {
            return None;
        },
    };
    let (nonce, _o4) = match read_u64(input, off + 72) {
        Some(p) => p,
        None => {
            return None;
        },
    };
    let (difficulty, _o5) = match read_u32(input, off + 80) {
        Some(p) => p,
        None => {
            return None;
        },
    };
    let (height, _o6) = match read_u64(input, off + 84) {
        Some(p) => p,
        None => {
            return None;
        },
    };
    let h = BlockHeader { previous_hash, merkle_root, timestamp, nonce, difficulty, height };
    proof {
        let o = off as int;
        assert(h@.previous_hash == iv.subrange(o, o + 32));
        assert(h@.merkle_root == iv.subrange(o + 32, o + 64));
        assert(encode_header(h@) =~= iv.subrange(o, o + 92));
        assert forall|hv: HeaderV|
            wf_header(hv) && is_prefix(#[trigger] encode_header(hv), iv.skip(o)) implies (hv == h@)
            by {
            lemma_encode_header_parts(hv, iv.skip(o));
            lemma_skip_subrange(iv, o, 0, 32);
            lemma_skip_subrange(iv, o, 32, 64);
            lemma_skip_subrange(iv, o, 64, 72);
            lemma_skip_subrange(iv, o, 72, 80);
            lemma_skip_subrange(iv, o, 80, 84);
            lemma_skip_subrange(iv, o, 84, 92);
            assert(hv.previous_hash == iv.subrange(o, o + 32));
            assert(hv.merkle_root == iv.subrange(o + 32, o + 64));
            assert(enc_u64le(hv.timestamp) == iv.subrange(o + 64, o + 72));
            assert(enc_u64le(timestamp) == iv.subrange(o + 64, o + 72));
            assert(enc_u64le(hv.nonce) == iv.subrange(o + 72, o + 80));
            assert(enc_u32le(hv.difficulty) == iv.subrange(o + 80, o + 84));
            assert(enc_u64le(hv.height) == iv.subrange(o + 84, o + 92));
            assert(hv =~= h@);
        }
    }
    Some((h, off + 92))
}

/// Decodes a transaction from exactly its canonical encoding. Returns the
/// unique well-formed transaction value the input encodes, and `None` when
/// the input encodes none: decoding inverts `serialize_transaction`.
pub fn deserialize_transaction(input: &[u8]) -> (r: Option<Transaction>)
    ensures
        r matches Some(t) ==> encode_tx(t@) == input@ && wf_tx(t@),
        forall|tv: TxV|
            wf_tx(tv) && input@ == #[trigger] encode_tx(tv) ==> (match r {
                Some(t) => t@ == tv,
                None => false,
            }),
{
    let ghost iv = input@;
    proof {
        assert(iv.skip(0) =~= iv);
        assert forall|tv: TxV| wf_tx(tv) && iv == #[trigger] encode_tx(tv) implies is_prefix(
            encode_tx(tv),
            iv.skip(0),
        ) by {
            assert(encode_tx(tv) =~= iv.subrange(0, encode_tx(tv).len() as int));
        }
    }
    match parse_transaction(input, 0) {
        Some((t, end)) => {
            if end == input.len() {
                proof {
                    assert(encode_tx(t@) =~= iv);
                }
                Some(t)
            } else {
                proof {
                    assert forall|tv: TxV|
                        wf_tx(tv) && iv == #[trigger] encode_tx(tv) implies false by {
                        assert(parsed_tx_is(Some((t, end)), tv, 0));
                    }
                }
                None
            }
        },
        None => {
            proof {
                assert forall|tv: TxV| wf_tx(tv) && iv == #[trigger] encode_tx(tv) implies false by {
                    assert(parsed_tx_is(None::<(Transaction, usize)>, tv, 0));
                }
            }
            None
        },
    }
}

/// Decodes a block from exactly its canonical encoding. Returns the unique
/// well-formed block value the input encodes, and `None` when the input
/// encodes none: decoding inverts `serialize_block`.
pub fn deserialize_block(input: &[u8]) -> (r: Option<Block>)
    ensures
        r matches Some(b) ==> encode_block(b@) == input@ && wf_block(b@),
        forall|bv: BlockV|
            wf_block(bv) && input@ == #[trigger] encode_block(bv) ==> (match r {
                Some(b) => b@ == bv,
                None => false,
            }),
{
    let n = input.len();
    let ghost iv = input@;
    proof {
        lemma_enc_int_len();
        assert(iv.skip(0) =~= iv);
        assert forall|bv: BlockV|
            wf_block(bv) && iv == #[trigger] encode_block(bv) implies is_prefix(
            encode_header(bv.header),
            iv.skip(0),
        ) && iv.len() >= 100 by {
            let rest = enc_u64le(bv.transactions.len() as u64) + encode_tx_list(bv.transactions);
            assert(encode_block(bv) =~= encode_header(bv.header) + rest);
            lemma_prefix_split(encode_header(bv.header), rest, iv);
        }
    }
    let (header, o1) = match parse_header(input, 0) {
        Some(p) => p,
        None => {
            return None;
        },
    };
    let (count, o2) = match read_u64(input, o1) {
        Some(p) => p,
        None => {
            proof {
                assert forall|bv: BlockV|
                    wf_block(bv) && iv == #[trigger] encode_block(bv) implies false by {
                    assert(iv.len() >= 100);
                }
            }
            return None;
        },
    };
    let mut txs: Vec<Transaction> = Vec::new();
    let mut off: usize = o2;
    let mut i: u64 = 0;
    proof {
        assert(txs.deep_view() =~= Seq::<TxV>::empty());
        assert forall|bv: BlockV|
            wf_block(bv) && iv == #[trigger] encode_block(bv) implies (bv.header == header@ && count
            == bv.transactions.len() && txs.deep_view() == bv.transactions.take(i as int)
            && iv.skip(off as int) == encode_tx_list(bv.transactions.skip(i as int))) by {
            let ts = bv.transactions;
            let rest = enc_u64le(ts.len() as u64) + encode_tx_list(ts);
            assert(encode_block(bv) =~= encode_header(bv.header) + rest);
            lemma_prefix_split(encode_header(bv.header), rest, iv);
            lemma_encode_header_parts(bv.header, iv);
            lemma_prefix_split(enc_u64le(ts.len() as u64), encode_tx_list(ts), iv.skip(92));
            lemma_skip_subrange(iv, 92, 0, 8);
            assert(enc_u64le(ts.len() as u64) == iv.subrange(92, 100));
            assert(enc_u64le(count) == iv.subrange(92, 100));
            assert(count == ts.len() as u64);
            lemma_skip_skip(iv, 92, 8);
            assert(encode_tx_list(ts) == iv.skip(100).subrange(0, encode_tx_list(ts).len() as int));
            assert(iv.len() == 100 + encode_tx_list(ts).len());
            assert(iv.skip(100) =~= encode_tx_list(ts));
            assert(ts.take(0) =~= Seq::<TxV>::empty());
            assert(ts.skip(0) =~= ts);
        }
    }
    while i < count
        invariant
            100 <= off <= n,
            n == iv.len(),
            iv == input@,
            i <= count,
            txs@.len() == i as int,
            encode_header(header@) == iv.subrange(0, 92),
            wf_header(header@),
            enc_u64le(count) == iv.subrange(92, 100),
            forall|j: int| 0 <= j < i ==> wf_tx(#[trigger] txs.deep_view()[j]),
            encode_tx_list(txs.deep_view()) == iv.subrange(100, off as int),
            forall|bv: BlockV|
                wf_block(bv) && iv == #[trigger] encode_block(bv) ==> {
                    &&& bv.header == header@
                    &&& count == bv.transactions.len()
                    &&& txs.deep_view() == bv.transactions.take(i as int)
                    &&& iv.skip(off as int) == encode_tx_list(bv.transactions.skip(i as int))
                },
        decreases count - i,
    {
        let ghost txs_old = txs.deep_view();
        let ghost off_old = off as int;
        let (t, end2) = match parse_transaction(input, off) {
            Some(p) => p,
            None => {
                proof {
                    assert forall|bv: BlockV|
                        wf_block(bv) && iv == #[trigger] encode_block(bv) implies false by {
                        let ts = bv.transactions;
                        lemma_tx_list_skip_step(ts, i as int);
                        assert(iv.skip(off as int) == encode_tx(ts[i as int]) + encode_tx_list(
                            ts.skip(i as int + 1),
                        ));
                        assert(encode_tx(ts[i as int]) =~= iv.skip(off as int).subrange(
                            0,
                            encode_tx(ts[i as int]).len() as int,
                        ));
                        assert(is_prefix(encode_tx(ts[i as int]), iv.skip(off as int)));
                        assert(parsed_tx_is(
                            None::<(Transaction, usize)>,
                            ts[i as int],
                            off as int,
                        ));
                    }
                }
                return None;
            },
        };
        txs.push(t);
        off = end2;
        i += 1;
        proof {
            assert(txs.deep_view() =~= txs_old.push(t@));
            lemma_tx_list_take_snoc(txs.deep_view(), i as int - 1);
            assert(txs.deep_view().take(i as int - 1) =~= txs_old);
            assert(txs.deep_view().take(i as int) =~= txs.deep_view());
            lemma_subrange_stitch(iv, 100, off_old, off as int);
            assert(encode_tx_list(txs.deep_view()) == iv.subrange(100, off as int));
            assert forall|bv: BlockV|
                wf_block(bv) && iv == #[trigger] encode_block(bv) implies {
                &&& txs.deep_view() == bv.transactions.take(i as int)
                &&& iv.skip(off as int) == encode_tx_list(bv.transactions.skip(i as int))
            } by {
                let ts = bv.transactions;
                lemma_tx_list_skip_step(ts, i as int - 1);
                assert(iv.skip(off_old) == encode_tx(ts[i as int - 1]) + encode_tx_list(
                    ts.skip(i as int),
                ));
                assert(encode_tx(ts[i as int - 1]) =~= iv.skip(off_old).subrange(
                    0,
                    encode_tx(ts[i as int - 1]).len() as int,
                ));
                assert(is_prefix(encode_tx(ts[i as int - 1]), iv.skip(off_old)));
                assert(parsed_tx_is(Some((t, end2)), ts[i as int - 1], off_old));
                assert(t@ == ts[i as int - 1]);
                assert(txs.deep_view() =~= ts.take(i as int));
                lemma_skip_skip(iv, off_old, off as int - off_old);
                assert(iv.skip(off as int) =~= encode_tx_list(ts.skip(i as int)));
            }
        }
    }
    if off == n {
        let b = Block { header, transactions: txs };
        proof {
            assert(b@.transactions =~= txs.deep_view());
            assert(txs.deep_view().len() == txs@.len());
            assert(b@.transactions.len() == i as int);
            assert(i == count);
            assert((b@.transactions.len() as u64) == count);
            lemma_subrange_stitch(iv, 0, 92, 100);
            lemma_subrange_stitch(iv, 0, 100, n as int);
            assert(encode_block(b@) =~= iv);
            assert forall|j: int| 0 <= j < b@.transactions.len() implies wf_tx(
                #[trigger] b@.transactions[j],
            ) by {
                assert(b@.transactions[j] == txs.deep_view()[j]);
            }
            assert(wf_block(b@));
            assert forall|bv: BlockV|
                wf_block(bv) && iv == #[trigger] encode_block(bv) implies b@ == bv by {
                assert(txs.deep_view() == bv.transactions.take(i as int));
                assert(bv.transactions.take(i as int) =~= bv.transactions);
                assert(b@ =~= bv);
            }
        }
        Some(b)
    } else {
        proof {
            assert forall|bv: BlockV|
                wf_block(bv) && iv == #[trigger] encode_block(bv) implies false by {
                let ts = bv.transactions;
                assert(iv.skip(off as int) == encode_tx_list(ts.skip(i as int)));
                assert(ts.skip(i as int) =~= Seq::<TxV>::empty());
                assert(encode_tx_list(Seq::<TxV>::empty()) == Seq::<u8>::empty());
                assert(iv.len() - off == 0);
            }
        }
        None
    }
}



/// Two well-formed transaction values whose encodings both start the same
/// sequence are the same value (transaction encodings are prefix-free).
pub proof fn lemma_encode_tx_prefix_unique(t1: TxV, t2: TxV, s: Seq<u8>)
    requires
        wf_tx(t1),
        wf_tx(t2),
        is_prefix(encode_tx(t1), s),
        is_prefix(encode_tx(t2), s),
    ensures
        t1 == t2,
{
    lemma_enc_int_len();
    lemma_encode_tx_parts(t1, s);
    lemma_encode_tx_parts(t2, s);
    match (t1, t2) {
        (
            TxV::Transfer { sender: s1, receiver: r1, amount: a1, timestamp: ts1 },
            TxV::Transfer { sender: s2, receiver: r2, amount: a2, timestamp: ts2 },
        ) => {
            lemma_prefix_split(enc_u64le(s1.len() as u64), s1, s.skip(1));
            lemma_prefix_split(enc_u64le(s2.len() as u64), s2, s.skip(1));
            assert(s1.len() as u64 == s2.len() as u64);
            assert(s1.len() == s2.len());
            assert(s1 == s.skip(1).subrange(8, 8 + s1.len() as int));
            assert(s2 == s.skip(1).subrange(8, 8 + s2.len() as int));
            let sl = s1.len() as int;
            lemma_prefix_split(enc_u64le(r1.len() as u64), r1, s.skip(9 + sl));
            lemma_prefix_split(enc_u64le(r2.len() as u64), r2, s.skip(9 + sl));
            assert(r1.len() as u64 == r2.len() as u64);
            assert(r1.len() == r2.len());
            assert(r1 == s.skip(9 + sl).subrange(8, 8 + r1.len() as int));
            assert(r2 == s.skip(9 + sl).subrange(8, 8 + r2.len() as int));
            assert(a1 == a2);
            assert(ts1 == ts2);
            assert(t1 == t2);
        },
        (
            TxV::StoragePointer { sender: s1, payload_hash: h1, payload_size: z1, timestamp: ts1 },
            TxV::StoragePointer { sender: s2, payload_hash: h2, payload_size: z2, timestamp: ts2 },
        ) => {
            lemma_prefix_split(enc_u64le(s1.len() as u64), s1, s.skip(1));
            lemma_prefix_split(enc_u64le(s2.len() as u64), s2, s.skip(1));
            assert(s1.len() as u64 == s2.len() as u64);
            assert(s1.len() == s2.len());
            assert(s1 == s.skip(1).subrange(8, 8 + s1.len() as int));
            assert(s2 == s.skip(1).subrange(8, 8 + s2.len() as int));
            let sl = s1.len() as int;
            assert(h1 =~= s.subrange(9 + sl, 41 + sl));
            assert(h2 =~= s.subrange(9 + sl, 41 + sl));
            assert(z1 == z2);
            assert(ts1 == ts2);
            assert(t1 == t2);
        },
        (TxV::Transfer { .. }, TxV::StoragePointer { .. }) => {
            assert(s[0] == TAG_TRANSFER && s[0] == TAG_STORAGE);
        },
        (TxV::StoragePointer { .. }, TxV::Transfer { .. }) => {
            assert(s[0] == TAG_TRANSFER && s[0] == TAG_STORAGE);
        },
    }
}

/// Two lists of well-formed transaction values with the same concatenated
/// encoding are the same list.
pub proof fn lemma_encode_tx_list_unique(ts1: Seq<TxV>, ts2: Seq<TxV>)
    requires
        forall|i: int| 0 <= i < ts1.len() ==> wf_tx(#[trigger] ts1[i]),
        forall|i: int| 0 <= i < ts2.len() ==> wf_tx(#[trigger] ts2[i]),
        encode_tx_list(ts1) == encode_tx_list(ts2),
    ensures
        ts1 == ts2,
    decreases ts1.len(),
{
    lemma_enc_int_len();
    let l = encode_tx_list(ts1);
    if ts1.len() == 0 && ts2.len() == 0 {
        assert(ts1 =~= ts2);
    } else if ts1.len() == 0 {
        assert(is_prefix(encode_tx(ts2[0]), l)) by {
            assert(encode_tx(ts2[0]) =~= l.subrange(0, encode_tx(ts2[0]).len() as int));
        }
        lemma_encode_tx_parts(ts2[0], l);
        assert(false);
    } else if ts2.len() == 0 {
        assert(is_prefix(encode_tx(ts1[0]), l)) by {
            assert(encode_tx(ts1[0]) =~= l.subrange(0, encode_tx(ts1[0]).len() as int));
        }
        lemma_encode_tx_parts(ts1[0], l);
        assert(false);
    } else {
        assert(is_prefix(encode_tx(ts1[0]), l)) by {
            assert(encode_tx(ts1[0]) =~= l.subrange(0, encode_tx(ts1[0]).len() as int));
        }
        assert(is_prefix(encode_tx(ts2[0]), l)) by {
            assert(encode_tx(ts2[0]) =~= l.subrange(0, encode_tx(ts2[0]).len() as int));
        }
        lemma_encode_tx_prefix_unique(ts1[0], ts2[0], l);
        assert(encode_tx_list(ts1.skip(1)) =~= l.skip(encode_tx(ts1[0]).len() as int));
        assert(encode_tx_list(ts2.skip(1)) =~= l.skip(encode_tx(ts2[0]).len() as int));
        assert forall|i: int| 0 <= i < ts1.skip(1).len() implies wf_tx(#[trigger] ts1.skip(1)[i]) by {
            assert(ts1.skip(1)[i] == ts1[i + 1]);
        }
        assert forall|i: int| 0 <= i < ts2.skip(1).len() implies wf_tx(#[trigger] ts2.skip(1)[i]) by {
            assert(ts2.skip(1)[i] == ts2[i + 1]);
        }
        lemma_encode_tx_list_unique(ts1.skip(1), ts2.skip(1));
        assert forall|i: int| 0 <= i < ts1.len() implies ts1[i] == ts2[i] by {
            if i > 0 {
                assert(ts1[i] == ts1.skip(1)[i - 1]);
                assert(ts2[i] == ts2.skip(1)[i - 1]);
            }
        }
        assert(ts1.len() == ts2.len()) by {
            assert(ts1.skip(1).len() == ts2.skip(1).len());
        }
        assert(ts1 =~= ts2);
    }
}

/// Two well-formed header values with the same encoding are the same value.
pub proof fn lemma_encode_header_unique(h1: HeaderV, h2: HeaderV)
    requires
        wf_header(h1),
        wf_header(h2),
        encode_header(h1) == encode_header(h2),
    ensures
        h1 == h2,
{
    lemma_enc_int_len();
    let s = encode_header(h1);
    assert(is_prefix(encode_header(h1), s)) by {
        assert(s =~= s.subrange(0, s.len() as int));
        assert(encode_header(h1).len() == 92) by {
            assert(h1.previous_hash.len() == 32 && h1.merkle_root.len() == 32);
        }
    }
    lemma_encode_header_parts(h1, s);
    lemma_encode_header_parts(h2, s);
    assert(h1 =~= h2);
}

/// Two well-formed block values with the same encoding are the same value:
/// the canonical encoding is injective.
pub proof fn lemma_encode_block_unique(b1: BlockV, b2: BlockV)
    requires
        wf_block(b1),
        wf_block(b2),
        encode_block(b1) == encode_block(b2),
    ensures
        b1 == b2,
{
    lemma_enc_int_len();
    let s = encode_block(b1);
    let rest1 = enc_u64le(b1.transactions.len() as u64) + encode_tx_list(b1.transactions);
    let rest2 = enc_u64le(b2.transactions.len() as u64) + encode_tx_list(b2.transactions);
    assert(encode_header(b1.header) + rest1 =~= s.subrange(0, s.len() as int));
    lemma_prefix_split(encode_header(b1.header), rest1, s);
    assert(encode_header(b2.header) + rest2 =~= s.subrange(0, s.len() as int));
    lemma_prefix_split(encode_header(b2.header), rest2, s);
    lemma_encode_header_parts(b1.header, s);
    lemma_encode_header_parts(b2.header, s);
    assert(b1.header =~= b2.header);
    lemma_prefix_split(enc_u64le(b1.transactions.len() as u64), encode_tx_list(b1.transactions), s.skip(92));
    lemma_prefix_split(enc_u64le(b2.transactions.len() as u64), encode_tx_list(b2.transactions), s.skip(92));
    assert(b1.transactions.len() as u64 == b2.transactions.len() as u64);
    lemma_skip_skip(s, 92, 8);
    assert(encode_tx_list(b1.transactions) == s.skip(100).subrange(
        0,
        encode_tx_list(b1.transactions).len() as int,
    ));
    assert(encode_tx_list(b2.transactions) == s.skip(100).subrange(
        0,
        encode_tx_list(b2.transactions).len() as int,
    ));
    assert(s.len() == 100 + encode_tx_list(b1.transactions).len());
    assert(s.len() == 100 + encode_tx_list(b2.transactions).len());
    assert(encode_tx_list(b1.transactions) =~= encode_tx_list(b2.transactions));
    lemma_encode_tx_list_unique(b1.transactions, b2.transactions);
    assert(b1 =~= b2);
}

/// The well-formed block value a byte string encodes, when there is one.
/// Encoding is injective, so the value is unique.
pub open spec fn decoded_block(bytes: Seq<u8>) -> Option<BlockV> {
    if exists|bv: BlockV| wf_block(bv) && bytes == encode_block(bv) {
        Some(choose|bv: BlockV| wf_block(bv) && bytes == encode_block(bv))
    } else {
        None
    }
}

/// Decoding an encoding recovers exactly the encoded block value.
pub proof fn lemma_decoded_block_of_encoding(bv: BlockV)
    requires
        wf_block(bv),
    ensures
        decoded_block(encode_block(bv)) == Some(bv),
{
    let bytes = encode_block(bv);
    assert(wf_block(bv) && bytes == encode_block(bv));
    let b2 = choose|b2: BlockV| wf_block(b2) && bytes == encode_block(b2);
    lemma_encode_block_unique(bv, b2);
}


} // verus!
