//! Small verified helpers on byte strings: comparisons, big-endian integers,
//! and buffer building.

use vstd::prelude::*;

verus! {

/// Compares two 32-byte hashes for equality.
pub fn hash_eq(a: &[u8; 32], b: &[u8; 32]) -> (r: bool)
    ensures
        r == (a@ == b@),
{
    let mut i: usize = 0;
    while i < 32
        invariant
            0 <= i <= 32,
            forall|j: int| 0 <= j < i ==> a@[j] == b@[j],
        decreases 32 - i,
    {
        if a[i] != b[i] {
            assert(a@ != b@);
            return false;
        }
        i += 1;
    }
    assert(a@ =~= b@);
    true
}

/// Compares two byte slices for equality.
pub fn slice_eq(a: &[u8], b: &[u8]) -> (r: bool)
    ensures
        r == (a@ == b@),
{
    if a.len() != b.len() {
        assert(a@ != b@);
        return false;
    }
    let mut i: usize = 0;
    while i < a.len()
        invariant
            0 <= i <= a.len(),
            a.len() == b.len(),
            forall|j: int| 0 <= j < i ==> a@[j] == b@[j],
        decreases a.len() - i,
    {
        if a[i] != b[i] {
            assert(a@ != b@);
            return false;
        }
        i += 1;
    }
    assert(a@ =~= b@);
    true
}

/// Compares two byte vectors for equality.
pub fn bytes_eq(a: &Vec<u8>, b: &Vec<u8>) -> (r: bool)
    ensures
        r == (a@ == b@),
{
    slice_eq(a.as_slice(), b.as_slice())
}

/// The eight big-endian bytes of a 64-bit integer.
pub open spec fn be8(x: u64) -> Seq<u8> {
    seq![
        (x >> 56) as u8,
        (x >> 48) as u8,
        (x >> 40) as u8,
        (x >> 32) as u8,
        (x >> 24) as u8,
        (x >> 16) as u8,
        (x >> 8) as u8,
        x as u8,
    ]
}

/// Serializes a 64-bit integer as eight big-endian bytes.
pub fn u64_to_be_bytes(x: u64) -> (r: Vec<u8>)
    ensures
        r@ == be8(x),
{
    let mut r: Vec<u8> = Vec::new();
    r.push((x >> 56) as u8);
    r.push((x >> 48) as u8);
    r.push((x >> 40) as u8);
    r.push((x >> 32) as u8);
    r.push((x >> 24) as u8);
    r.push((x >> 16) as u8);
    r.push((x >> 8) as u8);
    r.push(x as u8);
    assert(r@ =~= be8(x));
    r
}

/// Reads a 64-bit integer back from its eight big-endian bytes.
pub fn u64_from_be_bytes(s: &[u8]) -> (x: u64)
    requires
        s@.len() == 8,
    ensures
        be8(x) == s@,
{
    let b0 = s[0];
    let b1 = s[1];
    let b2 = s[2];
    let b3 = s[3];
    let b4 = s[4];
    let b5 = s[5];
    let b6 = s[6];
    let b7 = s[7];
    let x: u64 = ((b0 as u64) << 56) | ((b1 as u64) << 48) | ((b2 as u64) << 40) | ((b3 as u64)
        << 32) | ((b4 as u64) << 24) | ((b5 as u64) << 16) | ((b6 as u64) << 8) | (b7 as u64);
    proof {
        assert((x >> 56) as u8 == b0 && (x >> 48) as u8 == b1 && (x >> 40) as u8 == b2 && (x >> 32)
            as u8 == b3 && (x >> 24) as u8 == b4 && (x >> 16) as u8 == b5 && (x >> 8) as u8 == b6
            && x as u8 == b7) by (bit_vector)
            requires
                x == ((b0 as u64) << 56) | ((b1 as u64) << 48) | ((b2 as u64) << 40) | ((b3 as u64)
                    << 32) | ((b4 as u64) << 24) | ((b5 as u64) << 16) | ((b6 as u64) << 8) | (
                b7 as u64),
        ;
        assert(be8(x) =~= s@);
    }
    x
}

/// Two integers with the same big-endian bytes are equal.
pub proof fn lemma_be8_injective(x: u64, y: u64)
    requires
        be8(x) == be8(y),
    ensures
        x == y,
{
    assert(be8(x)[7] == be8(y)[7]);
    assert(x == y) by (bit_vector)
        requires
            (x >> 56) as u8 == (y >> 56) as u8,
            (x >> 48) as u8 == (y >> 48) as u8,
            (x >> 40) as u8 == (y >> 40) as u8,
            (x >> 32) as u8 == (y >> 32) as u8,
            (x >> 24) as u8 == (y >> 24) as u8,
            (x >> 16) as u8 == (y >> 16) as u8,
            (x >> 8) as u8 == (y >> 8) as u8,
            x as u8 == y as u8,
    ;
}

/// Appends a byte slice to a buffer.
pub fn push_bytes(out: &mut Vec<u8>, b: &[u8])
    ensures
        final(out)@ == old(out)@ + b@,
{
    let mut i: usize = 0;
    while i < b.len()
        invariant
            0 <= i <= b.len(),
            out@ == old(out)@ + b@.take(i as int),
        decreases b.len() - i,
    {
        out.push(b[i]);
        assert(out@ =~= old(out)@ + b@.take(i as int + 1));
        i += 1;
    }
    assert(out@ =~= old(out)@ + b@);
}

/// Copies a range of a byte slice into a fresh vector.
pub fn copy_range(b: &[u8], start: usize, end: usize) -> (r: Vec<u8>)
    requires
        start <= end <= b@.len(),
    ensures
        r@ == b@.subrange(start as int, end as int),
{
    let mut r: Vec<u8> = Vec::new();
    let mut i: usize = start;
    while i < end
        invariant
            start <= i <= end <= b@.len(),
            r@ == b@.subrange(start as int, i as int),
        decreases end - i,
    {
        r.push(b[i]);
        assert(r@ =~= b@.subrange(start as int, i as int + 1));
        i += 1;
    }
    r
}

/// Copies 32 bytes starting at `start` into a fixed hash array.
pub fn read_hash32(b: &[u8], start: usize) -> (r: [u8; 32])
    requires
        start + 32 <= b@.len(),
    ensures
        r@ == b@.subrange(start as int, start as int + 32),
{
    let mut r: [u8; 32] = [0u8; 32];
    let n = b.len();
    let mut i: usize = 0;
    while i < 32
        invariant
            0 <= i <= 32,
            start + 32 <= n == b@.len(),
            r@.len() == 32,
            forall|j: int| 0 <= j < i ==> r@[j] == b@[start + j],
        decreases 32 - i,
    {
        r[i] = b[start + i];
        i += 1;
    }
    assert(r@ =~= b@.subrange(start as int, start as int + 32));
    r
}

} // verus!
