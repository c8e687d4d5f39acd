//! Trusted bindings for the hash, hex and clock primitives the engine uses.

use sha2::Digest;
use vstd::prelude::*;

verus! {

/// The SHA-256 digest of a byte sequence, as the `sha2` crate computes it.
/// The digest is a function of the input bytes alone; beyond determinism,
/// only the facts stated by the wrapper below are known of it.
pub uninterp spec fn sha256_of(bytes: Seq<u8>) -> Seq<u8>;

/// Relies on `sha2::Sha256` through the `Digest` trait: the digest depends on
/// the input bytes alone and is exactly 32 bytes long.
#[verifier::external_body]
pub fn sha256(bytes: &[u8]) -> (h: [u8; 32])
    ensures
        h@ == sha256_of(bytes@),
        h@.len() == 32,
{
    let digest = sha2::Sha256::digest(bytes);
    let mut out = [0u8; 32];
    out.copy_from_slice(&digest);
    out
}

/// The lower-case hexadecimal digit for a value below 16.
pub open spec fn hex_char(n: u8) -> char {
    if n == 0 {
        '0'
    } else if n == 1 {
        '1'
    } else if n == 2 {
        '2'
    } else if n == 3 {
        '3'
    } else if n == 4 {
        '4'
    } else if n == 5 {
        '5'
    } else if n == 6 {
        '6'
    } else if n == 7 {
        '7'
    } else if n == 8 {
        '8'
    } else if n == 9 {
        '9'
    } else if n == 10 {
        'a'
    } else if n == 11 {
        'b'
    } else if n == 12 {
        'c'
    } else if n == 13 {
        'd'
    } else if n == 14 {
        'e'
    } else {
        'f'
    }
}

/// Lower-case hexadecimal rendering of a byte sequence: two digits per byte,
/// high nibble first, bytes in order.
pub open spec fn hex_of(bytes: Seq<u8>) -> Seq<char> {
    Seq::new(
        bytes.len() * 2,
        |i: int|
            if i % 2 == 0 {
                hex_char(bytes[i / 2] >> 4)
            } else {
                hex_char(bytes[i / 2] & 0x0f)
            },
    )
}

/// Relies on `hex::encode`: lower-case hexadecimal, two digits per byte,
/// bytes rendered in order.
#[verifier::external_body]
pub fn hex_encode(bytes: &[u8]) -> (r: String)
    ensures
        r@ == hex_of(bytes@),
{
    hex::encode(bytes)
}

/// Relies on `std::time::SystemTime::now`: seconds since the Unix epoch.
/// A clock reading before the epoch yields 0. Nothing relates successive
/// readings, so callers must not assume monotonicity.
#[verifier::external_body]
pub fn now_secs() -> u64 {
    match std::time::SystemTime::now().duration_since(std::time::UNIX_EPOCH) {
        Ok(d) => d.as_secs(),
        Err(_) => 0,
    }
}

} // verus!
