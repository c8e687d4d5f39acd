//! Content addressing for the off-chain object store.
//!
//! A payload is addressed by its SHA-256 digest and kept in a file named by
//! the lower-case hex of that digest, under a dedicated directory. The
//! addressing and integrity rules live here; the file reads and writes are
//! the embedding application's, which checks for an existing object before
//! writing so that re-storing a payload never touches the stored file.

use vstd::prelude::*;

use crate::bytes::hash_eq;
use crate::hashing::{hex_encode, hex_of, sha256, sha256_of};

verus! {

/// A failure of the off-chain object store.
#[derive(Debug)]
pub enum OffChainStorageError {
    /// A file could not be read or written.
    Io(String),
    /// A payload hash is malformed.
    InvalidHashFormat(String),
    /// No payload is stored under the given hash.
    NotFound(String),
    /// The storage directory could not be created.
    DirectoryCreationFailed(String),
}

/// The off-chain object store: payloads addressed by their SHA-256 digest,
/// one file per digest under `storage_path`.
#[derive(Debug)]
pub struct OffChainStorageManager {
    storage_path: String,
}

impl OffChainStorageManager {
    /// The directory the store's objects live under.
    pub closed spec fn path(&self) -> Seq<char> {
        self.storage_path@
    }

    /// Creates a manager rooted at the given directory.
    pub fn new(storage_path: String) -> (r: OffChainStorageManager)
        ensures
            r.path() == storage_path@,
    {
        OffChainStorageManager { storage_path }
    }

    /// The directory path.
    pub fn storage_path(&self) -> (r: &String)
        ensures
            r@ == self.path(),
    {
        &self.storage_path
    }

    /// The content address of a payload: its SHA-256 digest. Re-computing
    /// the address of the same bytes always yields the same hash.
    pub fn payload_address(payload: &[u8]) -> (h: crate::chain::Hash)
        ensures
            h@ == sha256_of(payload@),
    {
        sha256(payload)
    }

    /// The file name an object is stored under: the lower-case hexadecimal
    /// of its content address.
    pub fn object_file_name(hash: &crate::chain::Hash) -> (r: String)
        ensures
            r@ == hex_of(hash@),
    {
        hex_encode(hash.as_slice())
    }

    /// Checks a payload against its claimed content address; a retrieved
    /// object passes exactly when its bytes hash to the address it was
    /// requested under.
    pub fn verify_payload(payload: &[u8], expected: &crate::chain::Hash) -> (r: bool)
        ensures
            r == (sha256_of(payload@) == expected@),
    {
        let h = sha256(payload);
        hash_eq(&h, expected)
    }
}

} // verus!
