//! A single-node blockchain engine with off-chain data storage.
//!
//! The crate covers the chain engine: proof-of-work consensus with dynamic
//! difficulty adjustment, a bounded FIFO mempool, the canonical binary
//! encoding of transactions and blocks, a key-value chain store with a
//! height index and cached tip metadata, and the content addressing of the
//! off-chain object store.

pub mod bytes;
pub mod chain;
pub mod codec;
pub mod consensus;
pub mod engine;
pub mod hashing;
pub mod mempool;
pub mod offchain;
pub mod storage;
