//! An embedded, persistent key-value store with log-structured storage:
//! values live in an append-only log of checksummed records, and an
//! in-memory index maps each key to the offset of its newest record.
//!
//! The store itself operates on the log as a sequence of bytes; reading
//! that sequence from disk and writing appended suffixes back is left to
//! the embedding application.

pub mod checksum;
pub mod codec;
pub mod index;
pub mod laws;
pub mod replay;
pub mod store;

pub use codec::KeyValuePair;
pub use codec::KvError;
pub use store::KvStore;
