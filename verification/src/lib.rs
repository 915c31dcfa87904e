//! A log-structured key–value storage engine: a byte-trie memtable, a
//! checksummed write-ahead log, immutable sorted tables and the engine that
//! sequences them, together with the command codec and the shard router that
//! sit around it.
//!
//! Every file of the engine's directory is held as a byte image, so the whole
//! engine is a function of plain values: what reaches the disk, and what is
//! read back after a restart, is stated in the contracts.

pub mod endian;
pub mod wal;
pub mod order;
pub mod node;
pub mod radix;
pub mod index;
pub mod sst;
pub mod sort;
pub mod names;
pub mod engine;
pub mod command;
pub mod shard;
pub mod laws;
pub mod raftlog;
