//! An embedded ordered key-value store built as a log-structured merge tree.
//!
//! Writes land in an in-memory ordered table (the memtable); when it grows
//! past a threshold it is drained into sorted, immutable files (SSTs) made of
//! fixed-size, CRC-protected blocks.  Reads consult the memtable, the
//! immutable memtables and the SST layers in freshness order; range scans
//! merge all layers into one ordered, tombstone-free view.

pub mod block;
pub mod block_builder;
pub mod block_iter;
pub mod entries;
pub mod iterators;
pub mod keys;
pub mod lsm_storage;
pub mod mem_table;
pub mod table;
pub mod table_builder;

pub use block::Error;
pub use keys::KeyBound;
