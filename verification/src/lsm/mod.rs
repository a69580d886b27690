//! A log-structured merge engine: a write-ahead log, a memtable, sorted tables
//! in levels, and compaction.
//!
//! Nothing here touches a file. [`engine::LsmEngine`] keeps the state and says
//! what is to be read and written; the formats of the log and of the tables are
//! functions on bytes.

pub mod codec;
pub mod compaction;
pub mod engine;
pub mod error;
pub mod manifest;
pub mod memtable;
pub mod merge;
pub mod pairs;
pub mod sstable;
pub mod store;
pub mod text;
pub mod wal;
