//! A crash-safe key-value store built as a log-structured merge tree.

pub mod bench;
pub mod checksum;
pub mod codec;
pub mod compaction;
pub mod convert;
pub mod crashtest;
pub mod db;
pub mod iter;
pub mod manifest;
pub mod memtable;
pub mod messages;
pub mod model;
pub mod names;
pub mod order;
pub mod random;
pub mod range;
pub mod sstable;
pub mod storage;
pub mod tables;
pub mod testkit;
pub mod wal;

pub use db::read::Scan;
pub use db::{Db, DbError, Options};
pub use storage::{SimFs, Storage, StorageError, StorageResult};
pub use wal::Durability;
