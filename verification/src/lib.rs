//! A key-value store with two storage engines, a binary wire protocol, and the
//! encodings that both engines keep on disk.

pub mod bench;
pub mod bffp;
pub mod block;
pub mod bloom;
pub mod bytes;
pub mod cli;
pub mod compaction;
pub mod crc;
pub mod db;
pub mod directory;
pub mod engine;
pub mod error;
pub mod hash_index;
pub mod hint;
pub mod kvengine;
pub mod leveled;
pub mod levels;
pub mod lsm;
pub mod lsmengine;
pub mod lz77;
pub mod memtable;
pub mod number;
pub mod record;
pub mod recovery;
pub mod reopening;
pub mod segment;
pub mod server;
pub mod settings;
pub mod size_tiered;
pub mod sorted_map;
pub mod sstable;
pub mod stats;
pub mod store;
pub mod text;
pub mod utils;
pub mod wal;
