//! An embedded LSM-tree key/value store with key/value separation: the
//! formats, the in-memory structures and the decisions of the engine.
use vstd::prelude::*;

pub mod order;
pub mod codec;
pub mod checksum;
pub mod value;
pub mod entry;
pub mod record;
pub mod manifest;
pub mod memtable;
pub mod journal;
pub mod merge;
pub mod iterator;
pub mod block;
pub mod sstable;
pub mod compaction;
pub mod catalog;
pub mod config;
pub mod engine;

pub use crate::config::{KB, MB, GB, MEMTABLE_SIZE_LIMIT, BLOCK_CACHE_SIZE, MIN_VSST_SIZE, MAX_SST_SIZE, L0_SST_NUM_LIMIT};
pub use crate::iterator::{StorageIterator, StorageIteratorError};
pub use crate::value::{Key, OpType};
