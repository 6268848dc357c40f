//! Sizes and limits of the engine.
use vstd::prelude::*;

verus! {

pub const KB: usize = 1024;
pub const MB: usize = 1048576;
pub const GB: usize = 1073741824;

/// Size past which the active memtable is frozen and flushed.
pub const MEMTABLE_SIZE_LIMIT: usize = 4194304;
/// Bytes of decoded blocks the block cache may hold.
pub const BLOCK_CACHE_SIZE: u64 = 8388608;
/// Values longer than this are stored in a value table.
pub const MIN_VSST_SIZE: u64 = 4096;
/// Size at which a compaction starts a new output table.
pub const MAX_SST_SIZE: u64 = 4194304;
/// Level-0 tables past which level 0 is compacted.
pub const L0_SST_NUM_LIMIT: usize = 4;
/// A value table is rewritten when more than `SPARE_NUM / SPARE_DEN` of its
/// entries are no longer referenced.
pub const SPARE_NUM: u64 = 1;
pub const SPARE_DEN: u64 = 2;

/// Options of a store; every tunable above takes its default.
pub struct Options {}

/// Kinds of chunk of a journal block: a whole item, or its first, middle or
/// last part.
#[derive(Copy, Clone, PartialEq, Eq, Debug, Structural)]
pub enum ChunkType {
    Full,
    First,
    Middle,
    Last,
}

impl ChunkType {
    /// The chunk type's code: 0 to 3 in the order above.
    pub fn value(&self) -> (r: u8)
        ensures
            r == match *self {
                ChunkType::Full => 0u8,
                ChunkType::First => 1u8,
                ChunkType::Middle => 2u8,
                ChunkType::Last => 3u8,
            },
    {
        match self {
            ChunkType::Full => 0,
            ChunkType::First => 1,
            ChunkType::Middle => 2,
            ChunkType::Last => 3,
        }
    }
}

pub open spec fn spec_max_level_size(level: usize) -> u64 {
    if level == 0 {
        4194304
    } else if level == 1 {
        10485760
    } else if level == 2 {
        104857600
    } else if level == 3 {
        1073741824
    } else if level == 4 {
        10737418240
    } else {
        107374182400
    }
}

/// The size budget of a level: 4 MB, 10 MB, 100 MB, 1 GB, 10 GB, 100 GB.
pub fn max_level_size(level: usize) -> (r: u64)
    ensures
        r == spec_max_level_size(level),
{
    if level == 0 {
        4194304
    } else if level == 1 {
        10485760
    } else if level == 2 {
        104857600
    } else if level == 3 {
        1073741824
    } else if level == 4 {
        10737418240
    } else {
        107374182400
    }
}

} // verus!
