use vstd::prelude::*;

verus! {

/// Number of data shards per chunk.
pub const BLOCKS: usize = 8;

/// Number of parity shards per chunk.
pub const PARITY: usize = 4;

/// Largest number of file bytes one chunk holds.
pub const READ_STEP: usize = 32768;

/// Length of one shard payload for the default parameters.
pub const BLOCK_SIZE: usize = 4096;

/// Number of chunk ids held directly by a file record, and by each of its
/// indirection blocks.
pub const FIRST_INDIRECTION_SIZE: usize = 16;

/// Bytes reserved for a file name in a file record.
pub const FILENAME_SIZE: usize = 256;

/// Number of (offset, id) slots in one allocation vector.
pub const VECTOR_FAN_OUT: usize = 16;

} // verus!
