use vstd::prelude::*;

verus! {

/// Failures while splitting a file into chunks or rebuilding it.
#[derive(Debug, Clone, Copy, PartialEq, Eq, Structural)]
pub enum RedundantFileError {
    /// The erasure-code parameters or the window size cannot be used.
    InvalidParameters,
    /// The file needs more chunks than a file record can address.
    TooManyChunks,
    /// Fewer than `k` shards of a chunk were present and valid.
    TooManyErasures,
    /// The rebuilt window's checksum differs from the recorded one:
    /// (chunk position, computed checksum, recorded checksum).
    HashMismatch(u32, u32, u32),
    /// A chunk referenced by the file could not be found.
    NoDataFound,
}

/// Block-level conditions. A corrupt or missing shard is not a failure of
/// the operation: it is reported as an erasure and absorbed by the code.
#[derive(Debug, Clone, Copy, PartialEq, Eq, Structural)]
pub enum BlockError {
    /// The shard is absent or fails its checksum.
    Erased,
}

/// Failures of a volume.
#[derive(Debug, Clone, Copy, PartialEq, Eq, Structural)]
pub enum VolumeError {
    /// A request the volume cannot serve (such as the reserved id 0).
    GeneralError,
    /// The identifier is not allocated in the volume.
    NoDataFound,
    /// The volume has no room left for another allocation vector.
    VolumeFull,
    /// Bytes read back from the volume do not form a valid structure.
    Corrupt,
    /// Splitting or rebuilding a file failed.
    File(RedundantFileError),
}

} // verus!
