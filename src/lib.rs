//! An erasure-coded object store: files are cut into windows, each window is
//! Reed-Solomon encoded into checksummed shards, and the pieces are placed in
//! fixed-layout volume files through a chained slot allocator.
pub mod block;
pub mod checksum;
pub mod chunk;
pub mod codec;
pub mod constants;
pub mod erasure;
pub mod error;
pub mod redundant_file;
pub mod volume;
pub mod volume_manager;
