use vstd::prelude::*;

use std::collections::HashMap;

use crate::block::Block;
use crate::chunk::Chunk;
use crate::error::{RedundantFileError, VolumeError};
use crate::redundant_file::{
    block_views, capacity, chunk_count, split_params_ok, split_result, RedundantFile,
};
use crate::volume_manager::{holds, keeps, placed_once, FileVolumeManager};

verus! {

broadcast use vstd::std_specs::hash::group_hash_axioms;

/// An in-memory table from identifiers to values, the resolver that file
/// reassembly reads chunks and blocks through.
pub struct BigFileVolumeHashMap<T> {
    hashmap: HashMap<u128, T>,
}

impl<T> View for BigFileVolumeHashMap<T> {
    type V = Map<u128, T>;

    closed spec fn view(&self) -> Map<u128, T> {
        self.hashmap@
    }
}

impl<T> BigFileVolumeHashMap<T> {
    /// An empty table.
    pub fn new() -> (r: BigFileVolumeHashMap<T>)
        ensures
            r@ == Map::<u128, T>::empty(),
    {
        BigFileVolumeHashMap { hashmap: HashMap::new() }
    }

    /// Maps `id` to `value`, returning the value it replaced.
    pub fn insert(&mut self, id: u128, value: T) -> (r: Option<T>)
        ensures
            final(self)@ == old(self)@.insert(id, value),
            r matches Some(v) ==> old(self)@.contains_key(id) && v == old(self)@[id],
            r is None ==> !old(self)@.contains_key(id),
    {
        self.hashmap.insert(id, value)
    }

    /// The value stored under `id`, if any.
    pub fn get(&self, id: &u128) -> (r: Option<&T>)
        ensures
            r matches Some(v) ==> self@.contains_key(*id) && *v == self@[*id],
            r is None ==> !self@.contains_key(*id),
    {
        self.hashmap.get(id)
    }
}

/// A store of file records, chunks and blocks, each under its id.
pub trait Volume {
    spec fn file_map(&self) -> Map<u128, RedundantFile>;

    spec fn chunk_map(&self) -> Map<u128, Chunk>;

    spec fn block_map(&self) -> Map<u128, Block>;

    /// The file record stored under `id`.
    fn get_redundant_file(&self, id: u128) -> (r: Result<&RedundantFile, VolumeError>)
        ensures
            r matches Ok(f) ==> self.file_map().contains_key(id) && *f == self.file_map()[id],
            r matches Err(e) ==> !self.file_map().contains_key(id) && e
                == VolumeError::NoDataFound,
    ;

    /// The chunk stored under `id`.
    fn get_chunk(&self, id: u128) -> (r: Result<&Chunk, VolumeError>)
        ensures
            r matches Ok(c) ==> self.chunk_map().contains_key(id) && *c == self.chunk_map()[id],
            r matches Err(e) ==> !self.chunk_map().contains_key(id) && e
                == VolumeError::NoDataFound,
    ;

    /// The block stored under `id`.
    fn get_block(&self, id: u128) -> (r: Result<&Block, VolumeError>)
        ensures
            r matches Ok(b) ==> self.block_map().contains_key(id) && *b == self.block_map()[id],
            r matches Err(e) ==> !self.block_map().contains_key(id) && e
                == VolumeError::NoDataFound,
    ;
}

/// A volume held in memory, one table per kind of record.
pub struct MemoryVolume {
    pub files: BigFileVolumeHashMap<RedundantFile>,
    pub chunks: BigFileVolumeHashMap<Chunk>,
    pub blocks: BigFileVolumeHashMap<Block>,
}

impl MemoryVolume {
    /// A volume with no records.
    pub fn new() -> (r: MemoryVolume)
        ensures
            r.file_map() == Map::<u128, RedundantFile>::empty(),
            r.chunk_map() == Map::<u128, Chunk>::empty(),
            r.block_map() == Map::<u128, Block>::empty(),
    {
        MemoryVolume {
            files: BigFileVolumeHashMap::new(),
            chunks: BigFileVolumeHashMap::new(),
            blocks: BigFileVolumeHashMap::new(),
        }
    }
}

impl Volume for MemoryVolume {
    open spec fn file_map(&self) -> Map<u128, RedundantFile> {
        self.files@
    }

    open spec fn chunk_map(&self) -> Map<u128, Chunk> {
        self.chunks@
    }

    open spec fn block_map(&self) -> Map<u128, Block> {
        self.blocks@
    }

    fn get_redundant_file(&self, id: u128) -> (r: Result<&RedundantFile, VolumeError>) {
        match self.files.get(&id) {
            Some(f) => Ok(f),
            None => Err(VolumeError::NoDataFound),
        }
    }

    fn get_chunk(&self, id: u128) -> (r: Result<&Chunk, VolumeError>) {
        match self.chunks.get(&id) {
            Some(c) => Ok(c),
            None => Err(VolumeError::NoDataFound),
        }
    }

    fn get_block(&self, id: u128) -> (r: Result<&Block, VolumeError>) {
        match self.blocks.get(&id) {
            Some(b) => Ok(b),
            None => Err(VolumeError::NoDataFound),
        }
    }
}

/// A volume made of two allocators: one for file records, one for chunk
/// records (a chunk with its blocks).
pub struct BigFileVolume {
    pub meta_data: FileVolumeManager,
    pub block_file: FileVolumeManager,
}

/// Where the pieces of a split file go: the file record at `file_offset`
/// of the metadata volume, chunk `p` with its blocks at `chunk_offsets[p]`
/// of the block volume.
pub struct Placement {
    pub file: RedundantFile,
    pub file_offset: u64,
    pub chunks: Vec<Chunk>,
    pub blocks: Vec<Vec<Block>>,
    pub chunk_offsets: Vec<u64>,
}

impl BigFileVolume {
    pub open spec fn wf(&self) -> bool {
        self.meta_data.wf() && self.block_file.wf()
    }

    /// Splits `bytes` into a file record, chunks and blocks, and allocates
    /// the record in the metadata volume and each chunk in the block volume.
    /// Splitting failures are `File` errors and change nothing; a full
    /// volume is `VolumeFull`. Allocations never disturb taken slots.
    pub fn destruct(
        &mut self,
        name: &[u8],
        bytes: &[u8],
        window_size: usize,
        k: usize,
        m: usize,
    ) -> (r: Result<Placement, VolumeError>)
        requires
            old(self).wf(),
        ensures
            final(self).wf(),
            keeps(old(self).meta_data, final(self).meta_data),
            keeps(old(self).block_file, final(self).block_file),
            !split_params_ok(window_size as nat, k as nat, m as nat) ==> r == Err::<Placement, _>(
                VolumeError::File(RedundantFileError::InvalidParameters),
            ),
            split_params_ok(window_size as nat, k as nat, m as nat) && chunk_count(
                bytes@.len(),
                window_size as nat,
            ) > capacity() ==> r == Err::<Placement, _>(
                VolumeError::File(RedundantFileError::TooManyChunks),
            ),
            r == Err::<Placement, _>(VolumeError::File(RedundantFileError::InvalidParameters))
                ==> !split_params_ok(window_size as nat, k as nat, m as nat),
            r == Err::<Placement, _>(VolumeError::File(RedundantFileError::TooManyChunks))
                ==> chunk_count(bytes@.len(), window_size as nat) > capacity(),
            r matches Err(e) ==> e == VolumeError::File(RedundantFileError::InvalidParameters) || e
                == VolumeError::File(RedundantFileError::TooManyChunks) || e
                == VolumeError::VolumeFull,
            r == Err::<Placement, _>(VolumeError::VolumeFull) ==> final(self).meta_data.no_room()
                || final(self).block_file.no_room(),
            r matches Err(VolumeError::File(_)) ==> {
                &&& final(self).meta_data.entries@ == old(self).meta_data.entries@
                &&& final(self).meta_data.vector_offsets@ == old(self).meta_data.vector_offsets@
                &&& final(self).block_file.entries@ == old(self).block_file.entries@
                &&& final(self).block_file.vector_offsets@ == old(
                    self,
                ).block_file.vector_offsets@
            },
            r matches Ok(pl) ==> {
                &&& split_result(
                    bytes@,
                    window_size as nat,
                    k as nat,
                    m as nat,
                    name@,
                    pl.file,
                    pl.chunks@,
                    block_views(pl.blocks@),
                )
                &&& holds(final(self).meta_data, pl.file_offset, pl.file.id)
                &&& placed_once(old(self).meta_data, final(self).meta_data, pl.file_offset, pl.file.id)
                &&& pl.chunk_offsets@.len() == pl.chunks@.len()
                &&& forall|p: int|
                    0 <= p < pl.chunks@.len() ==> holds(
                        final(self).block_file,
                        #[trigger] pl.chunk_offsets@[p],
                        pl.chunks@[p].id,
                    )
            },
    {
        let (file, chunks, blocks) = match RedundantFile::destruct(name, bytes, window_size, k, m) {
            Ok(t) => t,
            Err(e) => {
                return Err(VolumeError::File(e));
            },
        };
        let file_offset = self.meta_data.allocate_file(file.id)?;
        let ghost meta_after = self.meta_data;
        let ghost blocks_before = self.block_file;
        let mut chunk_offsets: Vec<u64> = Vec::new();
        let mut p: usize = 0;
        while p < chunks.len()
            invariant
                p <= chunks@.len(),
                self.wf(),
                keeps(old(self).meta_data, self.meta_data),
                holds(self.meta_data, file_offset, file.id),
                self.meta_data == meta_after,
                placed_once(old(self).meta_data, meta_after, file_offset, file.id),
                keeps(blocks_before, self.block_file),
                blocks_before == old(self).block_file,
                split_params_ok(window_size as nat, k as nat, m as nat),
                chunk_count(bytes@.len(), window_size as nat) <= capacity(),
                forall|t: int| 0 <= t < chunks@.len() ==> (#[trigger] chunks@[t]).id != 0,
                chunk_offsets@.len() == p,
                forall|t: int|
                    0 <= t < p ==> holds(
                        self.block_file,
                        #[trigger] chunk_offsets@[t],
                        chunks@[t].id,
                    ),
            decreases chunks@.len() - p,
        {
            let ghost before = self.block_file;
            let off = self.block_file.allocate_file(chunks[p].id)?;
            proof {
                assert forall|t: int| 0 <= t < p implies holds(
                    self.block_file,
                    #[trigger] chunk_offsets@[t],
                    chunks@[t].id,
                ) by {
                    let s = choose|s: int|
                        0 <= s < before.entries@.len() && #[trigger] before.entries@[s] == (
                            chunk_offsets@[t],
                            chunks@[t].id,
                        );
                    assert(self.block_file.entries@[s] == before.entries@[s]);
                }
                assert forall|s: int|
                    0 <= s < blocks_before.entries@.len() && #[trigger] blocks_before.entries@[s]
                        != (0u64, 0u128) implies self.block_file.entries@[s]
                    == blocks_before.entries@[s] by {
                    assert(before.entries@[s] == blocks_before.entries@[s]);
                }
            }
            chunk_offsets.push(off);
            p = p + 1;
        }
        Ok(Placement { file, file_offset, chunks, blocks, chunk_offsets })
    }
}

} // verus!
