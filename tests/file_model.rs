use oggetto::block::Block;
use oggetto::chunk::Chunk;
use oggetto::constants::{BLOCKS, FIRST_INDIRECTION_SIZE, PARITY, READ_STEP};
use oggetto::error::{RedundantFileError, VolumeError};
use oggetto::redundant_file::RedundantFile;
use oggetto::volume::{MemoryVolume, Volume};

const D: usize = FIRST_INDIRECTION_SIZE;

fn sample(n: usize) -> Vec<u8> {
    (0..n).map(|i| ((i * 131) ^ (i >> 8)) as u8).collect()
}

fn store(f: RedundantFile, chunks: Vec<Chunk>, blocks: Vec<Vec<Block>>) -> (u128, MemoryVolume) {
    let mut v = MemoryVolume::new();
    for bs in blocks {
        for b in bs {
            v.blocks.insert(b.id, b);
        }
    }
    for c in chunks {
        v.chunks.insert(c.id, c);
    }
    let id = f.id;
    v.files.insert(id, f);
    (id, v)
}

#[test]
fn split_counts_and_positions() {
    let b = sample(1000);
    let (f, chunks, blocks) = RedundantFile::destruct(b"data.bin", &b, 300, 3, 2).unwrap();
    assert_eq!(chunks.len(), 4);
    assert_eq!(blocks.len(), 4);
    for (p, c) in chunks.iter().enumerate() {
        assert_eq!(c.position as usize, p);
        assert_eq!(c.block_size, 100);
        assert_eq!(f.chunks_fi.chunks[p], c.id);
        assert_eq!(blocks[p].len(), 5);
    }
    assert_eq!(chunks[3].chunk_size, 100);
    assert_eq!(f.chunks_fi.chunks[4], 0);
    assert_eq!(&f.name[0..8], b"data.bin");
    assert!(f.name[8..].iter().all(|x| *x == 0));
    assert_eq!(f.name.len(), 256);
}

#[test]
fn split_rejects_bad_parameters() {
    let b = sample(10);
    assert_eq!(
        RedundantFile::destruct(b"x", &b, 0, 2, 1).err().unwrap(),
        RedundantFileError::InvalidParameters
    );
    assert_eq!(
        RedundantFile::destruct(b"x", &b, 8, 0, 1).err().unwrap(),
        RedundantFileError::InvalidParameters
    );
    assert_eq!(
        RedundantFile::destruct(b"x", &b, 8, 2, 255).err().unwrap(),
        RedundantFileError::InvalidParameters
    );
}

#[test]
fn long_names_are_truncated() {
    let name = vec![b'a'; 300];
    let (f, _, _) = RedundantFile::destruct(&name, &[1, 2, 3], 8, 2, 1).unwrap();
    assert_eq!(f.name, vec![b'a'; 256]);
}

#[test]
fn indirection_direct_capacity() {
    let b = sample(D);
    let (f, chunks, _) = RedundantFile::destruct(b"d", &b, 1, 1, 1).unwrap();
    assert_eq!(chunks.len(), D);
    assert_eq!(f.chunks_fi.chunks[D - 1], chunks[D - 1].id);
    assert!(f.chunks_si.iter().all(|ci| ci.chunks.iter().all(|x| *x == 0)));
}

#[test]
fn indirection_first_indirect_slot() {
    let b = sample(D + 1);
    let (f, chunks, _) = RedundantFile::destruct(b"d", &b, 1, 1, 1).unwrap();
    assert_eq!(chunks.len(), D + 1);
    assert_eq!(f.chunks_si[0].chunks[0], chunks[D].id);
    assert_eq!(f.chunks_si[0].chunks[1], 0);
}

#[test]
fn indirection_full_capacity() {
    let b = sample(D + D * D);
    let (f, chunks, blocks) = RedundantFile::destruct(b"d", &b, 1, 1, 1).unwrap();
    assert_eq!(chunks.len(), D + D * D);
    assert_eq!(f.chunks_si[D - 1].chunks[D - 1], chunks[D + D * D - 1].id);
    assert_eq!(f.referenced_ids().len(), D + D * D);
    let (id, v) = store(f, chunks, blocks);
    let mut out = Vec::new();
    RedundantFile::rebuild(id, &v, &mut out).unwrap();
    assert_eq!(out, b);
}

#[test]
fn indirection_over_capacity_is_rejected() {
    let b = sample(D * D * D + 1);
    assert_eq!(
        RedundantFile::destruct(b"d", &b, 1, 1, 1).err().unwrap(),
        RedundantFileError::TooManyChunks
    );
    let b = sample(D + D * D + 1);
    assert_eq!(
        RedundantFile::destruct(b"d", &b, 1, 1, 1).err().unwrap(),
        RedundantFileError::TooManyChunks
    );
}

#[test]
fn round_trip_various_sizes() {
    for (n, ws, k, m) in [(0usize, 16usize, 2usize, 1usize), (1, 16, 2, 1), (64, 16, 4, 2), (65, 16, 4, 2), (5000, 999, 5, 3)] {
        let b = sample(n);
        let (f, chunks, blocks) = RedundantFile::destruct(b"r", &b, ws, k, m).unwrap();
        let (id, v) = store(f, chunks, blocks);
        let mut out = vec![9u8];
        RedundantFile::rebuild(id, &v, &mut out).unwrap();
        assert_eq!(&out[1..], &b[..], "size {}", n);
        assert_eq!(out[0], 9);
    }
}

#[test]
fn missing_chunk_fails_without_output() {
    let b = sample(100);
    let (f, mut chunks, blocks) = RedundantFile::destruct(b"r", &b, 30, 2, 1).unwrap();
    chunks.remove(2);
    let (id, v) = store(f, chunks, blocks);
    let mut out = Vec::new();
    assert_eq!(RedundantFile::rebuild(id, &v, &mut out).unwrap_err(), VolumeError::NoDataFound);
    assert!(out.is_empty());
}

#[test]
fn unknown_file_is_not_found() {
    let v = MemoryVolume::new();
    let mut out = Vec::new();
    assert_eq!(RedundantFile::rebuild(42, &v, &mut out).unwrap_err(), VolumeError::NoDataFound);
    assert!(v.get_chunk(1).is_err());
}

#[test]
fn too_many_missing_blocks_fail_the_file() {
    let b = sample(100);
    let (f, chunks, mut blocks) = RedundantFile::destruct(b"r", &b, 30, 2, 1).unwrap();
    blocks[1].remove(0);
    blocks[1].remove(0);
    let (id, v) = store(f, chunks, blocks);
    let mut out = Vec::new();
    assert_eq!(
        RedundantFile::rebuild(id, &v, &mut out).unwrap_err(),
        VolumeError::File(RedundantFileError::TooManyErasures)
    );
    assert!(out.is_empty());
}

#[test]
fn end_to_end_example() {
    assert_eq!((BLOCKS, PARITY, READ_STEP), (8, 4, 32768));
    let b = sample(100_000);
    let (f, chunks, mut blocks) = RedundantFile::destruct(b"example", &b, READ_STEP, BLOCKS, PARITY).unwrap();
    assert_eq!(chunks.len(), 4);
    for c in chunks.iter().take(3) {
        assert_eq!(c.chunk_size, 32768);
    }
    assert_eq!(chunks[3].chunk_size, 100_000 - 3 * 32768);
    for c in chunks.iter() {
        assert_eq!(c.blocks.len(), 12);
        assert_eq!(c.block_size, 4096);
    }
    // corrupt one parity shard of chunk 0
    blocks[0][9].data[5] ^= 0x40;
    let (id, v) = store(f, chunks, blocks);
    let mut out = Vec::new();
    RedundantFile::rebuild(id, &v, &mut out).unwrap();
    assert_eq!(out.len(), 100_000);
    assert_eq!(out, b);
}
