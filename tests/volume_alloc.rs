use oggetto::error::{RedundantFileError, VolumeError};
use oggetto::volume::{BigFileVolume, MemoryVolume};
use oggetto::redundant_file::RedundantFile;
use oggetto::volume_manager::{FileVector, FileVolumeManager, SUPER_BLOCK_BYTES, VECTOR_BYTES};

const F: usize = 16;

fn fresh(size: u64, rs: u64) -> FileVolumeManager {
    FileVolumeManager::init(size, rs).unwrap()
}

#[test]
fn init_lays_out_one_vector() {
    let v = fresh(1 << 20, 100);
    assert_eq!(v.super_block.file_vector_start, 16);
    assert_eq!(v.vector_offsets, vec![16]);
    assert_eq!(v.entries, vec![(0u64, 0u128); F]);
    assert_eq!(FileVolumeManager::init(16 + 392 + 1600 - 1, 100).err().unwrap(), VolumeError::GeneralError);
    assert!(FileVolumeManager::init(16 + 392 + 1600, 100).is_ok());
    assert_eq!(FileVolumeManager::init(1 << 20, 0).err().unwrap(), VolumeError::GeneralError);
}

#[test]
fn allocation_fills_first_vector_then_grows_chain() {
    let rs = 100u64;
    let mut v = fresh(1 << 20, rs);
    let n = F + 5;
    let stride = VECTOR_BYTES as u64 + F as u64 * rs;
    for i in 0..n {
        let off = v.allocate_file(1000 + i as u128).unwrap();
        let expected = 16 + (i / F) as u64 * stride + VECTOR_BYTES as u64 + (i % F) as u64 * rs;
        assert_eq!(off, expected, "allocation {}", i);
    }
    assert_eq!(v.vector_offsets, vec![16, 16 + stride]);
    assert_eq!(v.entries.len(), 2 * F);
    for i in 0..n {
        assert_eq!(v.entries[i].1, 1000 + i as u128);
        assert_eq!(v.resolve(1000 + i as u128), Some(v.entries[i].0));
    }
    for i in n..2 * F {
        assert_eq!(v.entries[i], (0, 0));
    }
    assert_eq!(v.resolve(5), None);
    assert_eq!(v.resolve(0), None);
}

#[test]
fn freed_slot_is_reused_first() {
    let mut v = fresh(1 << 20, 10);
    for i in 0..5u128 {
        v.allocate_file(i + 1).unwrap();
    }
    let off2 = v.entries[2].0;
    v.entries[2] = (0, 0);
    assert_eq!(v.allocate_file(77).unwrap(), off2);
    assert_eq!(v.resolve(77), Some(off2));
    assert_eq!(v.resolve(4), Some(v.entries[3].0));
}

#[test]
fn zero_id_is_refused() {
    let mut v = fresh(1 << 20, 10);
    assert_eq!(v.allocate_file(0).unwrap_err(), VolumeError::GeneralError);
    assert_eq!(v.entries, vec![(0u64, 0u128); F]);
}

#[test]
fn full_volume_is_reported() {
    let rs = 10u64;
    let stride = VECTOR_BYTES as u64 + F as u64 * rs;
    let mut v = fresh(16 + stride, rs);
    for i in 0..F {
        v.allocate_file(i as u128 + 1).unwrap();
    }
    assert_eq!(v.allocate_file(99).unwrap_err(), VolumeError::VolumeFull);
    assert_eq!(v.vector_offsets.len(), 1);
}

#[test]
fn chain_images_reopen() {
    let mut v = fresh(1 << 20, 50);
    for i in 0..(2 * F + 1) {
        v.allocate_file(i as u128 + 10).unwrap();
    }
    let images = v.vector_images();
    assert_eq!(images.len(), 3);
    let mut chain = Vec::new();
    for (off, bytes) in images.iter() {
        assert_eq!(bytes.len(), VECTOR_BYTES);
        chain.push((*off, FileVector::from_bytes(bytes)));
    }
    assert_eq!(chain[0].1.next_file_vector, chain[1].0);
    assert_eq!(chain[2].1.next_file_vector, 0);
    let sb_bytes = v.super_block.to_bytes();
    assert_eq!(sb_bytes.len(), SUPER_BLOCK_BYTES);
    let sb = oggetto::volume_manager::SuperBlock::from_bytes(&sb_bytes);
    let back = FileVolumeManager::open(sb, 50, &chain).unwrap();
    assert_eq!(back.entries, v.entries);
    assert_eq!(back.vector_offsets, v.vector_offsets);
    // a broken link is refused
    chain[0].1.next_file_vector = 12345;
    assert_eq!(FileVolumeManager::open(sb, 50, &chain).err().unwrap(), VolumeError::Corrupt);
}

#[test]
fn facade_places_file_and_chunks() {
    let meta = FileVolumeManager::init(1 << 24, 5000).unwrap();
    let blocks = FileVolumeManager::init(1 << 26, 60000).unwrap();
    let mut vol = BigFileVolume { meta_data: meta, block_file: blocks };
    let b: Vec<u8> = (0..70000u32).map(|i| i as u8).collect();
    let pl = vol.destruct(b"f", &b, 32768, 8, 4).unwrap();
    assert_eq!(pl.chunks.len(), 3);
    assert_eq!(vol.meta_data.resolve(pl.file.id), Some(pl.file_offset));
    for (p, c) in pl.chunks.iter().enumerate() {
        assert_eq!(vol.block_file.resolve(c.id), Some(pl.chunk_offsets[p]));
    }
    let mut mv = MemoryVolume::new();
    for bs in pl.blocks {
        for blk in bs {
            mv.blocks.insert(blk.id, blk);
        }
    }
    for c in pl.chunks {
        mv.chunks.insert(c.id, c);
    }
    let mut out = Vec::new();
    pl.file.inner_rebuild(&mv, &mut out).unwrap();
    assert_eq!(out, b);
    assert_eq!(
        vol.destruct(b"f", &b, 0, 8, 4).err().unwrap(),
        VolumeError::File(RedundantFileError::InvalidParameters)
    );
    let _ = RedundantFile::destruct(b"", &[], 1, 1, 1).unwrap();
}

#[test]
fn open_rejects_overlapping_or_misplaced_vectors() {
    let rs = 10u64;
    let stride = VECTOR_BYTES as u64 + F as u64 * rs;
    let sb = oggetto::volume_manager::SuperBlock { file_size: 1 << 20, file_vector_start: 16 };
    let mut first = FileVector::default();
    first.next_file_vector = 16 + stride - 1;
    let second = FileVector::default();
    let chain = vec![(16u64, first), (16 + stride - 1, second)];
    assert_eq!(FileVolumeManager::open(sb, rs, &chain).err().unwrap(), VolumeError::Corrupt);

    let mut first = FileVector::default();
    first.next_file_vector = 16 + stride;
    let chain = vec![(16u64, first), (16 + stride, FileVector::default())];
    assert!(FileVolumeManager::open(sb, rs, &chain).is_ok());

    let sb_low = oggetto::volume_manager::SuperBlock { file_size: 1 << 20, file_vector_start: 8 };
    let chain = vec![(8u64, FileVector::default())];
    assert_eq!(FileVolumeManager::open(sb_low, rs, &chain).err().unwrap(), VolumeError::Corrupt);
}

#[test]
fn facade_reports_full_block_volume() {
    let meta = FileVolumeManager::init(1 << 24, 5000).unwrap();
    // room for one vector of 16 tiny records only
    let blocks = FileVolumeManager::init(16 + 392 + 16, 1).unwrap();
    let mut vol = BigFileVolume { meta_data: meta, block_file: blocks };
    let b: Vec<u8> = (0..40u32).map(|i| i as u8).collect();
    // 20 windows of 2 bytes need 20 chunk slots, more than the 16 there are
    assert_eq!(vol.destruct(b"f", &b, 2, 1, 1).err().unwrap(), VolumeError::VolumeFull);
    let ok = vol.destruct(b"g", &b[0..2], 2, 1, 1);
    assert!(ok.is_err());
}
