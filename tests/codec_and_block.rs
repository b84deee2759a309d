use oggetto::block::Block;
use oggetto::codec::{push_le, read_le};
use oggetto::constants::BLOCK_SIZE;
use oggetto::redundant_file::ChunkIndirection;
use oggetto::volume_manager::{FileVector, SuperBlock, VECTOR_BYTES};

#[test]
fn empty_block_is_erased() {
    let b = Block::empty();
    assert_eq!(b.id, 0);
    assert_eq!(b.data.len(), BLOCK_SIZE);
    assert!(b.inner_data_as_vec().is_none());
}

#[test]
fn parity_block_is_intact_and_zero() {
    let b = Block::parity(3);
    assert_ne!(b.id, 0);
    assert_eq!(b.position, 3);
    assert!(b.data.iter().all(|x| *x == 0));
    let d = b.inner_data_as_vec().unwrap();
    assert_eq!(d, b.data);
}

#[test]
fn parity_block_checksum_is_crc32c_of_zeros() {
    let b = Block::parity(0);
    // CRC-32C of 4096 zero bytes differs from 0, the checksum of nothing.
    assert_ne!(b.crc, 0);
    let c = Block::parity(1);
    assert_eq!(b.crc, c.crc);
    assert_ne!(b.id, c.id);
}

#[test]
fn single_byte_flip_is_treated_as_erased() {
    let b = Block::parity(0);
    for i in [0usize, 1, 100, BLOCK_SIZE - 1] {
        for v in [1u8, 0x80, 0xff] {
            let mut f = b.clone();
            f.data[i] ^= v;
            assert!(f.inner_data_as_vec().is_none(), "flip at {} by {}", i, v);
        }
    }
}

#[test]
fn zero_id_block_is_erased_even_with_valid_checksum() {
    let mut b = Block::parity(0);
    b.id = 0;
    assert!(b.inner_data_as_vec().is_none());
}

#[test]
fn push_le_and_read_le() {
    let mut out = Vec::new();
    push_le(&mut out, 0x0102_0304, 8);
    assert_eq!(out, vec![4, 3, 2, 1, 0, 0, 0, 0]);
    assert_eq!(read_le(&out, 0, 8), 0x0102_0304);
    assert_eq!(read_le(&out, 1, 2), 0x0203);
    let mut big = Vec::new();
    push_le(&mut big, u128::MAX, 16);
    assert_eq!(big, vec![0xff; 16]);
    assert_eq!(read_le(&big, 0, 16), u128::MAX);
}

#[test]
fn super_block_layout() {
    let sb = SuperBlock { file_size: 0x1122, file_vector_start: 16 };
    let b = sb.to_bytes();
    assert_eq!(b, vec![0x22, 0x11, 0, 0, 0, 0, 0, 0, 16, 0, 0, 0, 0, 0, 0, 0]);
    let back = SuperBlock::from_bytes(&b);
    assert_eq!(back.file_size, 0x1122);
    assert_eq!(back.file_vector_start, 16);
    let d = SuperBlock::default();
    assert_eq!(d.file_vector_start, 16);
    assert_eq!(d.file_size, 134217728);
}

#[test]
fn file_vector_layout_and_round_trip() {
    let mut fv = FileVector::default();
    assert_eq!(fv.entries.len(), 16);
    assert_eq!(fv.to_bytes(), vec![0u8; VECTOR_BYTES]);
    fv.entries[1] = (0x0a0b, 7);
    fv.next_file_vector = 999;
    let b = fv.to_bytes();
    assert_eq!(b.len(), VECTOR_BYTES);
    assert_eq!(&b[24..32], &[0x0b, 0x0a, 0, 0, 0, 0, 0, 0]);
    assert_eq!(b[32], 7);
    assert_eq!(&b[384..392], &999u64.to_le_bytes());
    let back = FileVector::from_bytes(&b);
    assert_eq!(back.entries, fv.entries);
    assert_eq!(back.next_file_vector, 999);
}

#[test]
fn indirection_block_bytes() {
    let mut ci = ChunkIndirection::default();
    assert_eq!(ci.chunks.len(), 16);
    ci.chunks[0] = 0x0102;
    ci.chunks[15] = u128::MAX;
    let b = ci.to_bin_vec();
    assert_eq!(b.len(), 256);
    assert_eq!(&b[0..3], &[2, 1, 0]);
    assert_eq!(&b[240..256], &[0xff; 16]);
}
