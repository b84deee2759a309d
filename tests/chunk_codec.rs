use oggetto::block::Block;
use oggetto::chunk::Chunk;
use oggetto::error::RedundantFileError;

fn sample(n: usize) -> Vec<u8> {
    (0..n).map(|i| (i * 31 + 7) as u8).collect()
}

fn all_given(blocks: &Vec<Block>) -> Vec<Option<&Block>> {
    blocks.iter().map(Some).collect()
}

#[test]
fn build_records_window() {
    let w = sample(1000);
    let (c, blocks) = Chunk::build(&w, 5, 4, 2, 256).unwrap();
    assert_ne!(c.id, 0);
    assert_eq!(c.position, 5);
    assert_eq!(c.chunk_n, 4);
    assert_eq!(c.parity_n, 2);
    assert_eq!(c.chunk_size, 1000);
    assert_eq!(c.block_size, 256);
    assert_eq!(c.blocks.len(), 6);
    assert_eq!(c.hash, crc32c::crc32c(&w));
    assert_eq!(blocks.len(), 6);
    for (i, b) in blocks.iter().enumerate() {
        assert_eq!(b.id, c.blocks[i]);
        assert_ne!(b.id, 0);
        assert_eq!(b.position, i);
        assert_eq!(b.data.len(), 256);
        assert_eq!(b.crc, crc32c::crc32c(&b.data));
    }
    // data shards are the window laid out in order, zero-padded
    assert_eq!(&blocks[0].data[..], &w[0..256]);
    assert_eq!(&blocks[3].data[0..232], &w[768..1000]);
    assert!(blocks[3].data[232..].iter().all(|x| *x == 0));
}

#[test]
fn parity_shards_are_computed() {
    let w: Vec<u8> = (0..1024usize).map(|i| (i * i + i / 7) as u8).collect();
    let (_, blocks) = Chunk::build(&w, 0, 4, 2, 256).unwrap();
    assert!(blocks[4].data.iter().any(|x| *x != 0));
    assert!(blocks[5].data.iter().any(|x| *x != 0));
    assert_ne!(blocks[4].data, blocks[5].data);
}

#[test]
fn build_rejects_bad_parameters() {
    let w = sample(10);
    assert_eq!(Chunk::build(&w, 0, 0, 2, 8).unwrap_err(), RedundantFileError::InvalidParameters);
    assert_eq!(Chunk::build(&w, 0, 2, 0, 8).unwrap_err(), RedundantFileError::InvalidParameters);
    assert_eq!(Chunk::build(&w, 0, 200, 57, 8).unwrap_err(), RedundantFileError::InvalidParameters);
    assert_eq!(Chunk::build(&w, 0, 2, 2, 0).unwrap_err(), RedundantFileError::InvalidParameters);
    assert_eq!(Chunk::build(&w, 0, 2, 2, 4).unwrap_err(), RedundantFileError::InvalidParameters);
    assert!(Chunk::build(&w, 0, 2, 2, 5).is_ok());
}

#[test]
fn decode_all_present() {
    let w = sample(1000);
    let (c, blocks) = Chunk::build(&w, 0, 4, 2, 256).unwrap();
    assert_eq!(c.rebuild_data(&all_given(&blocks)).unwrap(), w);
}

#[test]
fn decode_empty_window() {
    let (c, blocks) = Chunk::build(&[], 0, 2, 1, 4).unwrap();
    assert_eq!(c.chunk_size, 0);
    assert_eq!(c.rebuild_data(&all_given(&blocks)).unwrap(), Vec::<u8>::new());
}

#[test]
fn decode_tolerates_any_m_erasures() {
    let w = sample(700);
    let (c, blocks) = Chunk::build(&w, 0, 4, 2, 200).unwrap();
    for a in 0..6 {
        for b in (a + 1)..6 {
            let mut given = all_given(&blocks);
            given[a] = None;
            given[b] = None;
            assert_eq!(c.rebuild_data(&given).unwrap(), w, "withheld {} and {}", a, b);
        }
    }
}

#[test]
fn decode_tolerates_corrupted_shards() {
    let w = sample(700);
    let (c, blocks) = Chunk::build(&w, 0, 4, 2, 200).unwrap();
    let mut bad0 = blocks[0].clone();
    bad0.data[17] ^= 1;
    let mut bad4 = blocks[4].clone();
    bad4.data[0] ^= 0xff;
    let mut given = all_given(&blocks);
    given[0] = Some(&bad0);
    given[4] = Some(&bad4);
    assert_eq!(c.rebuild_data(&given).unwrap(), w);
}

#[test]
fn decode_ignores_misplaced_blocks() {
    let w = sample(700);
    let (c, blocks) = Chunk::build(&w, 0, 4, 2, 200).unwrap();
    let mut given = all_given(&blocks);
    given[0] = Some(&blocks[1]);
    given[1] = Some(&blocks[0]);
    assert_eq!(c.rebuild_data(&given).unwrap(), w);
}

#[test]
fn decode_fails_with_m_plus_one_erasures() {
    let w = sample(700);
    let (c, blocks) = Chunk::build(&w, 0, 4, 2, 200).unwrap();
    for a in 0..6 {
        for b in (a + 1)..6 {
            for d in (b + 1)..6 {
                let mut given = all_given(&blocks);
                given[a] = None;
                given[b] = None;
                given[d] = None;
                assert_eq!(
                    c.rebuild_data(&given).unwrap_err(),
                    RedundantFileError::TooManyErasures
                );
            }
        }
    }
}

#[test]
fn decode_reports_hash_mismatch() {
    let w = sample(300);
    let (mut c, blocks) = Chunk::build(&w, 9, 2, 1, 150).unwrap();
    let good = c.hash;
    c.hash = good.wrapping_add(1);
    let given: Vec<Option<&Block>> = blocks.iter().map(Some).collect();
    assert_eq!(
        c.rebuild_data(&given).unwrap_err(),
        RedundantFileError::HashMismatch(9, good, good.wrapping_add(1))
    );
}

#[test]
fn decode_rejects_wrong_slot_count() {
    let w = sample(300);
    let (c, blocks) = Chunk::build(&w, 0, 2, 1, 150).unwrap();
    let given: Vec<Option<&Block>> = blocks.iter().take(2).map(Some).collect();
    assert_eq!(c.rebuild_data(&given).unwrap_err(), RedundantFileError::InvalidParameters);
    let e = Chunk::empty();
    assert_eq!(e.rebuild_data(&Vec::new()).unwrap_err(), RedundantFileError::InvalidParameters);
}
