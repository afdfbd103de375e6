use raiden::split::{
    calculate_parity, create_disks, read_to_chunk, read_to_chunks, write_to_disks,
};
use raiden::stripe::{create_chunks_vec, parity_slot, reconstruct_chunk};
use raiden::{split, Chunk, Error, CHUNK_SIZE, HEADER_SIZE};

#[test]
fn chunk_size_is_four_and_header_eight() {
    assert_eq!(CHUNK_SIZE, 4);
    assert_eq!(HEADER_SIZE, 8);
}

#[test]
fn chunks_vec_is_zeroed() {
    assert_eq!(create_chunks_vec(0), Vec::<Chunk>::new());
    assert_eq!(create_chunks_vec(3), vec![[0u8; 4]; 3]);
}

#[test]
fn parity_slot_rotates() {
    let slots: Vec<usize> = (0..7).map(|stripe| parity_slot(stripe, 3)).collect();
    assert_eq!(slots, vec![0, 1, 2, 0, 1, 2, 0]);
    assert_eq!(parity_slot(5, 2), 1);
    assert_eq!(parity_slot(4, 1), 0);
}

#[test]
fn reconstruct_chunk_folds_the_others() {
    let mut chunks: Vec<Chunk> = vec![[1, 2, 3, 4], [0xff, 0xff, 0xff, 0xff], [5, 6, 7, 8]];
    reconstruct_chunk(&mut chunks, 1);
    assert_eq!(chunks, vec![[1, 2, 3, 4], [4, 4, 4, 12], [5, 6, 7, 8]]);
    reconstruct_chunk(&mut chunks, 0);
    assert_eq!(chunks, vec![[1, 2, 3, 4], [4, 4, 4, 12], [5, 6, 7, 8]]);
}

#[test]
fn reconstruct_chunk_of_a_single_chunk_is_zero() {
    let mut chunks: Vec<Chunk> = vec![[9, 9, 9, 9]];
    reconstruct_chunk(&mut chunks, 0);
    assert_eq!(chunks, vec![[0, 0, 0, 0]]);
}

#[test]
fn calculate_parity_makes_the_stripe_fold_to_zero() {
    let mut chunks: Vec<Chunk> = vec![[7, 7, 7, 7], [1, 2, 4, 8], [16, 32, 64, 128], [3, 5, 9, 17]];
    calculate_parity(&mut chunks, 0);
    assert_eq!(chunks[0], [1 ^ 16 ^ 3, 2 ^ 32 ^ 5, 4 ^ 64 ^ 9, 8 ^ 128 ^ 17]);
    assert_eq!(chunks[1], [1, 2, 4, 8]);
    assert_eq!(chunks[2], [16, 32, 64, 128]);
    assert_eq!(chunks[3], [3, 5, 9, 17]);
    for b in 0..4 {
        assert_eq!(chunks.iter().fold(0u8, |acc, chunk| acc ^ chunk[b]), 0);
    }
}

#[test]
fn create_disks_writes_little_endian_header() {
    let disks = create_disks(3, 0x0102_0304_0506_0708);
    assert_eq!(disks, vec![vec![8u8, 7, 6, 5, 4, 3, 2, 1]; 3]);
    assert_eq!(create_disks(0, 5), Vec::<Vec<u8>>::new());
}

#[test]
fn write_to_disks_appends_chunk_by_disk() {
    let mut disks = vec![vec![1u8], vec![], vec![2, 3]];
    let chunks: Vec<Chunk> = vec![[10, 11, 12, 13], [20, 21, 22, 23], [30, 31, 32, 33]];
    write_to_disks(&mut disks, &chunks);
    assert_eq!(
        disks,
        vec![
            vec![1, 10, 11, 12, 13],
            vec![20, 21, 22, 23],
            vec![2, 3, 30, 31, 32, 33]
        ]
    );
}

#[test]
fn write_to_disks_stops_at_the_shorter() {
    let mut disks = vec![vec![1u8], vec![2]];
    let one: Vec<Chunk> = vec![[9, 9, 9, 9]];
    write_to_disks(&mut disks, &one);
    assert_eq!(disks, vec![vec![1, 9, 9, 9, 9], vec![2]]);
    let mut single = vec![vec![]];
    let two: Vec<Chunk> = vec![[1, 1, 1, 1], [2, 2, 2, 2]];
    write_to_disks(&mut single, &two);
    assert_eq!(single, vec![vec![1, 1, 1, 1]]);
}

#[test]
fn read_to_chunk_reads_whole_chunk() {
    let source = [1u8, 2, 3, 4, 5, 6];
    let mut position = 0;
    let mut chunk: Chunk = [9; 4];
    assert!(!read_to_chunk(&source, &mut position, &mut chunk));
    assert_eq!(chunk, [1, 2, 3, 4]);
    assert_eq!(position, 4);
}

#[test]
fn read_to_chunk_pads_at_the_end() {
    let source = [1u8, 2, 3, 4, 5, 6];
    let mut position = 4;
    let mut chunk: Chunk = [9; 4];
    assert!(read_to_chunk(&source, &mut position, &mut chunk));
    assert_eq!(chunk, [5, 6, 0, 0]);
    assert_eq!(position, 6);
    assert!(read_to_chunk(&source, &mut position, &mut chunk));
    assert_eq!(chunk, [0, 0, 0, 0]);
    assert_eq!(position, 6);
}

#[test]
fn read_to_chunk_behind_the_end() {
    let source = [1u8, 2];
    let mut position = 7;
    let mut chunk: Chunk = [9; 4];
    assert!(read_to_chunk(&source, &mut position, &mut chunk));
    assert_eq!(chunk, [0, 0, 0, 0]);
    assert_eq!(position, 7);
}

#[test]
fn read_to_chunk_exactly_to_the_end() {
    let source = [1u8, 2, 3, 4];
    let mut position = 0;
    let mut chunk: Chunk = [9; 4];
    assert!(!read_to_chunk(&source, &mut position, &mut chunk));
    assert_eq!(chunk, [1, 2, 3, 4]);
    assert_eq!(position, 4);
}

#[test]
fn read_to_chunks_skips_the_parity_slot() {
    let source: Vec<u8> = (1..=20).collect();
    let mut chunks: Vec<Chunk> = vec![[0xaa; 4]; 3];
    let mut position = 0;
    assert!(!read_to_chunks(&source, &mut position, &mut chunks, 1));
    assert_eq!(chunks, vec![[1, 2, 3, 4], [0xaa; 4], [5, 6, 7, 8]]);
    assert_eq!(position, 8);
    assert!(!read_to_chunks(&source, &mut position, &mut chunks, 2));
    assert_eq!(chunks, vec![[9, 10, 11, 12], [13, 14, 15, 16], [5, 6, 7, 8]]);
    assert_eq!(position, 16);
    assert!(read_to_chunks(&source, &mut position, &mut chunks, 0));
    assert_eq!(chunks, vec![[9, 10, 11, 12], [17, 18, 19, 20], [0, 0, 0, 0]]);
    assert_eq!(position, 20);
}

#[test]
fn read_to_chunks_meets_the_end_in_the_last_chunk() {
    let source = [1u8, 2, 3, 4, 5, 6];
    let mut chunks: Vec<Chunk> = vec![[0xaa; 4]; 3];
    let mut position = 0;
    assert!(read_to_chunks(&source, &mut position, &mut chunks, 0));
    assert_eq!(chunks, vec![[0xaa; 4], [1, 2, 3, 4], [5, 6, 0, 0]]);
    assert_eq!(position, 6);
}

#[test]
fn read_to_chunks_without_parity_slot_fills_all() {
    let source = [1u8, 2, 3, 4, 5, 6, 7, 8];
    let mut chunks: Vec<Chunk> = vec![[0xaa; 4]; 2];
    let mut position = 0;
    assert!(!read_to_chunks(&source, &mut position, &mut chunks, 2));
    assert_eq!(chunks, vec![[1, 2, 3, 4], [5, 6, 7, 8]]);
    assert_eq!(position, 8);
}

#[test]
fn split_refuses_fewer_than_two_disks() {
    assert_eq!(split(&[1, 2, 3], 0), Err(Error::TooFewDisks));
    assert_eq!(split(&[1, 2, 3], 1), Err(Error::TooFewDisks));
    assert!(split(&[1, 2, 3], 2).is_ok());
}

#[test]
fn split_on_two_disks_mirrors() {
    let images = split(&[1, 2, 3, 4, 5, 6], 2).unwrap();
    assert_eq!(
        images,
        vec![
            vec![6, 0, 0, 0, 0, 0, 0, 0, 1, 2, 3, 4, 5, 6, 0, 0],
            vec![6, 0, 0, 0, 0, 0, 0, 0, 1, 2, 3, 4, 5, 6, 0, 0],
        ]
    );
}

#[test]
fn split_ends_with_the_stripe_in_which_the_source_ends() {
    // Three disks carry eight source bytes a stripe.
    for (len, stripes) in [(0, 1), (1, 1), (6, 1), (7, 1), (8, 2), (9, 2), (15, 2), (16, 3)] {
        let source = vec![0x5au8; len];
        let images = split(&source, 3).unwrap();
        for image in images {
            assert_eq!(image.len(), HEADER_SIZE + stripes * CHUNK_SIZE);
        }
    }
}

#[test]
fn split_rotates_parity_over_four_disks() {
    let source: Vec<u8> = (1..=30).collect();
    let images = split(&source, 4).unwrap();
    let header = vec![30u8, 0, 0, 0, 0, 0, 0, 0];
    let chunk = |from: u8| -> Vec<u8> {
        (from..from + 4).map(|b| if b <= 30 { b } else { 0 }).collect()
    };
    let xor3 = |a: &[u8], b: &[u8], c: &[u8]| -> Vec<u8> {
        (0..4).map(|i| a[i] ^ b[i] ^ c[i]).collect()
    };
    let expect = |parts: Vec<Vec<u8>>| -> Vec<u8> {
        let mut image = header.clone();
        for part in parts {
            image.extend(part);
        }
        image
    };
    let parity_a = xor3(&chunk(1), &chunk(5), &chunk(9));
    let parity_b = xor3(&chunk(13), &chunk(17), &chunk(21));
    let parity_c = xor3(&chunk(25), &chunk(29), &[0, 0, 0, 0]);
    assert_eq!(images[0], expect(vec![parity_a, chunk(13), chunk(25)]));
    assert_eq!(images[1], expect(vec![chunk(1), parity_b, chunk(29)]));
    assert_eq!(images[2], expect(vec![chunk(5), chunk(17), parity_c]));
    assert_eq!(images[3], expect(vec![chunk(9), chunk(21), vec![0, 0, 0, 0]]));
}
