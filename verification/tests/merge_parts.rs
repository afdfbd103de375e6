use raiden::merge::{
    length_inconsistency_error, open_disk, open_disks, read_chunks_from_disks,
    write_chunks_to_file,
};
use raiden::{merge, split, Chunk, Error};

fn image(length: u64, data: &[u8]) -> Vec<u8> {
    let mut bytes = length.to_le_bytes().to_vec();
    bytes.extend_from_slice(data);
    bytes
}

#[test]
fn length_inconsistency_error_names_both_lengths() {
    assert_eq!(
        length_inconsistency_error(7, 9),
        Error::LengthInconsistency {
            found: 7,
            expected: 9
        }
    );
}

#[test]
fn error_descriptions() {
    assert_eq!(Error::TooFewDisks.description(), "At least two disks are required");
    assert_eq!(
        length_inconsistency_error(1, 2).description(),
        "File length inconsistency"
    );
    assert_eq!(Error::TooManyMissingDisks.description(), "Too Many missing disks");
    assert_eq!(Error::NoDisksAvailable.description(), "Could not load any disks");
    assert_eq!(
        Error::PartialChunk {
            disk: 1,
            bytes_read: 2
        }
        .description(),
        "Read a partial chunk"
    );
}

#[test]
fn open_disk_reads_header_and_hands_out_data() {
    let disk = Some(image(0x0a0b, &[1, 2, 3, 4, 5]));
    let (data, length) = open_disk(&disk).unwrap();
    assert_eq!(length, 0x0a0b);
    assert_eq!(data, &[1, 2, 3, 4, 5]);
}

#[test]
fn open_disk_with_bare_header() {
    let disk = Some(image(u64::MAX, &[]));
    let (data, length) = open_disk(&disk).unwrap();
    assert_eq!(length, u64::MAX);
    assert!(data.is_empty());
}

#[test]
fn open_disk_fails_without_whole_header() {
    assert_eq!(open_disk(&None), None);
    assert_eq!(open_disk(&Some(vec![])), None);
    assert_eq!(open_disk(&Some(vec![1, 2, 3, 4, 5, 6, 7])), None);
}

#[test]
fn open_disks_with_all_present() {
    let images = vec![Some(image(5, &[1, 2, 3, 4])), Some(image(5, &[9, 8, 7, 6]))];
    let array = open_disks(&images).unwrap();
    assert_eq!(array.file_length, 5);
    assert_eq!(array.missing_disk, None);
    assert_eq!(
        array.disks,
        vec![Some(&[1u8, 2, 3, 4][..]), Some(&[9u8, 8, 7, 6][..])]
    );
}

#[test]
fn open_disks_with_one_missing() {
    let images = vec![
        Some(image(5, &[1, 2, 3, 4])),
        Some(vec![5, 0, 0]),
        Some(image(5, &[9, 8, 7, 6])),
    ];
    let array = open_disks(&images).unwrap();
    assert_eq!(array.file_length, 5);
    assert_eq!(array.missing_disk, Some(1));
    assert_eq!(
        array.disks,
        vec![Some(&[1u8, 2, 3, 4][..]), None, Some(&[9u8, 8, 7, 6][..])]
    );
}

#[test]
fn open_disks_with_first_missing() {
    let images = vec![None, Some(image(3, &[]))];
    let array = open_disks(&images).unwrap();
    assert_eq!(array.file_length, 3);
    assert_eq!(array.missing_disk, Some(0));
    assert_eq!(array.disks, vec![None, Some(&[][..])]);
}

#[test]
fn open_disks_errors() {
    assert_eq!(open_disks(&vec![]), Err(Error::NoDisksAvailable));
    assert_eq!(open_disks(&vec![None]), Err(Error::NoDisksAvailable));
    assert_eq!(open_disks(&vec![None, None]), Err(Error::TooManyMissingDisks));
    assert_eq!(
        open_disks(&vec![Some(image(1, &[])), None, Some(image(1, &[])), None]),
        Err(Error::TooManyMissingDisks)
    );
    assert_eq!(
        open_disks(&vec![Some(image(1, &[])), Some(image(2, &[])), Some(image(3, &[]))]),
        Err(Error::LengthInconsistency {
            found: 2,
            expected: 1
        })
    );
}

#[test]
fn open_disks_reports_what_comes_first() {
    assert_eq!(
        open_disks(&vec![None, Some(image(1, &[])), Some(image(2, &[])), None]),
        Err(Error::LengthInconsistency {
            found: 2,
            expected: 1
        })
    );
    assert_eq!(
        open_disks(&vec![None, Some(image(1, &[])), None, Some(image(2, &[]))]),
        Err(Error::TooManyMissingDisks)
    );
}

#[test]
fn read_chunks_from_disks_reads_present_disks() {
    let a = [1u8, 2, 3, 4, 5, 6, 7, 8];
    let c = [11u8, 12, 13, 14, 15, 16, 17, 18, 19];
    let disks = vec![Some(&a[..]), None, Some(&c[..])];
    let mut chunks: Vec<Chunk> = vec![[0; 4], [0xee; 4], [0; 4]];
    assert_eq!(read_chunks_from_disks(&mut chunks, &disks, 0), Ok(()));
    assert_eq!(chunks, vec![[1, 2, 3, 4], [0xee; 4], [11, 12, 13, 14]]);
    assert_eq!(read_chunks_from_disks(&mut chunks, &disks, 4), Ok(()));
    assert_eq!(chunks, vec![[5, 6, 7, 8], [0xee; 4], [15, 16, 17, 18]]);
}

#[test]
fn read_chunks_from_disks_fails_on_short_disk() {
    let a = [1u8, 2, 3, 4, 5, 6, 7, 8];
    let b = [21u8, 22, 23, 24, 25, 26];
    let c = [11u8, 12, 13, 14];
    let disks = vec![Some(&a[..]), Some(&b[..]), Some(&c[..])];
    let mut chunks: Vec<Chunk> = vec![[0; 4]; 3];
    assert_eq!(
        read_chunks_from_disks(&mut chunks, &disks, 4),
        Err(Error::PartialChunk {
            disk: 1,
            bytes_read: 2
        })
    );
    assert_eq!(chunks, vec![[5, 6, 7, 8], [0; 4], [0; 4]]);
    assert_eq!(
        read_chunks_from_disks(&mut chunks, &disks, 8),
        Err(Error::PartialChunk {
            disk: 0,
            bytes_read: 0
        })
    );
    assert_eq!(
        read_chunks_from_disks(&mut chunks, &disks, usize::MAX),
        Err(Error::PartialChunk {
            disk: 0,
            bytes_read: 0
        })
    );
}

#[test]
fn write_chunks_to_file_skips_parity() {
    let chunks: Vec<Chunk> = vec![[1, 2, 3, 4], [5, 6, 7, 8], [9, 10, 11, 12]];
    let mut file = vec![0xffu8];
    assert_eq!(write_chunks_to_file(&mut file, &chunks, 1, 100), 92);
    assert_eq!(file, vec![0xff, 1, 2, 3, 4, 9, 10, 11, 12]);
}

#[test]
fn write_chunks_to_file_stops_when_nothing_remains() {
    let chunks: Vec<Chunk> = vec![[1, 2, 3, 4], [5, 6, 7, 8], [9, 10, 11, 12]];
    let mut file = vec![];
    assert_eq!(write_chunks_to_file(&mut file, &chunks, 0, 6), 0);
    assert_eq!(file, vec![5, 6, 7, 8, 9, 10]);
    let mut exact = vec![];
    assert_eq!(write_chunks_to_file(&mut exact, &chunks, 2, 4), 0);
    assert_eq!(exact, vec![1, 2, 3, 4]);
    let mut whole = vec![];
    assert_eq!(write_chunks_to_file(&mut whole, &chunks, 2, 8), 0);
    assert_eq!(whole, vec![1, 2, 3, 4, 5, 6, 7, 8]);
    let mut nothing = vec![7u8];
    assert_eq!(write_chunks_to_file(&mut nothing, &chunks, 0, 0), 0);
    assert_eq!(nothing, vec![7]);
}

#[test]
fn write_chunks_to_file_without_parity_slot_writes_all() {
    let chunks: Vec<Chunk> = vec![[1, 2, 3, 4], [5, 6, 7, 8]];
    let mut file = vec![];
    assert_eq!(write_chunks_to_file(&mut file, &chunks, 2, 9), 1);
    assert_eq!(file, vec![1, 2, 3, 4, 5, 6, 7, 8]);
}

#[test]
fn merge_of_no_images() {
    assert_eq!(merge(&vec![]), Err(Error::NoDisksAvailable));
    assert_eq!(merge(&vec![None]), Err(Error::NoDisksAvailable));
}

#[test]
fn merge_fails_on_truncated_disk() {
    let source: Vec<u8> = (0..40).collect();
    let images = split(&source, 3).unwrap();
    // Five stripes of eight bytes are needed; disk 1 ends within the fourth.
    let mut disks: Vec<Option<Vec<u8>>> = images.iter().cloned().map(Some).collect();
    disks[1] = Some(images[1][..8 + 3 * 4 + 3].to_vec());
    assert_eq!(
        merge(&disks),
        Err(Error::PartialChunk {
            disk: 1,
            bytes_read: 3
        })
    );
    disks[2] = Some(images[2][..8 + 3 * 4].to_vec());
    assert_eq!(
        merge(&disks),
        Err(Error::PartialChunk {
            disk: 1,
            bytes_read: 3
        })
    );
    disks[2] = Some(images[2][..8 + 2 * 4 + 1].to_vec());
    assert_eq!(
        merge(&disks),
        Err(Error::PartialChunk {
            disk: 2,
            bytes_read: 1
        })
    );
}

#[test]
fn merge_does_not_need_the_stripe_behind_the_source() {
    let source: Vec<u8> = (0..16).collect();
    let images = split(&source, 3).unwrap();
    assert_eq!(images[0].len(), 8 + 3 * 4);
    let disks: Vec<Option<Vec<u8>>> =
        images.iter().map(|image| Some(image[..8 + 2 * 4].to_vec())).collect();
    assert_eq!(merge(&disks), Ok(source));
}

#[test]
fn merge_ignores_the_stale_slot_of_a_lost_parity_disk() {
    // With disk 0 lost, stripe 0 needs no rebuilding and stripe 1 does.
    let source: Vec<u8> = (100..116).collect();
    let images = split(&source, 3).unwrap();
    let disks = vec![None, Some(images[1].clone()), Some(images[2].clone())];
    assert_eq!(merge(&disks), Ok(source));
}

#[test]
fn merge_with_header_of_zero_restores_nothing() {
    let disks = vec![Some(image(0, &[])), Some(image(0, &[1, 2, 3]))];
    assert_eq!(merge(&disks), Ok(vec![]));
}

#[test]
fn merge_of_a_single_disk_restores_nothing() {
    assert_eq!(merge(&vec![Some(image(0, &[1, 2, 3, 4]))]), Ok(vec![]));
    assert_eq!(
        merge(&vec![Some(image(2, &[1, 2, 3, 4, 5]))]),
        Err(Error::PartialChunk {
            disk: 0,
            bytes_read: 1
        })
    );
}

#[test]
fn merge_on_two_disks_reads_either_copy() {
    let source = vec![1u8, 2, 3, 4, 5];
    let images = split(&source, 2).unwrap();
    assert_eq!(merge(&vec![Some(images[0].clone()), None]), Ok(source.clone()));
    assert_eq!(merge(&vec![None, Some(images[1].clone())]), Ok(source));
}

#[test]
fn read_chunks_from_disks_leaves_slots_without_disk() {
    let a = [1u8, 2, 3, 4];
    let disks = vec![Some(&a[..])];
    let mut chunks: Vec<Chunk> = vec![[0; 4], [7; 4]];
    assert_eq!(read_chunks_from_disks(&mut chunks, &disks, 0), Ok(()));
    assert_eq!(chunks, vec![[1, 2, 3, 4], [7; 4]]);
}
