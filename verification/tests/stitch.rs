use suffix_array::stitch::{
    append_bytes, append_padding, bwt_file_len, dataset_size, index_file_len, segment_offsets,
    stitch, write_bwt_header, write_index_header,
};
use suffix_array::error::IndexError;

#[test]
fn dataset_size_is_an_eighth_of_the_header() {
    let mut data = (800u64).to_le_bytes().to_vec();
    data.extend_from_slice(b"rest");
    assert_eq!(dataset_size(&data), Ok(100));
    assert_eq!(dataset_size(&(807u64).to_le_bytes()), Ok(100));
    assert_eq!(dataset_size(&[0xffu8; 8]), Ok(u64::MAX / 8));
    assert_eq!(dataset_size(&[0u8; 7]), Err(IndexError::BadRange));
    assert_eq!(dataset_size(&[]), Err(IndexError::BadRange));
}

#[test]
fn index_file_len_adds_header_and_padding() {
    assert_eq!(index_file_len(0, 5), Ok(9));
    assert_eq!(index_file_len(5, 3), Ok(25));
    assert_eq!(index_file_len(8, 3), Ok(33));
    assert_eq!(index_file_len(1000, 5), Ok(5009));
    assert_eq!(index_file_len(1, 1), Ok(17));
    assert_eq!(index_file_len(1, 0), Err(IndexError::WidthOutOfRange));
    assert_eq!(index_file_len(1, 9), Err(IndexError::WidthOutOfRange));
    assert_eq!(index_file_len(u64::MAX, 1), Err(IndexError::ValueTooWide));
    assert_eq!(index_file_len(u64::MAX / 2, 8), Err(IndexError::ValueTooWide));
}

#[test]
fn bwt_file_len_adds_header_and_padding() {
    assert_eq!(bwt_file_len(0), Ok(8));
    assert_eq!(bwt_file_len(5), Ok(16));
    assert_eq!(bwt_file_len(8), Ok(16));
    assert_eq!(bwt_file_len(1000), Ok(1008));
    assert_eq!(bwt_file_len(1001), Ok(1016));
    assert_eq!(bwt_file_len(u64::MAX), Err(IndexError::ValueTooWide));
    assert_eq!(bwt_file_len(u64::MAX - 15), Ok(u64::MAX - 7));
}

#[test]
fn segment_offsets_are_running_counts() {
    assert_eq!(segment_offsets(&vec![6u64, 9, 3], 3), Ok(vec![0u64, 2, 5]));
    assert_eq!(segment_offsets(&vec![0u64, 8, 0, 16], 8), Ok(vec![0u64, 0, 1, 1]));
    assert_eq!(segment_offsets(&Vec::new(), 4), Ok(Vec::new()));
}

#[test]
fn segment_offsets_refuse_bad_input() {
    assert_eq!(segment_offsets(&vec![6u64], 0), Err(IndexError::WidthOutOfRange));
    assert_eq!(segment_offsets(&vec![6u64], 9), Err(IndexError::WidthOutOfRange));
    assert_eq!(segment_offsets(&vec![6u64, 7], 3), Err(IndexError::RaggedTable));
    assert_eq!(
        segment_offsets(&vec![u64::MAX, u64::MAX, 5], 1),
        Err(IndexError::ValueTooWide)
    );
    assert_eq!(segment_offsets(&vec![u64::MAX, 0], 1), Ok(vec![0u64, u64::MAX]));
}

#[test]
fn append_helpers_append() {
    let mut out = vec![1u8, 2];
    append_bytes(&mut out, &[3, 4, 5]);
    append_bytes(&mut out, &[]);
    assert_eq!(out, vec![1u8, 2, 3, 4, 5]);
    append_padding(&mut out, 13);
    assert_eq!(out, vec![1u8, 2, 3, 4, 5, 0, 0, 0]);
    append_padding(&mut out, 16);
    assert_eq!(out.len(), 8);
    append_padding(&mut out, 1);
    assert_eq!(out.len(), 15);
}

#[test]
fn stitch_lays_out_both_files() {
    let pointers = vec![vec![1u8, 0, 0, 2, 0, 0], vec![], vec![0u8, 0, 0]];
    let letters = vec![vec![b'x', b'y'], vec![], vec![b'z']];
    let files = stitch(3, 3, &pointers, &letters).unwrap();
    let mut index = (24u64).to_le_bytes().to_vec();
    index.push(24);
    index.extend_from_slice(&[1, 0, 0, 2, 0, 0, 0, 0, 0]);
    index.extend_from_slice(&[0u8; 7]);
    assert_eq!(files.index, index);
    assert_eq!(files.index.len() as u64, index_file_len(3, 3).unwrap());
    let mut bwt = (24u64).to_le_bytes().to_vec();
    bwt.extend_from_slice(b"xyz");
    bwt.extend_from_slice(&[0u8; 5]);
    assert_eq!(files.bwt, bwt);
    assert_eq!(files.bwt.len() as u64, bwt_file_len(3).unwrap());
}

#[test]
fn stitch_of_nothing_is_two_headers() {
    let files = stitch(0, 8, &Vec::new(), &Vec::new()).unwrap();
    assert_eq!(files.index, vec![0u8, 0, 0, 0, 0, 0, 0, 0, 64]);
    assert_eq!(files.bwt, vec![0u8; 8]);
}

#[test]
fn stitch_needs_no_padding_on_a_multiple_of_eight() {
    let pointers = vec![vec![7u8; 8]];
    let letters = vec![vec![9u8; 8]];
    let files = stitch(8, 1, &pointers, &letters).unwrap();
    assert_eq!(files.index.len(), 17);
    assert_eq!(files.index[8], 8);
    assert_eq!(&files.index[9..], &[7u8; 8][..]);
    assert_eq!(files.bwt.len(), 16);
    assert_eq!(&files.bwt[..8], &(64u64).to_le_bytes()[..]);
}

#[test]
fn stitch_refuses_bad_input() {
    let pointers = vec![vec![1u8, 0, 2, 0]];
    let letters = vec![vec![b'x', b'y']];
    assert!(stitch(2, 2, &pointers, &letters).is_ok());
    assert_eq!(stitch(2, 0, &pointers, &letters).err(), Some(IndexError::WidthOutOfRange));
    assert_eq!(stitch(2, 9, &pointers, &letters).err(), Some(IndexError::WidthOutOfRange));
    assert_eq!(
        stitch(u64::MAX / 8 + 1, 2, &pointers, &letters).err(),
        Some(IndexError::ValueTooWide)
    );
    assert_eq!(
        stitch(2, 2, &pointers, &Vec::new()).err(),
        Some(IndexError::PartCountMismatch)
    );
    assert_eq!(stitch(2, 3, &pointers, &letters).err(), Some(IndexError::RaggedTable));
    assert_eq!(
        stitch(2, 2, &pointers, &vec![vec![b'x']]).err(),
        Some(IndexError::SizeMismatch)
    );
    assert_eq!(stitch(3, 2, &pointers, &letters).err(), Some(IndexError::SizeMismatch));
    assert_eq!(stitch(1, 2, &pointers, &letters).err(), Some(IndexError::SizeMismatch));
}

#[test]
fn headers_hold_eight_times_the_count() {
    assert_eq!(write_index_header(3, 5), Ok(vec![24u8, 0, 0, 0, 0, 0, 0, 0, 40]));
    assert_eq!(write_index_header(0x0102, 8), Ok(vec![0x10u8, 0x08, 0, 0, 0, 0, 0, 0, 64]));
    assert_eq!(write_bwt_header(3), Ok(vec![24u8, 0, 0, 0, 0, 0, 0, 0]));
    assert_eq!(write_bwt_header(u64::MAX / 8), Ok(vec![0xf8u8, 255, 255, 255, 255, 255, 255, 255]));
}

#[test]
fn headers_refuse_what_they_cannot_hold() {
    assert_eq!(write_index_header(3, 0), Err(IndexError::WidthOutOfRange));
    assert_eq!(write_index_header(3, 9), Err(IndexError::WidthOutOfRange));
    assert_eq!(write_index_header(u64::MAX / 8 + 1, 4), Err(IndexError::ValueTooWide));
    assert_eq!(write_bwt_header(u64::MAX / 8 + 1), Err(IndexError::ValueTooWide));
}
