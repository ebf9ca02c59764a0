use suffix_array::builder::make_part;
use suffix_array::codec::{from_bytes, to_bytes};
use suffix_array::cursor::make_table;
use suffix_array::error::IndexError;
use suffix_array::merge::{measure_parts, merge_partition, next_eligible};

fn reference_suffix_array(text: &[u8]) -> Vec<u64> {
    let mut positions: Vec<u64> = (0..text.len() as u64).collect();
    positions.sort_by(|a, b| text[*a as usize..].cmp(&text[*b as usize..]));
    positions
}

fn reference_bwt(text: &[u8], table: &[u64]) -> Vec<u8> {
    let n = text.len();
    table.iter().map(|p| text[(*p as usize + n - 1) % n]).collect()
}

fn parts_of(data: &[u8], ranges: &[(u64, u64)], ratio: usize) -> (Vec<Vec<u8>>, Vec<Vec<u8>>) {
    let mut texts = Vec::new();
    let mut tables = Vec::new();
    for (start, end) in ranges {
        texts.push(data[*start as usize..*end as usize].to_vec());
        tables.push(make_part(data, *start, *end, ratio).unwrap());
    }
    (texts, tables)
}

#[test]
fn next_eligible_skips_pointers_at_or_over_the_limit() {
    let table = to_bytes(&[5u64, 3, 1, 0, 4, 2], 2);
    let mut stream = make_table(&table, 0, 2);
    assert_eq!(next_eligible(&mut stream, 6, 3), Some(1));
    assert_eq!(stream.position, 3);
    assert_eq!(next_eligible(&mut stream, 6, 3), Some(0));
    assert_eq!(next_eligible(&mut stream, 6, 3), Some(2));
    assert_eq!(stream.position, 6);
    assert_eq!(next_eligible(&mut stream, 6, 3), None);
}

#[test]
fn next_eligible_stops_at_the_end_boundary() {
    let table = to_bytes(&[5u64, 3, 1, 0, 4, 2], 2);
    let mut stream = make_table(&table, 1, 2);
    assert_eq!(next_eligible(&mut stream, 4, 2), Some(1));
    assert_eq!(next_eligible(&mut stream, 4, 2), Some(0));
    assert_eq!(next_eligible(&mut stream, 4, 2), None);
    let mut behind = make_table(&table, 5, 2);
    assert_eq!(next_eligible(&mut behind, 3, 9), None);
    assert_eq!(behind.position, 5);
}

#[test]
fn measure_parts_gives_real_lengths_and_bases() {
    let texts = vec![b"bananaana".to_vec(), b"ananasxyz".to_vec(), b"xyzw".to_vec()];
    let (lens, bases) = measure_parts(&texts, 3, 2).unwrap();
    assert_eq!(lens, vec![6usize, 6, 4]);
    assert_eq!(bases, vec![0u64, 6, 12]);
}

#[test]
fn measure_parts_refuses_bad_input() {
    let texts = vec![b"bananaana".to_vec(), b"ananas".to_vec()];
    assert_eq!(measure_parts(&texts, 3, 0).err(), Some(IndexError::WidthOutOfRange));
    assert_eq!(measure_parts(&texts, 3, 9).err(), Some(IndexError::WidthOutOfRange));
    assert_eq!(measure_parts(&Vec::new(), 3, 2).err(), Some(IndexError::PartCountMismatch));
    assert_eq!(measure_parts(&texts, 9, 2).err(), Some(IndexError::BadPartLength));
    assert_eq!(measure_parts(&texts, 10, 2).err(), Some(IndexError::BadPartLength));
    assert!(measure_parts(&texts, 8, 2).is_ok());
    let empty_last = vec![b"banana".to_vec(), Vec::new()];
    assert_eq!(measure_parts(&empty_last, 3, 2).err(), Some(IndexError::BadPartLength));
    let long = vec![vec![1u8; 200], vec![2u8; 57]];
    assert_eq!(measure_parts(&long, 0, 1).err(), Some(IndexError::ValueTooWide));
    assert!(measure_parts(&long, 1, 1).is_ok());
}

#[test]
fn bwt_of_banana_with_sentinel() {
    let texts = vec![b"banana$".to_vec()];
    let tables = vec![make_part(b"banana$", 0, 7, 2).unwrap()];
    let segment = merge_partition(&texts, &tables, &vec![0], &vec![7], 10, 2).unwrap();
    assert_eq!(from_bytes(segment.pointers, 2), vec![6u64, 5, 3, 1, 0, 4, 2]);
    assert_eq!(segment.bwt, b"annb$aa".to_vec());
    assert!(!segment.long_match);
}

#[test]
fn long_match_is_reported_at_the_horizon() {
    let texts = vec![b"banana$".to_vec()];
    let tables = vec![make_part(b"banana$", 0, 7, 1).unwrap()];
    let at_three = merge_partition(&texts, &tables, &vec![0], &vec![7], 3, 1).unwrap();
    assert!(at_three.long_match);
    let at_four = merge_partition(&texts, &tables, &vec![0], &vec![7], 4, 1).unwrap();
    assert!(!at_four.long_match);
    assert_eq!(from_bytes(at_four.pointers, 1), vec![6u64, 5, 3, 1, 0, 4, 2]);
}

#[test]
fn a_partition_merges_only_between_its_boundaries() {
    let texts = vec![b"banana$".to_vec()];
    let tables = vec![make_part(b"banana$", 0, 7, 3).unwrap()];
    let segment = merge_partition(&texts, &tables, &vec![2], &vec![5], 10, 3).unwrap();
    assert_eq!(from_bytes(segment.pointers, 3), vec![3u64, 1, 0]);
    assert_eq!(segment.bwt, b"nb$".to_vec());
    let nothing = merge_partition(&texts, &tables, &vec![5], &vec![2], 10, 3).unwrap();
    assert!(nothing.pointers.is_empty());
    assert!(nothing.bwt.is_empty());
    assert!(!nothing.long_match);
}

#[test]
fn merge_of_banana_and_ananas() {
    let data = b"bananaananas";
    let reference = reference_suffix_array(data);
    for hacksize in [3usize, 4, 6] {
        let ranges = [(0u64, 6 + hacksize as u64), (6u64, 12u64)];
        let (texts, tables) = parts_of(data, &ranges, 1);
        let ends = vec![texts[0].len(), texts[1].len()];
        let segment = merge_partition(&texts, &tables, &vec![0, 0], &ends, hacksize, 1).unwrap();
        assert_eq!(from_bytes(segment.pointers, 1), reference);
        assert_eq!(segment.bwt, reference_bwt(data, &reference));
    }
}

#[test]
fn no_pointer_into_the_overlap_is_emitted() {
    let data = b"bananaananas";
    let ranges = [(0u64, 9u64), (6u64, 12u64)];
    let (texts, tables) = parts_of(data, &ranges, 2);
    assert_eq!(from_bytes(tables[0].clone(), 2).len(), 9);
    let segment = merge_partition(&texts, &tables, &vec![0, 0], &vec![9, 6], 3, 2).unwrap();
    let merged = from_bytes(segment.pointers, 2);
    assert_eq!(merged.len(), 12);
    let mut seen = vec![false; 12];
    for p in merged {
        assert!(p < 12);
        assert!(!seen[p as usize]);
        seen[p as usize] = true;
    }
}

#[test]
fn bwt_wraps_at_the_first_position_of_each_part() {
    let data = b"abcdefgh";
    let ranges = [(0u64, 6u64), (4u64, 8u64)];
    let (texts, tables) = parts_of(data, &ranges, 1);
    let segment = merge_partition(&texts, &tables, &vec![0, 0], &vec![6, 4], 2, 1).unwrap();
    assert_eq!(from_bytes(segment.pointers, 1), vec![0u64, 1, 2, 3, 4, 5, 6, 7]);
    assert_eq!(segment.bwt, b"habcdefg".to_vec());
}

#[test]
fn merge_refuses_bad_input() {
    let data = b"bananaananas";
    let ranges = [(0u64, 9u64), (6u64, 12u64)];
    let (texts, tables) = parts_of(data, &ranges, 1);
    let starts = vec![0usize, 0];
    let ends = vec![9usize, 6];
    assert!(merge_partition(&texts, &tables, &starts, &ends, 3, 1).is_ok());
    assert_eq!(
        merge_partition(&texts, &tables, &starts, &ends, 3, 0).err(),
        Some(IndexError::WidthOutOfRange)
    );
    assert_eq!(
        merge_partition(&Vec::new(), &Vec::new(), &Vec::new(), &Vec::new(), 3, 1).err(),
        Some(IndexError::PartCountMismatch)
    );
    assert_eq!(
        merge_partition(&texts, &tables[..1].to_vec(), &starts, &ends, 3, 1).err(),
        Some(IndexError::PartCountMismatch)
    );
    assert_eq!(
        merge_partition(&texts, &tables, &vec![0], &ends, 3, 1).err(),
        Some(IndexError::PartCountMismatch)
    );
    assert_eq!(
        merge_partition(&texts, &tables, &starts, &vec![9, 6, 0], 3, 1).err(),
        Some(IndexError::PartCountMismatch)
    );
    assert_eq!(
        merge_partition(&texts, &tables, &starts, &ends, 9, 1).err(),
        Some(IndexError::BadPartLength)
    );
    assert_eq!(
        merge_partition(&texts, &tables, &starts, &vec![10, 6], 3, 1).err(),
        Some(IndexError::BadBoundary)
    );
    assert_eq!(
        merge_partition(&texts, &tables, &starts, &vec![9, 7], 3, 1).err(),
        Some(IndexError::BadBoundary)
    );
}

#[test]
fn merge_refuses_a_width_too_narrow_for_the_dataset() {
    let data: Vec<u8> = (0..300u32).map(|i| (i % 251) as u8).collect();
    let texts = vec![data[..200].to_vec(), data[150..].to_vec()];
    let tables = vec![make_part(&data, 0, 200, 2).unwrap(), make_part(&data, 150, 300, 2).unwrap()];
    assert_eq!(
        merge_partition(&texts, &tables, &vec![0, 0], &vec![200, 150], 50, 1).err(),
        Some(IndexError::ValueTooWide)
    );
    assert!(merge_partition(&texts, &tables, &vec![0, 0], &vec![200, 150], 50, 2).is_ok());
}
