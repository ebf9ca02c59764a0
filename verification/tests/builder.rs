use suffix_array::builder::{build_suffix_array, make_part};
use suffix_array::codec::{from_bytes, to_bytes};
use suffix_array::error::IndexError;

fn reference_suffix_array(text: &[u8]) -> Vec<u64> {
    let mut positions: Vec<u64> = (0..text.len() as u64).collect();
    positions.sort_by(|a, b| text[*a as usize..].cmp(&text[*b as usize..]));
    positions
}

fn noise(len: usize, seed: u64, letters: u64) -> Vec<u8> {
    let mut state = seed;
    let mut out = Vec::with_capacity(len);
    for _ in 0..len {
        state = state.wrapping_mul(6364136223846793005).wrapping_add(1442695040888963407);
        out.push(((state >> 33) % letters) as u8);
    }
    out
}

#[test]
fn suffix_array_of_banana() {
    assert_eq!(build_suffix_array(b"banana"), vec![5u64, 3, 1, 0, 4, 2]);
}

#[test]
fn suffix_array_of_banana_with_sentinel() {
    assert_eq!(build_suffix_array(b"banana$"), vec![6u64, 5, 3, 1, 0, 4, 2]);
}

#[test]
fn suffix_array_of_small_texts() {
    assert_eq!(build_suffix_array(b""), Vec::<u64>::new());
    assert_eq!(build_suffix_array(b"x"), vec![0u64]);
    assert_eq!(build_suffix_array(b"aaaa"), vec![3u64, 2, 1, 0]);
    assert_eq!(build_suffix_array(b"abcd"), vec![0u64, 1, 2, 3]);
    assert_eq!(build_suffix_array(b"dcba"), vec![3u64, 2, 1, 0]);
}

#[test]
fn suffixes_come_out_sorted() {
    let text = noise(400, 7, 3);
    let table = build_suffix_array(&text);
    assert_eq!(table.len(), text.len());
    for i in 1..table.len() {
        let a = &text[table[i - 1] as usize..];
        let b = &text[table[i] as usize..];
        assert!(a < b);
    }
    let mut seen = vec![false; text.len()];
    for p in &table {
        assert!(!seen[*p as usize]);
        seen[*p as usize] = true;
    }
}

#[test]
fn suffix_array_matches_a_plain_sort() {
    for (len, seed, letters) in [(1usize, 1u64, 2u64), (50, 2, 2), (300, 3, 4), (300, 4, 256)] {
        let text = noise(len, seed, letters);
        assert_eq!(build_suffix_array(&text), reference_suffix_array(&text));
    }
}

#[test]
fn make_part_encodes_the_suffix_array_of_the_range() {
    let data = b"xxbananayy";
    let table = make_part(data, 2, 8, 3).unwrap();
    assert_eq!(table, to_bytes(&[5u64, 3, 1, 0, 4, 2], 3));
    assert_eq!(from_bytes(table, 3), vec![5u64, 3, 1, 0, 4, 2]);
}

#[test]
fn make_part_of_the_whole_data() {
    let data = noise(256, 11, 5);
    let table = make_part(&data, 0, 256, 1).unwrap();
    assert_eq!(from_bytes(table, 1), reference_suffix_array(&data));
}

#[test]
fn make_part_refuses_a_bad_range() {
    let data = b"banana";
    assert_eq!(make_part(data, 3, 3, 2), Err(IndexError::BadRange));
    assert_eq!(make_part(data, 4, 3, 2), Err(IndexError::BadRange));
    assert_eq!(make_part(data, 0, 7, 2), Err(IndexError::BadRange));
    assert_eq!(make_part(data, 6, 7, 2), Err(IndexError::BadRange));
}

#[test]
fn make_part_refuses_a_bad_width() {
    let data = b"banana";
    assert_eq!(make_part(data, 0, 6, 0), Err(IndexError::WidthOutOfRange));
    assert_eq!(make_part(data, 0, 6, 9), Err(IndexError::WidthOutOfRange));
    assert_eq!(make_part(data, 4, 3, 9), Err(IndexError::WidthOutOfRange));
}

#[test]
fn make_part_refuses_a_width_too_narrow() {
    let data = noise(257, 5, 7);
    assert_eq!(make_part(&data, 0, 257, 1), Err(IndexError::ValueTooWide));
    assert!(make_part(&data, 0, 256, 1).is_ok());
    assert!(make_part(&data, 1, 257, 1).is_ok());
    assert!(make_part(&data, 0, 257, 2).is_ok());
}
