use suffix_array::builder::make_part;
use suffix_array::codec::from_bytes;
use suffix_array::stitch::{stitch, segment_offsets};
use suffix_array::names::{order_by_start, parse_part_name, part_name};
use suffix_array::pipeline::{load_text, merge_all};

fn noise(len: usize, seed: u64) -> Vec<u8> {
    let mut state = seed;
    let mut out = Vec::with_capacity(len);
    for _ in 0..len {
        state = state.wrapping_mul(6364136223846793005).wrapping_add(1442695040888963407);
        out.push((state >> 33) as u8);
    }
    out
}

fn reference_suffix_array(text: &[u8]) -> Vec<u64> {
    let mut positions: Vec<u64> = (0..text.len() as u64).collect();
    positions.sort_by(|a, b| text[*a as usize..].cmp(&text[*b as usize..]));
    positions
}

fn reference_bwt(text: &[u8], table: &[u64]) -> Vec<u8> {
    let n = text.len();
    table.iter().map(|p| text[(*p as usize + n - 1) % n]).collect()
}

fn overlapping_ranges(len: u64, parts: u64, hacksize: u64) -> Vec<(u64, u64)> {
    let step = len / parts;
    (0..parts)
        .map(|i| {
            let end = if i + 1 == parts { len } else { (i + 1) * step + hacksize };
            (i * step, end)
        })
        .collect()
}

fn build_everything(
    data: &[u8],
    parts: u64,
    hacksize: usize,
    threads: usize,
    ratio: usize,
) -> (usize, Vec<u8>, Vec<u8>) {
    let ranges = overlapping_ranges(data.len() as u64, parts, hacksize as u64);
    let mut texts = Vec::new();
    let mut tables = Vec::new();
    for (start, end) in &ranges {
        texts.push(load_text(data, *start, *end).unwrap());
        tables.push(make_part(data, *start, *end, ratio).unwrap());
    }
    let segments = merge_all(&texts, &tables, threads, hacksize, ratio).unwrap();
    let count = segments.len();
    let mut pointers = Vec::new();
    let mut letters = Vec::new();
    for segment in segments {
        pointers.push(segment.pointers);
        letters.push(segment.bwt);
    }
    let files = stitch(data.len() as u64, ratio, &pointers, &letters).unwrap();
    (count, files.index, files.bwt)
}

#[test]
fn thousand_bytes_in_four_parts() {
    let data = noise(1000, 42);
    let (count, index, bwt) = build_everything(&data, 4, 50, 3, 2);
    assert_eq!(count, 1);
    let reference = reference_suffix_array(&data);
    assert_eq!(index.len(), 9 + 2000);
    assert_eq!(&index[..8], &(8000u64).to_le_bytes()[..]);
    assert_eq!(index[8], 16);
    assert_eq!(from_bytes(index[9..2009].to_vec(), 2), reference);
    assert_eq!(bwt.len(), 8 + 1000);
    assert_eq!(&bwt[..8], &(8000u64).to_le_bytes()[..]);
    assert_eq!(&bwt[8..1008], &reference_bwt(&data, &reference)[..]);
}

#[test]
fn several_partitions_give_the_same_index_as_one() {
    let data = noise(5003, 99);
    let reference = reference_suffix_array(&data);
    for threads in [1usize, 2, 3, 7] {
        let (count, index, bwt) = build_everything(&data, 3, 60, threads, 3);
        assert_eq!(count, threads);
        assert_eq!(index.len(), 9 + 15009 + 7);
        assert_eq!(from_bytes(index[9..9 + 15009].to_vec(), 3), reference);
        assert_eq!(&index[9 + 15009..], &[0u8; 7][..]);
        assert_eq!(bwt.len(), 8 + 5003 + 5);
        assert_eq!(&bwt[8..5011], &reference_bwt(&data, &reference)[..]);
        assert_eq!(&bwt[5011..], &[0u8; 5][..]);
    }
}

#[test]
fn partitions_write_disjoint_positions() {
    let data = noise(4000, 5);
    let ranges = overlapping_ranges(4000, 2, 50);
    let mut texts = Vec::new();
    let mut tables = Vec::new();
    for (start, end) in &ranges {
        texts.push(load_text(&data, *start, *end).unwrap());
        tables.push(make_part(&data, *start, *end, 2).unwrap());
    }
    let segments = merge_all(&texts, &tables, 4, 50, 2).unwrap();
    assert_eq!(segments.len(), 4);
    let mut seen = vec![false; 4000];
    let mut sizes = Vec::new();
    for segment in &segments {
        sizes.push(segment.pointers.len() as u64);
        assert_eq!(segment.pointers.len(), 2 * segment.bwt.len());
        for p in from_bytes(segment.pointers.clone(), 2) {
            assert!(!seen[p as usize]);
            seen[p as usize] = true;
        }
    }
    assert!(seen.iter().all(|s| *s));
    let offsets = segment_offsets(&sizes, 2).unwrap();
    assert_eq!(offsets[0], 0);
    for k in 0..3 {
        assert_eq!(offsets[k] + sizes[k] / 2, offsets[k + 1]);
    }
    assert_eq!(offsets[3] + sizes[3] / 2, 4000);
}

#[test]
fn part_files_are_found_again_by_their_names() {
    let ranges = overlapping_ranges(1000, 4, 50);
    let names: Vec<Vec<u8>> = ranges.iter().rev().map(|(s, e)| part_name(*s, *e)).collect();
    let parsed: Vec<(u64, u64)> = names.iter().map(|n| parse_part_name(n).unwrap()).collect();
    let order = order_by_start(&parsed);
    assert_eq!(order, vec![3usize, 2, 1, 0]);
    let sorted: Vec<(u64, u64)> = order.iter().map(|i| parsed[*i]).collect();
    assert_eq!(sorted, ranges);
}

#[test]
fn load_text_cuts_the_range() {
    assert_eq!(load_text(b"banana", 1, 4), Ok(b"ana".to_vec()));
    assert_eq!(load_text(b"banana", 0, 6), Ok(b"banana".to_vec()));
    assert!(load_text(b"banana", 2, 2).is_err());
    assert!(load_text(b"banana", 3, 2).is_err());
    assert!(load_text(b"banana", 0, 7).is_err());
}
