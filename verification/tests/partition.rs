use suffix_array::builder::make_part;
use suffix_array::codec::to_bytes;
use suffix_array::error::IndexError;
use suffix_array::partition::{capped_threads, plan_partitions};

fn noise(len: usize, seed: u64) -> Vec<u8> {
    let mut state = seed;
    let mut out = Vec::with_capacity(len);
    for _ in 0..len {
        state = state.wrapping_mul(6364136223846793005).wrapping_add(1442695040888963407);
        out.push((state >> 33) as u8);
    }
    out
}

fn parts_of(data: &[u8], ranges: &[(u64, u64)], ratio: usize) -> (Vec<Vec<u8>>, Vec<Vec<u8>>) {
    let mut texts = Vec::new();
    let mut tables = Vec::new();
    for (start, end) in ranges {
        texts.push(data[*start as usize..*end as usize].to_vec());
        tables.push(make_part(data, *start, *end, ratio).unwrap());
    }
    (texts, tables)
}

#[test]
fn thread_count_is_capped_by_size() {
    assert_eq!(capped_threads(8, 0), 1);
    assert_eq!(capped_threads(8, 1000), 1);
    assert_eq!(capped_threads(8, 1024), 1);
    assert_eq!(capped_threads(8, 1043), 1);
    assert_eq!(capped_threads(8, 1044), 2);
    assert_eq!(capped_threads(8, 1094), 7);
    assert_eq!(capped_threads(8, 1104), 8);
    assert_eq!(capped_threads(8, 1_000_000), 8);
    assert_eq!(capped_threads(3, 100_000), 3);
    assert_eq!(capped_threads(1, 100_000), 1);
}

#[test]
fn thread_count_of_nothing_requested_is_nothing() {
    assert_eq!(capped_threads(0, 0), 0);
    assert_eq!(capped_threads(0, 5000), 0);
}

#[test]
fn one_partition_covers_every_table() {
    let data = noise(600, 1);
    let (texts, tables) = parts_of(&data, &[(0, 350), (300, 600)], 2);
    let plan = plan_partitions(&texts, &tables, 8, 50, 2).unwrap();
    assert_eq!(plan.len(), 1);
    assert_eq!(plan[0].starts, vec![0usize, 0]);
    assert_eq!(plan[0].ends, vec![350usize, 300]);
}

#[test]
fn partitions_follow_each_other() {
    let data = noise(4000, 2);
    let (texts, tables) = parts_of(&data, &[(0, 2050), (2000, 4000)], 2);
    let plan = plan_partitions(&texts, &tables, 4, 50, 2).unwrap();
    assert_eq!(plan.len(), 4);
    assert_eq!(plan[0].starts, vec![0usize, 0]);
    assert_eq!(plan[0].ends[0], 513);
    assert_eq!(plan[1].ends[0], 1026);
    assert_eq!(plan[2].ends[0], 1539);
    assert_eq!(plan[3].ends, vec![2050usize, 2000]);
    for k in 0..3 {
        assert_eq!(plan[k].ends, plan[k + 1].starts);
        assert!(plan[k].ends[1] <= 2000);
        assert!(plan[k].starts[1] <= plan[k].ends[1]);
    }
}

#[test]
fn nothing_requested_gives_no_partition() {
    let data = noise(600, 3);
    let (texts, tables) = parts_of(&data, &[(0, 350), (300, 600)], 2);
    let plan = plan_partitions(&texts, &tables, 0, 50, 2).unwrap();
    assert!(plan.is_empty());
}

#[test]
fn plan_refuses_a_bad_layout() {
    let data = noise(600, 4);
    let (texts, tables) = parts_of(&data, &[(0, 350), (300, 600)], 2);
    assert_eq!(plan_partitions(&texts, &tables, 2, 50, 0).err(), Some(IndexError::WidthOutOfRange));
    assert_eq!(
        plan_partitions(&Vec::new(), &Vec::new(), 2, 50, 2).err(),
        Some(IndexError::PartCountMismatch)
    );
    assert_eq!(
        plan_partitions(&texts, &tables[..1].to_vec(), 2, 50, 2).err(),
        Some(IndexError::PartCountMismatch)
    );
    assert_eq!(plan_partitions(&texts, &tables, 2, 350, 2).err(), Some(IndexError::BadPartLength));
    assert_eq!(plan_partitions(&texts, &tables, 2, 50, 1).err(), Some(IndexError::ValueTooWide));
}

#[test]
fn plan_refuses_a_table_of_the_wrong_size() {
    let data = noise(600, 5);
    let (texts, mut tables) = parts_of(&data, &[(0, 350), (300, 600)], 2);
    tables[1].pop();
    assert_eq!(plan_partitions(&texts, &tables, 1, 50, 2).err(), Some(IndexError::BadPartLength));
    tables[1].pop();
    assert_eq!(plan_partitions(&texts, &tables, 1, 50, 2).err(), Some(IndexError::BadPartLength));
    tables[1].extend_from_slice(&[0, 0, 0, 0]);
    assert_eq!(plan_partitions(&texts, &tables, 1, 50, 2).err(), Some(IndexError::BadPartLength));
}

#[test]
fn plan_refuses_a_pointer_out_of_range_where_it_needs_pivots() {
    let data = noise(4000, 6);
    let (texts, mut tables) = parts_of(&data, &[(0, 2050), (2000, 4000)], 2);
    let bad = to_bytes(&[2001u64], 2);
    tables[1][10] = bad[0];
    tables[1][11] = bad[1];
    assert_eq!(
        plan_partitions(&texts, &tables, 2, 50, 2).err(),
        Some(IndexError::PointerOutOfRange)
    );
    assert!(plan_partitions(&texts, &tables, 1, 50, 2).is_ok());
}

#[test]
fn plan_refuses_a_pivot_outside_the_first_table() {
    let data = noise(5010, 7);
    let (texts, tables) = parts_of(&data, &[(0, 60), (10, 5010)], 2);
    assert_eq!(plan_partitions(&texts, &tables, 100, 50, 2).err(), Some(IndexError::BadBoundary));
    assert!(plan_partitions(&texts, &tables, 2, 50, 2).is_ok());
}
