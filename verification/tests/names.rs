use suffix_array::names::{order_by_start, parse_number, parse_part_name, part_name, partition_name, push_decimal};

#[test]
fn part_name_is_start_hyphen_end() {
    assert_eq!(part_name(0, 100), b"0-100".to_vec());
    assert_eq!(part_name(123456789, 987654321), b"123456789-987654321".to_vec());
    assert_eq!(part_name(u64::MAX, 0), b"18446744073709551615-0".to_vec());
}

#[test]
fn partition_name_has_four_digits_or_more() {
    assert_eq!(partition_name(0), b"0000".to_vec());
    assert_eq!(partition_name(7), b"0007".to_vec());
    assert_eq!(partition_name(42), b"0042".to_vec());
    assert_eq!(partition_name(999), b"0999".to_vec());
    assert_eq!(partition_name(1000), b"1000".to_vec());
    assert_eq!(partition_name(12345), b"12345".to_vec());
}

#[test]
fn push_decimal_appends_the_digits() {
    let mut out = b"n=".to_vec();
    push_decimal(&mut out, 9);
    push_decimal(&mut out, 10);
    push_decimal(&mut out, 0);
    assert_eq!(out, b"n=9100".to_vec());
}

#[test]
fn parse_number_reads_digits() {
    assert_eq!(parse_number(b"12345", 0, 5), Some(12345));
    assert_eq!(parse_number(b"12345", 1, 3), Some(23));
    assert_eq!(parse_number(b"007", 0, 3), Some(7));
    assert_eq!(parse_number(b"+15", 0, 3), Some(15));
    assert_eq!(parse_number(b"18446744073709551615", 0, 20), Some(u64::MAX));
}

#[test]
fn parse_number_refuses_what_is_no_number() {
    assert_eq!(parse_number(b"", 0, 0), None);
    assert_eq!(parse_number(b"12345", 2, 2), None);
    assert_eq!(parse_number(b"+", 0, 1), None);
    assert_eq!(parse_number(b"++1", 0, 3), None);
    assert_eq!(parse_number(b"-1", 0, 2), None);
    assert_eq!(parse_number(b"12a", 0, 3), None);
    assert_eq!(parse_number(b" 12", 0, 3), None);
    assert_eq!(parse_number(b"18446744073709551616", 0, 20), None);
    assert_eq!(parse_number(b"99999999999999999999", 0, 20), None);
}

#[test]
fn parse_part_name_reads_the_range() {
    assert_eq!(parse_part_name(b"0-100"), Some((0, 100)));
    assert_eq!(parse_part_name(b"/tmp/parts/100-250"), Some((100, 250)));
    assert_eq!(parse_part_name(b"a-b/c-d/7-9"), Some((7, 9)));
    assert_eq!(parse_part_name(b"dir/+5-10"), Some((5, 10)));
}

#[test]
fn parse_part_name_undoes_part_name() {
    for (start, end) in [(0u64, 1u64), (10, 20), (999, 1000), (u64::MAX - 1, u64::MAX)] {
        assert_eq!(parse_part_name(&part_name(start, end)), Some((start, end)));
    }
}

#[test]
fn parse_part_name_refuses_other_names() {
    assert_eq!(parse_part_name(b""), None);
    assert_eq!(parse_part_name(b"100"), None);
    assert_eq!(parse_part_name(b"100-"), None);
    assert_eq!(parse_part_name(b"-100"), None);
    assert_eq!(parse_part_name(b"1-2-3"), None);
    assert_eq!(parse_part_name(b"1-2/"), None);
    assert_eq!(parse_part_name(b"1-2/x"), None);
    assert_eq!(parse_part_name(b"a-b"), None);
    assert_eq!(parse_part_name(b"1-18446744073709551616"), None);
}

#[test]
fn order_by_start_sorts_and_keeps_ties() {
    let ranges = vec![(30u64, 40u64), (10, 25), (20, 35), (10, 12), (0, 15)];
    assert_eq!(order_by_start(&ranges), vec![4usize, 1, 3, 2, 0]);
    assert_eq!(order_by_start(&Vec::new()), Vec::<usize>::new());
    assert_eq!(order_by_start(&vec![(5u64, 6u64)]), vec![0usize]);
    assert_eq!(order_by_start(&vec![(1u64, 2u64), (1, 3), (1, 4)]), vec![0usize, 1, 2]);
}
