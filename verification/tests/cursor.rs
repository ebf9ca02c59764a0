use suffix_array::codec::to_bytes;
use suffix_array::cursor::{load_at, locate, make_table, next_pointer, table_in_range};

fn banana_table(width: usize) -> Vec<u8> {
    to_bytes(&[5u64, 3, 1, 0, 4, 2], width)
}

#[test]
fn load_at_reads_one_pointer() {
    let table = banana_table(3);
    assert_eq!(load_at(&table, 0, 3), 5);
    assert_eq!(load_at(&table, 2, 3), 1);
    assert_eq!(load_at(&table, 5, 3), 2);
    let wide = to_bytes(&[0x0102030405060708u64, 7], 8);
    assert_eq!(load_at(&wide, 0, 8), 0x0102030405060708);
    assert_eq!(load_at(&wide, 1, 8), 7);
}

#[test]
fn locate_gives_the_insertion_index() {
    let text = b"banana";
    let table = banana_table(2);
    assert_eq!(locate(text, &table, b"", 2), 0);
    assert_eq!(locate(text, &table, b"a", 2), 0);
    assert_eq!(locate(text, &table, b"an", 2), 1);
    assert_eq!(locate(text, &table, b"ana", 2), 1);
    assert_eq!(locate(text, &table, b"anan", 2), 2);
    assert_eq!(locate(text, &table, b"b", 2), 3);
    assert_eq!(locate(text, &table, b"banana", 2), 3);
    assert_eq!(locate(text, &table, b"bananas", 2), 4);
    assert_eq!(locate(text, &table, b"nana", 2), 5);
    assert_eq!(locate(text, &table, b"z", 2), 6);
}

#[test]
fn locate_in_an_empty_text() {
    let text: [u8; 0] = [];
    let table: [u8; 0] = [];
    assert_eq!(locate(&text, &table, b"abc", 4), 0);
}

#[test]
fn table_in_range_checks_every_pointer() {
    assert!(table_in_range(&banana_table(1), 1, 6));
    assert!(table_in_range(&banana_table(1), 1, 5));
    assert!(!table_in_range(&banana_table(1), 1, 4));
    assert!(!table_in_range(&banana_table(1), 0, 6));
    assert!(!table_in_range(&banana_table(1), 9, 6));
    assert!(!table_in_range(&banana_table(1), 4, 6));
    assert!(table_in_range(&[], 3, 0));
}

#[test]
fn stream_hands_out_pointers_in_order() {
    let table = banana_table(5);
    let mut stream = make_table(&table, 0, 5);
    let mut seen = Vec::new();
    while let Some(p) = next_pointer(&mut stream) {
        seen.push(p);
    }
    assert_eq!(seen, vec![5u64, 3, 1, 0, 4, 2]);
    assert_eq!(stream.position, 6);
    assert_eq!(next_pointer(&mut stream), None);
    assert_eq!(stream.position, 6);
}

#[test]
fn stream_starts_at_its_offset() {
    let table = banana_table(2);
    let mut stream = make_table(&table, 4, 2);
    assert_eq!(next_pointer(&mut stream), Some(4));
    assert_eq!(next_pointer(&mut stream), Some(2));
    assert_eq!(next_pointer(&mut stream), None);
    let mut past = make_table(&table, 60, 2);
    assert_eq!(next_pointer(&mut past), None);
    assert_eq!(past.position, 60);
}

#[test]
fn stream_ignores_a_partial_word_at_the_end() {
    let mut table = banana_table(2);
    table.push(1);
    let mut stream = make_table(&table, 5, 2);
    assert_eq!(next_pointer(&mut stream), Some(2));
    assert_eq!(next_pointer(&mut stream), None);
}
