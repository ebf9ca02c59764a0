use suffix_array::order::{key_len, suffix_less, suffixes_share_prefix};

#[test]
fn shorter_prefix_comes_first() {
    assert!(suffix_less(b"abc", 0, b"abcd", 0, usize::MAX));
    assert!(!suffix_less(b"abcd", 0, b"abc", 0, usize::MAX));
    assert!(!suffix_less(b"abc", 0, b"abc", 0, usize::MAX));
    assert!(suffix_less(b"", 0, b"a", 0, usize::MAX));
    assert!(!suffix_less(b"", 0, b"", 0, usize::MAX));
}

#[test]
fn bytes_compare_unsigned() {
    assert!(suffix_less(&[0x7f], 0, &[0x80], 0, usize::MAX));
    assert!(suffix_less(&[1, 255], 0, &[2, 0], 0, usize::MAX));
    assert!(!suffix_less(&[200], 0, &[100, 5], 0, usize::MAX));
}

#[test]
fn comparison_starts_at_the_offsets() {
    let text = b"banana";
    assert!(suffix_less(text, 5, text, 3, usize::MAX));
    assert!(suffix_less(text, 3, text, 1, usize::MAX));
    assert!(suffix_less(text, 1, text, 0, usize::MAX));
    assert!(!suffix_less(text, 2, text, 4, usize::MAX));
    assert!(suffix_less(text, 6, text, 5, usize::MAX));
}

#[test]
fn comparison_stops_at_the_limit() {
    let text = b"banana";
    assert!(suffix_less(text, 3, text, 1, 4));
    assert!(!suffix_less(text, 3, text, 1, 3));
    assert!(!suffix_less(text, 1, text, 3, 3));
    assert!(!suffix_less(text, 0, text, 1, 0));
    assert!(suffix_less(text, 5, text, 3, 3));
}

#[test]
fn key_len_is_capped() {
    assert_eq!(key_len(10, 3, 100), 7);
    assert_eq!(key_len(10, 3, 7), 7);
    assert_eq!(key_len(10, 3, 4), 4);
    assert_eq!(key_len(10, 10, 4), 0);
    assert_eq!(key_len(10, 0, 0), 0);
}

#[test]
fn shared_prefix_needs_enough_bytes_on_both_sides() {
    let text = b"banana";
    assert!(suffixes_share_prefix(text, 1, text, 3, 3));
    assert!(!suffixes_share_prefix(text, 1, text, 3, 4));
    assert!(suffixes_share_prefix(text, 1, text, 3, 0));
    assert!(suffixes_share_prefix(text, 6, text, 6, 0));
    assert!(!suffixes_share_prefix(text, 6, text, 5, 1));
    assert!(!suffixes_share_prefix(text, 0, text, 1, 1));
    assert!(suffixes_share_prefix(text, 2, text, 4, 2));
}
