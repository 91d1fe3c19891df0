use catten_services::ids::{after, next_free};
use catten_services::order::is_before;
use catten_services::text::{
    contains_byte, hex_lower, is_alphanumeric, push_decimal, push_text, trimmed_len,
    unsafe_path_segments, valid_header_value, valid_host,
};
use catten_services::wire::{
    all_zero, bytes_equal, copy_range, join, pages_for, push_all, push_be, push_fields, push_le,
    push_le_list, push_range, push_zeros, read_be, read_le, read_le_list, write_at,
};

#[test]
fn integers_are_written_in_both_orders() {
    let mut out = vec![];
    push_le(&mut out, 0x0102_0304, 4);
    push_be(&mut out, 0x0102_0304, 4);
    assert_eq!(out, vec![4, 3, 2, 1, 1, 2, 3, 4]);
    assert_eq!(read_le(&out, 0, 4), 0x0102_0304);
    assert_eq!(read_be(&out, 4, 4), 0x0102_0304);
    assert_eq!(read_le(&out, 2, 2), 0x0102);
}

#[test]
fn words_are_listed() {
    let mut out = vec![];
    push_le_list(&mut out, &[1, 0x1_0000]);
    assert_eq!(out.len(), 16);
    assert_eq!(read_le_list(&out, 8, 1), vec![0x1_0000]);
    let mut fields = vec![];
    push_fields(&mut fields, &[(1, 1), (2, 2), (3, 4)]);
    assert_eq!(fields, vec![1, 2, 0, 3, 0, 0, 0]);
    assert_eq!(join(1, 2), 0x1_0000_0002);
}

#[test]
fn ranges_are_copied() {
    let mut out = copy_range(&[1, 2, 3, 4], 1, 2);
    assert_eq!(out, vec![2, 3]);
    push_range(&mut out, &[5, 6, 7], 0, 1);
    push_all(&mut out, &[8]);
    push_zeros(&mut out, 2);
    assert_eq!(out, vec![2, 3, 5, 8, 0, 0]);
    assert!(all_zero(&out, 4, 6));
    assert!(!all_zero(&out, 3, 6));
    write_at(&mut out, 4, &[9, 9]);
    assert!(bytes_equal(&out, &[2, 3, 5, 8, 9, 9]));
    assert!(!bytes_equal(&out, &[2, 3, 5, 8, 9]));
}

#[test]
fn pages_are_rounded_up() {
    assert_eq!(pages_for(1), 1);
    assert_eq!(pages_for(4096), 1);
    assert_eq!(pages_for(4097), 2);
}

#[test]
fn numbers_are_written_as_text() {
    for value in [0, 7, 10, 65535, u64::MAX] {
        let mut out = vec![b'='];
        push_decimal(&mut out, value);
        assert_eq!(out, format!("={value}").into_bytes());
    }
    assert_eq!(hex_lower(&[0x00, 0x9f, 0xa0]), b"009fa0".to_vec());
    let mut out = vec![];
    push_text(&mut out, "gr\u{fc}n");
    assert_eq!(out, "gr\u{fc}n".as_bytes().to_vec());
}

#[test]
fn texts_are_checked() {
    assert!(is_alphanumeric(b'z') && is_alphanumeric(b'0') && !is_alphanumeric(b'-'));
    assert!(valid_host(b"s3.example-1.org"));
    assert!(!valid_host(b"") && !valid_host(b"a_b") && !valid_host(b"a b"));
    assert!(valid_header_value(b"a\tb ~"));
    assert!(!valid_header_value(b"") && !valid_header_value(b"a\nb"));
    assert!(contains_byte(b"abc", b'c') && !contains_byte(b"abc", b'd'));
    assert_eq!(trimmed_len(b"a/b//"), 3);
    assert_eq!(trimmed_len(b"//"), 0);
}

#[test]
fn dotted_segments_are_found() {
    for path in ["..", ".", "a/../b", "a/.", "./a"] {
        assert!(unsafe_path_segments(path.as_bytes()));
    }
    for path in ["", "a/b", "...", "a/...", "a..b", ".a", "a/"] {
        assert!(!unsafe_path_segments(path.as_bytes()));
    }
}

#[test]
fn names_are_ordered_as_in_a_dictionary() {
    assert!(is_before(b"", b"a"));
    assert!(is_before(b"a", b"ab"));
    assert!(is_before(b"ab", b"b"));
    assert!(!is_before(b"b", b"ab"));
    assert!(!is_before(b"a", b"a"));
}

#[test]
fn the_next_free_number_is_found() {
    assert_eq!(next_free(0, &[]), 1);
    assert_eq!(next_free(5, &[6, 5]), 7);
    assert_eq!(next_free(0xffff_ffff, &[0xffff_ffff, 1]), 2);
    assert_eq!(next_free(u64::MAX, &[]), 0xffff_ffff);
    assert_eq!(after(1), 2);
    assert_eq!(after(0xffff_ffff), 1);
}
