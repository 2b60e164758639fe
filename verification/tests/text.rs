use mini_git::bytes::{append_range, copy_range, equal, find_from};
use mini_git::decimal::{parse_u64, write_decimal};
use mini_git::kind::ObjectKind;

fn decimal_of(n: u64) -> Vec<u8> {
    let mut out = Vec::new();
    write_decimal(n, &mut out);
    out
}

#[test]
fn decimal_text_has_no_sign_and_no_leading_zero() {
    assert_eq!(decimal_of(0), b"0".to_vec());
    assert_eq!(decimal_of(7), b"7".to_vec());
    assert_eq!(decimal_of(10), b"10".to_vec());
    assert_eq!(decimal_of(1004), b"1004".to_vec());
    assert_eq!(decimal_of(u64::MAX), b"18446744073709551615".to_vec());
    let mut out = b"n=".to_vec();
    write_decimal(42, &mut out);
    assert_eq!(out, b"n=42".to_vec());
}

#[test]
fn decimal_text_is_read_back() {
    for n in [0u64, 1, 9, 10, 99, 100, 12345, 1 << 32, u64::MAX - 1, u64::MAX] {
        assert_eq!(parse_u64(&decimal_of(n)), Some(n));
    }
}

#[test]
fn size_token_may_have_a_plus_and_leading_zeros() {
    assert_eq!(parse_u64(b"+12"), Some(12));
    assert_eq!(parse_u64(b"0012"), Some(12));
    assert_eq!(parse_u64(b"+0"), Some(0));
    assert_eq!(parse_u64(b"00000000000000000000000018446744073709551615"), Some(u64::MAX));
}

#[test]
fn size_token_that_is_no_number_is_refused() {
    let bad: [&[u8]; 12] = [
        b"",
        b"+",
        b"-",
        b"-1",
        b"++1",
        b"1+",
        b" 1",
        b"1 ",
        b"0x10",
        b"12a",
        b"18446744073709551616",
        b"99999999999999999999999",
    ];
    for token in bad {
        assert_eq!(parse_u64(token), None);
    }
}

#[test]
fn kind_names_are_the_three_lowercase_words() {
    assert_eq!(ObjectKind::Blob.as_str(), "blob");
    assert_eq!(ObjectKind::Tree.as_str(), "tree");
    assert_eq!(ObjectKind::Commit.as_str(), "commit");
    for kind in [ObjectKind::Blob, ObjectKind::Tree, ObjectKind::Commit] {
        let mut out = Vec::new();
        kind.write_name(&mut out);
        assert_eq!(out, kind.as_str().as_bytes().to_vec());
        assert_eq!(ObjectKind::from_name(&out), Some(kind));
    }
}

#[test]
fn unknown_kind_names_stand_for_no_kind() {
    let bad: [&[u8]; 7] = [b"", b"tag", b"Blob", b"blob ", b"blobs", b"tre", b"commi"];
    for token in bad {
        assert_eq!(ObjectKind::from_name(token), None);
    }
}

#[test]
fn find_from_gives_the_first_occurrence_or_the_length() {
    assert_eq!(find_from(b"a b c", b' ', 0), 1);
    assert_eq!(find_from(b"a b c", b' ', 1), 1);
    assert_eq!(find_from(b"a b c", b' ', 2), 3);
    assert_eq!(find_from(b"a b c", b' ', 4), 5);
    assert_eq!(find_from(b"a b c", b' ', 5), 5);
    assert_eq!(find_from(b"abc", 0, 0), 3);
    assert_eq!(find_from(b"", 0, 0), 0);
}

#[test]
fn byte_helpers_compare_and_copy() {
    assert!(equal(b"same", b"same"));
    assert!(equal(b"", b""));
    assert!(!equal(b"same", b"sam"));
    assert!(!equal(b"same", b"sane"));
    assert_eq!(copy_range(b"hello", 1, 4), b"ell".to_vec());
    assert_eq!(copy_range(b"hello", 2, 2), Vec::<u8>::new());
    let mut out = b"<".to_vec();
    append_range(&mut out, b"hello", 0, 5);
    assert_eq!(out, b"<hello".to_vec());
}
