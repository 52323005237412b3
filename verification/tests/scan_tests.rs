//! Tests for the byte-substring scanner and the token validator.

use httpreq::scan::{find_header_end, find_newline, find_pattern, is_tchar, is_token};

#[test]
fn test_find_pattern() {
    assert_eq!(find_pattern(b"hello world!!!", b"!"), Some(11));
    assert_eq!(find_pattern(b"hello world", b"!"), None);
}

#[test]
fn test_find_new_line() {
    assert_eq!(find_newline(b"hello\r\nworld"), Some(6));
    assert_eq!(find_newline(b"hello world\r"), None);
    assert_eq!(find_newline(b"Header: localhost:8080\r\n"), Some(23));
}

#[test]
fn find_pattern_is_leftmost() {
    assert_eq!(find_pattern(b"abab", b"ab"), Some(1));
    assert_eq!(find_pattern(b"xxabxxab", b"ab"), Some(3));
}

#[test]
fn find_pattern_matches_at_offset_zero() {
    assert_eq!(find_pattern(b"\r\nx", b"\r\n"), Some(1));
    assert_eq!(find_pattern(b"abc", b"abc"), Some(2));
}

#[test]
fn find_pattern_needle_longer_than_haystack() {
    assert_eq!(find_pattern(b"ab", b"abc"), None);
    assert_eq!(find_pattern(b"", b"x"), None);
}

#[test]
fn find_header_end_locates_terminator() {
    assert_eq!(find_header_end(b"a\r\n\r\nbody"), Some(4));
    assert_eq!(find_header_end(b"a\r\nb\r\n"), None);
}

#[test]
fn tchar_alphabet() {
    assert!(is_tchar(b'a'));
    assert!(is_tchar(b'Z'));
    assert!(is_tchar(b'-'));
    assert!(is_tchar(b'~'));
    assert!(is_tchar(b'0'));
    assert!(!is_tchar(b':'));
    assert!(!is_tchar(b' '));
    assert!(!is_tchar(b'\r'));
    assert!(!is_tchar(b'('));
}

#[test]
fn token_accepts_empty_vacuously() {
    assert!(is_token(b""));
    assert!(is_token(b"Content-Length"));
    assert!(!is_token(b"a b"));
    assert!(!is_token(b"a:b"));
}
