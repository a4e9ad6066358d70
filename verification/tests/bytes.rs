use smtp_receiver::bytes::{
    append_bytes, copy_bytes, find_bytes, is_data_terminator, previous_line_ending_len, same_bytes,
    split_headers_body, trim_line_ending, without_ascii_whitespace,
};
use smtp_receiver::ids::IdSource;

#[test]
fn bytes_are_found_at_their_first_place() {
    assert_eq!(find_bytes(b"abcabc", b"bc"), Some(1));
    assert_eq!(find_bytes(b"abc", b"abc"), Some(0));
    assert_eq!(find_bytes(b"abc", b"d"), None);
    assert_eq!(find_bytes(b"ab", b"abc"), None);
    assert_eq!(find_bytes(b"aab", b"ab"), Some(1));
}

#[test]
fn headers_end_at_the_first_empty_line() {
    let split = |message: &'static [u8]| split_headers_body(message);
    assert_eq!(split(b"a\r\n\r\nb"), (&b"a"[..], &b"b"[..]));
    assert_eq!(split(b"a\n\nb"), (&b"a"[..], &b"b"[..]));
    // An empty line with CR LF wins, also where it comes later.
    assert_eq!(split(b"a\n\nb\r\n\r\nc"), (&b"a\n\nb"[..], &b"c"[..]));
    assert_eq!(split(b"a\r\n"), (&b"a\r\n"[..], &b""[..]));
    assert_eq!(split(b"\r\n\r\n"), (&b""[..], &b""[..]));
    assert_eq!(split(b""), (&b""[..], &b""[..]));
}

#[test]
fn line_endings_are_removed() {
    assert_eq!(trim_line_ending(b"a\r\n"), b"a");
    assert_eq!(trim_line_ending(b"a\n"), b"a");
    assert_eq!(trim_line_ending(b"a\n\r\n"), b"a\n");
    assert_eq!(trim_line_ending(b"a\r"), b"a\r");
    assert_eq!(trim_line_ending(b"\n"), b"");
    assert_eq!(previous_line_ending_len(b"a\r\nb", 3), 2);
    assert_eq!(previous_line_ending_len(b"a\nb", 2), 1);
    assert_eq!(previous_line_ending_len(b"ab", 1), 0);
    assert_eq!(previous_line_ending_len(b"\n", 0), 0);
}

#[test]
fn terminators_are_single_dots() {
    for line in [&b"."[..], b".\n", b".\r\n"] {
        assert!(is_data_terminator(line));
    }
    for line in [&b""[..], b"..\r\n", b".\r", b". \r\n", b"\n", b".\n\n", b"a\r\n"] {
        assert!(!is_data_terminator(line));
    }
}

#[test]
fn ascii_white_space_is_dropped() {
    let all: Vec<u8> = (0..=255u8).collect();
    let kept: Vec<u8> = all.iter().copied().filter(|b| !b.is_ascii_whitespace()).collect();
    assert_eq!(without_ascii_whitespace(&all), kept);
    assert_eq!(without_ascii_whitespace(b""), b"");
}

#[test]
fn bytes_are_copied_and_compared() {
    let mut out = copy_bytes(b"ab");
    append_bytes(&mut out, b"cd");
    assert_eq!(out, b"abcd");
    assert!(same_bytes(b"ab", b"ab"));
    assert!(!same_bytes(b"ab", b"ac"));
    assert!(!same_bytes(b"ab", b"abc"));
}

#[test]
fn ids_count_up_and_start_again() {
    let mut ids = IdSource::new();
    assert_eq!(ids.fetch(), 1);
    assert_eq!(ids.fetch(), 2);
    let mut ids = IdSource { next: u64::MAX };
    assert_eq!(ids.fetch(), u64::MAX);
    assert_eq!(ids.fetch(), 0);
}
