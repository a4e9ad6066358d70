use smtp_receiver::order::insert_text;
use smtp_receiver::text::{
    begins_with, chars_of, contains_chars, contains_text, decimal_string, first_word_of, is_space,
    lines_of, lower_string, position_of, same_text, same_text_ignoring_case, split_chars, string_of,
    to_upper, trim_chars, trim_end_matching, trim_start_chars, trim_start_matching,
};

const SAMPLES: [&str; 14] = [
    "",
    " ",
    "\r\n",
    "a",
    " a b ",
    "\u{a0}x\u{3000}",
    "one\ntwo\r\nthree",
    "one\n\n\r\ntwo\n",
    "\r\r\n\r",
    "a;b;;c;",
    ";",
    "...a..",
    "\u{e9}\u{10ffff}z",
    "name = value = more",
];

fn text(chars: &[char]) -> String {
    string_of(chars)
}

#[test]
fn white_space_is_that_of_char() {
    for code in 0..=0x10ffffu32 {
        if let Some(c) = char::from_u32(code) {
            assert_eq!(is_space(c), c.is_whitespace(), "{code:x}");
        }
    }
}

#[test]
fn texts_are_trimmed_like_str() {
    for sample in SAMPLES {
        let chars = chars_of(sample);
        assert_eq!(text(&chars), sample);
        assert_eq!(text(trim_chars(&chars)), sample.trim());
        assert_eq!(text(trim_start_chars(&chars)), sample.trim_start());
        assert_eq!(text(trim_start_matching(&chars, '.')), sample.trim_start_matches('.'));
        assert_eq!(text(trim_end_matching(&chars, '.')), sample.trim_end_matches('.'));
        assert_eq!(
            text(first_word_of(&chars)),
            sample.split_whitespace().next().unwrap_or("")
        );
    }
}

#[test]
fn texts_are_split_like_str() {
    for sample in SAMPLES {
        let chars = chars_of(sample);
        let pieces: Vec<String> = split_chars(&chars, ';').into_iter().map(text).collect();
        assert_eq!(pieces, sample.split(';').collect::<Vec<_>>());
        let lines: Vec<String> = lines_of(&chars).into_iter().map(text).collect();
        assert_eq!(lines, sample.lines().collect::<Vec<_>>());
        assert_eq!(
            position_of(&chars, '='),
            sample.chars().position(|c| c == '=').unwrap_or(chars.len())
        );
    }
}

#[test]
fn texts_are_compared_like_str() {
    for a in SAMPLES {
        assert_eq!(lower_string(a), a.to_ascii_lowercase());
        assert_eq!(text(&to_upper(&chars_of(a))), a.to_ascii_uppercase());
        for b in SAMPLES {
            let chars = chars_of(a);
            assert_eq!(same_text(a, b), a == b);
            assert_eq!(same_text_ignoring_case(a, b), a.eq_ignore_ascii_case(b));
            assert_eq!(begins_with(&chars, b), a.starts_with(b));
            assert_eq!(contains_text(&chars, b), a.contains(b));
            assert_eq!(contains_chars(&chars, &chars_of(b)), a.contains(b));
        }
    }
    assert!(same_text_ignoring_case("K\u{e9}Y", "k\u{e9}y"));
    assert!(!same_text_ignoring_case("\u{c9}", "\u{e9}"));
}

#[test]
fn numbers_are_printed_in_decimal() {
    for n in [0, 1, 9, 10, 11, 99, 100, 12345, u64::MAX] {
        assert_eq!(decimal_string(n), n.to_string());
    }
}

#[test]
fn lists_are_kept_in_the_order_of_strings() {
    let mut list: Vec<String> = Vec::new();
    let items = ["b", "a", "", "b", "ab", "\u{ff5e}", "\u{10000}", "B", "a"];
    let mut expected = std::collections::BTreeSet::new();
    for item in items {
        insert_text(&mut list, item.to_string());
        expected.insert(item.to_string());
        assert_eq!(list, expected.iter().cloned().collect::<Vec<_>>());
    }
}
