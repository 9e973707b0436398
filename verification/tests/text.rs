use waf_gateway::text::{
    chars_of, contains_str, find_char, parse_unsigned, str_eq, string_of, trim_window, whitespace,
};

fn trimmed(s: &str) -> String {
    let v = chars_of(s);
    let (a, b) = trim_window(&v, 0, v.len());
    string_of(&v, a, b)
}

#[test]
fn whitespace_is_the_unicode_set() {
    for c in [
        '\t', '\n', '\u{b}', '\u{c}', '\r', ' ', '\u{85}', '\u{a0}', '\u{1680}', '\u{2000}',
        '\u{2005}', '\u{200a}', '\u{2028}', '\u{2029}', '\u{202f}', '\u{205f}', '\u{3000}',
    ] {
        assert!(whitespace(c));
    }
    for c in ['a', '0', ':', '\u{8}', '\u{e}', '\u{1f}', '\u{200b}', '\u{feff}', '\u{180e}', '\u{0}'] {
        assert!(!whitespace(c));
    }
}

#[test]
fn whitespace_agrees_with_char_is_whitespace() {
    for code in 0u32..0x3100 {
        if let Some(c) = char::from_u32(code) {
            assert_eq!(whitespace(c), c.is_whitespace());
        }
    }
}

#[test]
fn trimming_cuts_both_ends_only() {
    assert_eq!(trimmed("  a b  "), "a b");
    assert_eq!(trimmed("\r\n\tx\u{a0}"), "x");
    assert_eq!(trimmed("x"), "x");
    assert_eq!(trimmed(""), "");
    assert_eq!(trimmed(" \t\r\n"), "");
}

#[test]
fn trim_window_stays_inside_the_window() {
    let v = chars_of("ab  cd  ef");
    assert_eq!(trim_window(&v, 2, 8), (4, 6));
    assert_eq!(trim_window(&v, 2, 4), (4, 4));
    assert_eq!(trim_window(&v, 0, 10), (0, 10));
    assert_eq!(trim_window(&v, 5, 5), (5, 5));
}

#[test]
fn find_char_gives_the_first_or_the_end() {
    let v = chars_of("a:b:c");
    assert_eq!(find_char(&v, 0, 5, ':'), 1);
    assert_eq!(find_char(&v, 2, 5, ':'), 3);
    assert_eq!(find_char(&v, 4, 5, ':'), 5);
    assert_eq!(find_char(&v, 0, 1, ':'), 1);
    assert_eq!(find_char(&v, 0, 5, 'z'), 5);
    assert_eq!(find_char(&v, 3, 3, ':'), 3);
}

#[test]
fn chars_and_strings_convert_back_and_forth() {
    let v = chars_of("h\u{e9}llo \u{65e5}");
    assert_eq!(v, vec!['h', '\u{e9}', 'l', 'l', 'o', ' ', '\u{65e5}']);
    assert_eq!(string_of(&v, 1, 5), "\u{e9}llo");
    assert_eq!(string_of(&v, 6, 7), "\u{65e5}");
    assert_eq!(string_of(&v, 3, 3), "");
}

#[test]
fn strings_compare_by_content() {
    assert!(str_eq("", ""));
    assert!(str_eq("abc", "abc"));
    assert!(!str_eq("abc", "abd"));
    assert!(!str_eq("abc", "ab"));
    assert!(!str_eq("abc", "ABC"));
    assert!(str_eq("\u{65e5}\u{672c}", "\u{65e5}\u{672c}"));
    assert!(!str_eq("\u{65e5}", "\u{672c}"));
}

#[test]
fn list_membership_is_exact() {
    let list = vec!["/a".to_string(), "/b".to_string()];
    assert!(contains_str(&list, "/a"));
    assert!(contains_str(&list, "/b"));
    assert!(!contains_str(&list, "/"));
    assert!(!contains_str(&list, "/a/"));
    assert!(!contains_str(&Vec::new(), "/a"));
}

#[test]
fn unsigned_numerals_are_read() {
    assert_eq!(parse_unsigned("0"), Some(0));
    assert_eq!(parse_unsigned("5"), Some(5));
    assert_eq!(parse_unsigned("0042"), Some(42));
    assert_eq!(parse_unsigned("+7"), Some(7));
    assert_eq!(parse_unsigned("1234567890"), Some(1234567890));
    assert_eq!(parse_unsigned("18446744073709551615"), Some(u64::MAX));
    assert_eq!(parse_unsigned("000018446744073709551615"), Some(u64::MAX));
}

#[test]
fn other_text_is_no_numeral() {
    for s in [
        "", "+", "-", "-0", "-1", "++1", "+-1", "1+", " 1", "1 ", "1_000", "0x1", "1e3", "1.0",
        "\u{661}", "18446744073709551616", "99999999999999999999", "184467440737095516150",
    ] {
        assert_eq!(parse_unsigned(s), None);
    }
}

#[test]
fn numerals_agree_with_the_standard_parser() {
    for s in ["0", "+0", "17", "+17", "007", "", "+", "-3", "3-", "a", "18446744073709551615",
        "18446744073709551616", "+18446744073709551615", "28446744073709551615"] {
        assert_eq!(parse_unsigned(s), s.parse::<u64>().ok());
    }
}
