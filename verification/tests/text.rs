use atomic_runtime::text::{
    byte_len, chars_of, eq_ignore_ascii_case, parse_i64, parse_usize, same_text, to_ascii_lowercase, to_ascii_uppercase,
    trim_chars,
};

fn chars(s: &str) -> Vec<char> {
    s.chars().collect()
}

#[test]
fn ascii_case() {
    assert_eq!(to_ascii_lowercase("AbC-é"), "abc-é");
    assert_eq!(to_ascii_uppercase("aBc-é"), "ABC-é");
    assert!(eq_ignore_ascii_case("Content-Type", "content-type"));
    assert!(!eq_ignore_ascii_case("É", "é"));
}

#[test]
fn basic_text_helpers() {
    assert_eq!(chars_of("hé"), vec!['h', 'é']);
    assert_eq!(byte_len("hé"), 3);
    assert!(same_text("a", "a"));
    assert!(!same_text("a", "ab"));
}

#[test]
fn trimming_unicode_whitespace() {
    assert_eq!(trim_chars(" \t x y \u{2003}"), chars("x y"));
    assert_eq!(trim_chars("   "), chars(""));
    assert_eq!(trim_chars("\u{000B}a"), chars("a"));
}

#[test]
fn integer_parsing() {
    assert_eq!(parse_i64(&chars("-9223372036854775808")), Some(i64::MIN));
    assert_eq!(parse_i64(&chars("-9223372036854775809")), None);
    assert_eq!(parse_i64(&chars("007")), Some(7));
    assert_eq!(parse_i64(&chars("1 2")), None);
    assert_eq!(parse_i64(&chars("-")), None);
    assert_eq!(parse_i64(&chars("")), None);
    assert_eq!(parse_i64(&chars("99999999999999999999x")), None);
}

#[test]
fn usize_parsing_matches_std() {
    for s in ["0", "17", "+5", "007", "-0", "-1", "", "+", "1a", " 1", "18446744073709551615", "18446744073709551616", "99999999999999999999"] {
        assert_eq!(parse_usize(&chars(s)), s.parse::<usize>().ok(), "{s}");
    }
    assert_eq!(parse_usize(&chars("42")), Some(42));
}
