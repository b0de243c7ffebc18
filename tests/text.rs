use stage_play::text::{decimal_text, is_whitespace, parse_number, split_words, trim_str};

#[test]
fn words_are_split_on_any_whitespace() {
    assert_eq!(split_words("  Alice \t a.txt  "), vec!["Alice".to_string(), "a.txt".to_string()]);
    assert_eq!(split_words("one"), vec!["one".to_string()]);
    assert!(split_words("").is_empty());
    assert!(split_words(" \t ").is_empty());
    assert_eq!(split_words("a\u{3000}b"), vec!["a".to_string(), "b".to_string()]);
}

#[test]
fn trim_removes_both_ends_only() {
    assert_eq!(trim_str("  Hello  there \t"), "Hello  there");
    assert_eq!(trim_str("   "), "");
    assert_eq!(trim_str(""), "");
    assert_eq!(trim_str("x"), "x");
}

#[test]
fn numbers_parse_like_usize() {
    assert_eq!(parse_number("42"), Some(42));
    assert_eq!(parse_number("0"), Some(0));
    assert_eq!(parse_number("+7"), Some(7));
    assert_eq!(parse_number("007"), Some(7));
    assert_eq!(parse_number("-1"), None);
    assert_eq!(parse_number(""), None);
    assert_eq!(parse_number("+"), None);
    assert_eq!(parse_number("12a"), None);
    assert_eq!(parse_number("18446744073709551615"), Some(usize::MAX));
    assert_eq!(parse_number("18446744073709551616"), None);
    assert_eq!(parse_number("99999999999999999999x"), None);
}

#[test]
fn whitespace_matches_std() {
    for c in [' ', '\t', '\n', '\r', '\u{b}', '\u{c}', '\u{85}', '\u{a0}', '\u{2003}', '\u{3000}'] {
        assert!(is_whitespace(c));
        assert!(c.is_whitespace());
    }
    for c in ['a', '0', '[', '\u{200b}'] {
        assert!(!is_whitespace(c));
        assert_eq!(is_whitespace(c), c.is_whitespace());
    }
}

#[test]
fn decimal_writes_numbers() {
    assert_eq!(decimal_text(0), "0");
    assert_eq!(decimal_text(7), "7");
    assert_eq!(decimal_text(120), "120");
    assert_eq!(decimal_text(usize::MAX), usize::MAX.to_string());
}
