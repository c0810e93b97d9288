use clippy_history::text::{
    chars_of, contains_chars, decimal_string, is_blank, parse_bool, parse_i64, split_once,
    str_equal, text_from_utf8, utf8_bytes,
};

#[test]
fn decimal_string_matches_display() {
    for n in [0i64, 7, 10, -5, 1234567890, i64::MIN, i64::MAX] {
        assert_eq!(decimal_string(n), n.to_string());
    }
}

#[test]
fn parse_i64_accepts_signs_and_digits() {
    assert_eq!(parse_i64("30"), Some(30));
    assert_eq!(parse_i64("+7"), Some(7));
    assert_eq!(parse_i64("-0"), Some(0));
    assert_eq!(parse_i64("007"), Some(7));
    assert_eq!(parse_i64("-9223372036854775808"), Some(i64::MIN));
    assert_eq!(parse_i64("9223372036854775807"), Some(i64::MAX));
}

#[test]
fn parse_i64_rejects_what_std_rejects() {
    for s in ["", "-", "+", " 1", "1 ", "1a", "9223372036854775808", "-9223372036854775809", "99999999999999999999999"] {
        assert_eq!(parse_i64(s), None, "{s:?}");
        assert!(s.parse::<i64>().is_err());
    }
}

#[test]
fn parse_i64_agrees_with_std_on_samples() {
    for s in ["12", "-12", "+0", "0x10", "1_000", "٣"] {
        assert_eq!(parse_i64(s), s.parse::<i64>().ok(), "{s:?}");
    }
}

#[test]
fn parse_bool_accepts_exact_words() {
    assert_eq!(parse_bool("true"), Some(true));
    assert_eq!(parse_bool("false"), Some(false));
    assert_eq!(parse_bool("True"), None);
    assert_eq!(parse_bool("1"), None);
}

#[test]
fn blank_means_only_white_space() {
    assert!(is_blank(""));
    assert!(is_blank(" \t\r\n"));
    assert!(is_blank("\u{3000}\u{00A0}\u{2028}"));
    assert!(!is_blank(" a "));
    for s in ["", " x", "\u{85}", "\u{200B}"] {
        assert_eq!(is_blank(s), s.trim().is_empty(), "{s:?}");
    }
}

#[test]
fn split_once_at_first_separator() {
    assert_eq!(split_once("12|a|b", '|'), Some(("12".to_string(), "a|b".to_string())));
    assert_eq!(split_once("|", '|'), Some((String::new(), String::new())));
    assert_eq!(split_once("abc", '|'), None);
}

#[test]
fn contains_and_equality() {
    let h = chars_of("hello world");
    assert!(contains_chars(&h, &chars_of("lo w")));
    assert!(contains_chars(&h, &chars_of("")));
    assert!(!contains_chars(&h, &chars_of("world!")));
    assert!(str_equal("é", "é"));
    assert!(!str_equal("a", "ab"));
}

#[test]
fn utf8_round_trip_and_lossy_decoding() {
    assert_eq!(utf8_bytes("héllo"), "héllo".as_bytes().to_vec());
    assert_eq!(text_from_utf8("héllo".as_bytes()), "héllo");
    assert_eq!(text_from_utf8(&[b'a', 0xFF, b'b']), "a\u{FFFD}b");
}
