use mcpgw::text::{parse_u64, parse_usize, str_contains, str_is_blank, str_less, string_of};

#[test]
fn numbers_parse_like_std() {
    for s in ["0", "42", "+7", "18446744073709551615", "007"] {
        assert_eq!(parse_u64(s), s.parse::<u64>().ok(), "{s}");
    }
    for s in ["", "+", "-1", "18446744073709551616", "1.5", " 1", "1a"] {
        assert_eq!(parse_u64(s), None, "{s}");
    }
    assert_eq!(parse_usize("12"), Some(12));
}

#[test]
fn text_helpers() {
    assert!(str_contains("hello world", "o w"));
    assert!(!str_contains("hello", "hello!"));
    assert!(str_contains("x", ""));
    assert!(str_is_blank(" \t\n"));
    assert!(!str_is_blank(" a "));
    assert!(str_less("a", "b"));
    assert!(str_less("ab", "abc"));
    assert!(!str_less("b", "a"));
    assert!(!str_less("a", "a"));
    assert_eq!(string_of("日本"), "日本");
}
