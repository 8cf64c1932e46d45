use annals::number::{decimal_text, parse_number, signed_decimal_text};
use annals::text::{
    byte_count, char_is_space, char_lower, char_upper, contains_text, first_chars, first_line_of,
    join_texts, lower_text, same_ignoring_case, split_words, trim, upper_contains,
};

#[test]
fn white_space_is_that_of_std() {
    for code in 0..=0x10_ffffu32 {
        if let Some(c) = char::from_u32(code) {
            assert_eq!(char_is_space(c), c.is_whitespace(), "{:x}", code);
        }
    }
}

#[test]
fn ascii_case_is_that_of_std() {
    for code in 0..=0x2ffu32 {
        if let Some(c) = char::from_u32(code) {
            assert_eq!(char_upper(c), c.to_ascii_uppercase());
            assert_eq!(char_lower(c), c.to_ascii_lowercase());
        }
    }
    assert_eq!(lower_text("ÀB z"), "Àb z");
    assert!(same_ignoring_case("Me", "mE"));
    assert!(!same_ignoring_case("é", "É"));
}

#[test]
fn trimming_is_that_of_std() {
    for s in ["", " ", " a b ", "\u{3000}x\u{a0}", "a", "\n\n", "\ta\n b"] {
        assert_eq!(trim(s), s.trim());
        assert_eq!(trim(&trim(s)), s.trim());
        let words: Vec<&str> = s.split_whitespace().collect();
        assert_eq!(split_words(s), words);
    }
}

#[test]
fn first_lines_are_those_of_std() {
    for s in ["", "a", "a\nb", "a\r\nb", "\n", "\r\nb", "a\rb", "a\r", "\r", "a\r\r\nb", "é\nx"] {
        assert_eq!(first_line_of(s), s.lines().next().unwrap_or(""), "{:?}", s);
    }
}

#[test]
fn first_characters() {
    assert_eq!(first_chars("abcdefgh", 7), "abcdefg");
    assert_eq!(first_chars("abc", 7), "abc");
    assert_eq!(first_chars("éèàüöäßx", 7), "éèàüöäß");
    assert_eq!(first_chars("", 7), "");
}

#[test]
fn texts_within_texts() {
    assert!(contains_text("abcabd", "abd"));
    assert!(!contains_text("abcab", "abd"));
    assert!(contains_text("", ""));
    assert!(!contains_text("a", "aa"));
    assert!(upper_contains("xvizier conversationy", "VIZIER CONVERSATION"));
    assert!(!upper_contains("vizier  conversation", "VIZIER CONVERSATION"));
}

#[test]
fn joining_and_counting() {
    let parts = vec!["a".to_string(), "".to_string(), "b".to_string()];
    assert_eq!(join_texts(&parts, ", "), "a, , b");
    assert_eq!(join_texts(&Vec::new(), ", "), "");
    assert_eq!(byte_count("aé€😀"), 10);
}

#[test]
fn numbers_are_those_of_std() {
    for s in [
        "", "+", "-", "0", "-0", "+7", "007", "-12", "9223372036854775807",
        "9223372036854775808", "-9223372036854775808", "-9223372036854775809", "1_0", " 1", "1 ",
        "1a", "--1", "99999999999999999999999999",
    ] {
        assert_eq!(parse_number(s), s.parse::<i64>().ok(), "{:?}", s);
    }
    for n in [0u64, 9, 10, 99, 100, 1005, u64::MAX] {
        assert_eq!(decimal_text(n), n.to_string());
    }
    for n in [0i64, -1, 42, i64::MIN, i64::MAX] {
        assert_eq!(signed_decimal_text(n), n.to_string());
        assert_eq!(parse_number(&signed_decimal_text(n)), Some(n));
    }
}
