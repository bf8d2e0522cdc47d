use rust_9cc::lexeme::{is_compound_head, is_mark};
use rust_9cc::text::{is_alnum, is_alpha, is_digit, is_space, push_int, push_nat, same_text};

#[test]
fn character_classes_are_those_of_ascii() {
    for c in (0u8..=255).map(char::from).chain(['\u{3b1}', '\u{ff11}', '\u{2003}']) {
        assert_eq!(is_space(c), c.is_ascii_whitespace());
        assert_eq!(is_digit(c), c.is_ascii_digit());
        assert_eq!(is_alpha(c), c.is_ascii_alphabetic());
        assert_eq!(is_alnum(c), c.is_ascii_alphanumeric());
        assert_eq!(is_mark(c), "=<>+-*/();".contains(c));
        assert_eq!(is_compound_head(c), "=!<>".contains(c));
    }
}

#[test]
fn same_text_compares_character_by_character() {
    assert!(same_text("", ""));
    assert!(same_text("<=", "<="));
    assert!(same_text("\u{e9}t\u{e9}", "\u{e9}t\u{e9}"));
    assert!(!same_text("<", "<="));
    assert!(!same_text("<=", "<"));
    assert!(!same_text("ab", "ac"));
    assert!(!same_text("", ";"));
}

#[test]
fn numerals_are_decimal() {
    for v in [0i64, 7, 10, 99, 100, 208, 1234567890, i64::MAX, -1, -10, -208, i64::MIN] {
        let mut out = String::from("x");
        push_int(&mut out, v);
        assert_eq!(out, format!("x{}", v));
    }
    for n in [0u64, 9, 10, 11, 1000, u64::MAX] {
        let mut out = String::new();
        push_nat(&mut out, n);
        assert_eq!(out, n.to_string());
    }
}
