use cbnf::lexer::is_ident;
use cbnf::util::{is_id_continue, is_id_start, is_whitespace, nfc_normalize, valid_id};

#[test]
fn whitespace_set() {
    for c in ['\t', '\n', '\u{000B}', '\u{000C}', '\r', ' ', '\u{0085}', '\u{200E}', '\u{200F}', '\u{2028}', '\u{2029}'] {
        assert!(is_whitespace(c), "{c:?}");
    }
    assert!(!is_whitespace('a'));
    assert!(!is_whitespace('\u{00A0}'));
}

#[test]
fn identifier_classes() {
    assert!(is_id_start('_'));
    assert!(is_id_start('a'));
    assert!(is_id_start('\u{e9}'));
    assert!(!is_id_start('1'));
    assert!(is_id_continue('1'));
    assert!(!is_id_continue('-'));
}

#[test]
fn identifiers() {
    assert!(valid_id("abc_1"));
    assert!(valid_id("_"));
    assert!(valid_id("\u{e9}t\u{e9}"));
    assert!(!valid_id(""));
    assert!(!valid_id("1a"));
    assert!(!valid_id("a-b"));
    assert!(is_ident("rule"));
    assert!(!is_ident("$rule"));
}

#[test]
fn normal_form_c() {
    assert_eq!(nfc_normalize("e\u{301}"), "\u{e9}");
    assert_eq!(nfc_normalize("abc"), "abc");
}
