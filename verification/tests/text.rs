use minit_rs::{debug_value_enabled, is_blank};

#[test]
fn debug_values() {
    assert!(debug_value_enabled("1"));
    assert!(debug_value_enabled("true"));
    assert!(debug_value_enabled("TRUE"));
    assert!(debug_value_enabled("tRuE"));
    assert!(!debug_value_enabled("0"));
    assert!(!debug_value_enabled("yes"));
    assert!(!debug_value_enabled("true "));
    assert!(!debug_value_enabled(""));
    assert!(!debug_value_enabled("11"));
}

#[test]
fn blank_text() {
    assert!(is_blank(""));
    assert!(is_blank(" \t\r\n\u{0b}\u{0c}"));
    assert!(is_blank("\u{85}\u{a0}\u{1680}\u{2000}\u{200a}\u{2029}\u{202f}\u{205f}\u{3000}"));
    assert!(!is_blank(" a "));
    assert!(!is_blank("\u{200b}"));
    for s in ["", " ", "x", " x\t", "\u{a0}", "\u{200b} "] {
        assert_eq!(is_blank(s), s.trim().is_empty());
    }
}
