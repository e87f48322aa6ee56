use vban_common::text::{is_white_space, Class};

#[test]
fn white_space_is_what_unicode_says_it_is() {
    for code in 0..=0x10_FFFFu32 {
        if let Some(c) = char::from_u32(code) {
            assert_eq!(is_white_space(c), c.is_whitespace(), "{code:x}");
        }
    }
}

#[test]
fn classes_hold_their_characters() {
    assert!(Class::Space.contains('\t'));
    assert!(!Class::Space.contains('x'));
    assert!(Class::Quote.contains('"'));
    assert!(!Class::Quote.contains('\''));
    assert!(Class::Digit.contains('0'));
    assert!(Class::Digit.contains('9'));
    assert!(!Class::Digit.contains('٣'));
    assert!(Class::Line.contains('='));
    assert!(!Class::Line.contains(';'));
    assert!(!Class::Line.contains('\n'));
    assert!(!Class::Line.contains('\r'));
    assert!(Class::Except('[').contains(']'));
    assert!(!Class::Except('[').contains('['));
}
