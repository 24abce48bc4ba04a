use kiro_bridge::text::{is_white_space, CharClass};

fn every_char() -> impl Iterator<Item = char> {
    (0..=0x10ffff_u32).filter_map(char::from_u32)
}

#[test]
fn white_space_is_what_the_standard_library_calls_so() {
    for c in every_char() {
        assert_eq!(is_white_space(c), c.is_whitespace(), "U+{:04X}", c as u32);
    }
}

#[test]
fn classes_of_white_space_are_complements() {
    for c in every_char() {
        assert_eq!(CharClass::Space.contains(c), c.is_whitespace());
        assert_eq!(CharClass::NonSpace.contains(c), !c.is_whitespace());
    }
}

#[test]
fn punctuation_is_what_cannot_end_a_path() {
    for c in every_char() {
        let ends_path = c.is_alphanumeric() || c == '/' || c == '.' || c == '_' || c == '-';
        assert_eq!(CharClass::Punctuation.contains(c), !ends_path, "U+{:04X}", c as u32);
    }
    assert!(!CharClass::Punctuation.contains('\u{e9}'));
    assert!(!CharClass::Punctuation.contains('\u{4e2d}'));
    assert!(!CharClass::Punctuation.contains('\u{663}'));
    assert!(CharClass::Punctuation.contains('\u{ab}'));
    assert!(CharClass::Punctuation.contains('~'));
    assert!(CharClass::Punctuation.contains('['));
}

#[test]
fn letters_are_the_ascii_letters() {
    for c in every_char() {
        assert_eq!(CharClass::NonLetter.contains(c), !c.is_ascii_alphabetic());
    }
}
