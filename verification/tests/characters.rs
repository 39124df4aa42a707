use grammar_ast::chars::{quote, quote_disallowed, structural, term_allowed, unescape, whitespace};

#[test]
fn white_space_is_what_the_standard_library_calls_white_space() {
    for code in 0..=0x10ffffu32 {
        if let Some(c) = char::from_u32(code) {
            assert_eq!(whitespace(c), c.is_whitespace(), "U+{:04X}", code);
        }
    }
}

#[test]
fn identifier_characters_are_ascii_letters_digits_and_underscore() {
    for code in 0..=0x10ffffu32 {
        if let Some(c) = char::from_u32(code) {
            assert_eq!(
                term_allowed(c),
                c == '_' || c.is_ascii_alphanumeric(),
                "U+{:04X}",
                code
            );
        }
    }
}

#[test]
fn punctuation_is_four_characters() {
    for code in 0..=0x10ffffu32 {
        if let Some(c) = char::from_u32(code) {
            assert_eq!(structural(c), matches!(c, ':' | ',' | '|' | ';'));
        }
    }
}

#[test]
fn quotes_are_two_characters() {
    for code in 0..=0x10ffffu32 {
        if let Some(c) = char::from_u32(code) {
            assert_eq!(quote(c), matches!(c, '\'' | '"'));
        }
    }
}

#[test]
fn three_characters_are_forbidden_in_quotes() {
    for code in 0..=0x10ffffu32 {
        if let Some(c) = char::from_u32(code) {
            assert_eq!(quote_disallowed(c), matches!(c, '\n' | '\t' | '\r'));
        }
    }
}

#[test]
fn unescape_changes_n_and_t_only() {
    assert_eq!(unescape('n'), '\n');
    assert_eq!(unescape('t'), '\t');
    for code in 0..=0x10ffffu32 {
        if let Some(c) = char::from_u32(code) {
            if c != 'n' && c != 't' {
                assert_eq!(unescape(c), c);
            }
        }
    }
}
