use unnest_ndjson::bytes::{hex_digit, primitive_end, short_escape, whitespace};
use unnest_ndjson::machine::{Escape, Lex};
use unnest_ndjson::strings::string_byte;
use unnest_ndjson::{HeaderStyle, UnnestError};

#[test]
fn whitespace_is_ascii_whitespace() {
    for b in 0..=255u8 {
        assert_eq!(whitespace(b), b.is_ascii_whitespace(), "{}", b);
    }
}

#[test]
fn what_ends_a_primitive() {
    for b in 0..=255u8 {
        let expected = b.is_ascii_whitespace()
            || b == b','
            || b == b']'
            || b == b'}'
            || b == b':'
            || b.is_ascii_control();
        assert_eq!(primitive_end(b), expected, "{}", b);
    }
}

#[test]
fn hexadecimal_digits() {
    for b in 0..=255u8 {
        assert_eq!(hex_digit(b), b.is_ascii_hexdigit(), "{}", b);
    }
}

#[test]
fn short_escapes() {
    for b in 0..=255u8 {
        assert_eq!(short_escape(b), b"\"/\\bfrnt".contains(&b), "{}", b);
    }
}

#[test]
fn one_byte_of_a_string() {
    let mut v = Vec::new();
    assert!(matches!(
        string_byte(Escape::Plain, b'a', &mut v),
        Ok(Lex::Open(Escape::Plain))
    ));
    assert!(matches!(
        string_byte(Escape::Plain, b'\\', &mut v),
        Ok(Lex::Open(Escape::Escaped))
    ));
    assert_eq!(v, b"a");
    assert!(matches!(
        string_byte(Escape::Escaped, b'u', &mut v),
        Ok(Lex::Open(Escape::Hex(4)))
    ));
    assert_eq!(v, b"a\\u");
    assert!(matches!(
        string_byte(Escape::Hex(4), b'0', &mut v),
        Ok(Lex::Open(Escape::Hex(3)))
    ));
    assert!(matches!(
        string_byte(Escape::Hex(1), b'F', &mut v),
        Ok(Lex::Open(Escape::Plain))
    ));
    assert!(matches!(
        string_byte(Escape::Hex(2), b'x', &mut v),
        Err(UnnestError::InvalidSyntax)
    ));
    assert!(matches!(
        string_byte(Escape::Escaped, b'x', &mut v),
        Err(UnnestError::InvalidSyntax)
    ));
    assert!(matches!(
        string_byte(Escape::Plain, b'\n', &mut v),
        Err(UnnestError::InvalidSyntax)
    ));
    assert_eq!(v, b"a\\u0F");
    assert!(matches!(
        string_byte(Escape::Plain, b'"', &mut v),
        Ok(Lex::Closed)
    ));
    assert_eq!(v, b"a\\u0F\"");
}

#[test]
fn styles_compare() {
    assert!(HeaderStyle::Bare == HeaderStyle::Bare);
    assert!(HeaderStyle::Bare != HeaderStyle::PathArray);
    let copy = HeaderStyle::PathArray;
    assert!(copy == HeaderStyle::PathArray);
}
