//! The bytes the grammar gives a meaning to, and the classes it sorts bytes
//! into.

use vstd::prelude::*;

verus! {

pub const OPEN_BRACE: u8 = 0x7b;

pub const CLOSE_BRACE: u8 = 0x7d;

pub const OPEN_BRACKET: u8 = 0x5b;

pub const CLOSE_BRACKET: u8 = 0x5d;

pub const COMMA: u8 = 0x2c;

pub const COLON: u8 = 0x3a;

pub const QUOTE: u8 = 0x22;

pub const BACKSLASH: u8 = 0x5c;

pub const SLASH: u8 = 0x2f;

pub const SPACE: u8 = 0x20;

pub const TAB: u8 = 0x09;

pub const LINE_FEED: u8 = 0x0a;

pub const FORM_FEED: u8 = 0x0c;

pub const CARRIAGE_RETURN: u8 = 0x0d;

pub const DELETE: u8 = 0x7f;

pub const DIGIT_ZERO: u8 = 0x30;

pub const DIGIT_NINE: u8 = 0x39;

pub const UPPER_A: u8 = 0x41;

pub const UPPER_F: u8 = 0x46;

pub const LOWER_A: u8 = 0x61;

pub const LOWER_B: u8 = 0x62;

pub const LOWER_F: u8 = 0x66;

pub const LOWER_N: u8 = 0x6e;

pub const LOWER_R: u8 = 0x72;

pub const LOWER_T: u8 = 0x74;

pub const LOWER_U: u8 = 0x75;

/// ASCII whitespace: space, tab, line feed, form feed, carriage return.
pub open spec fn is_whitespace(b: u8) -> bool {
    b == SPACE || b == TAB || b == LINE_FEED || b == FORM_FEED || b == CARRIAGE_RETURN
}

/// An ASCII control byte: below the space, or the delete byte.
pub open spec fn is_control(b: u8) -> bool {
    b < SPACE || b == DELETE
}

/// A byte that ends a primitive: whitespace, a control byte, or one of
/// `,` `]` `}` `:`.
pub open spec fn ends_primitive(b: u8) -> bool {
    is_whitespace(b) || is_control(b) || b == COMMA || b == CLOSE_BRACKET || b == CLOSE_BRACE || b
        == COLON
}

/// An ASCII hexadecimal digit, in either case.
pub open spec fn is_hex_digit(b: u8) -> bool {
    (DIGIT_ZERO <= b <= DIGIT_NINE) || (UPPER_A <= b <= UPPER_F) || (LOWER_A <= b <= LOWER_F)
}

/// A byte that may follow a backslash by itself: one of `"` `/` `\` `b` `f`
/// `r` `n` `t`.
pub open spec fn is_short_escape(b: u8) -> bool {
    b == QUOTE || b == SLASH || b == BACKSLASH || b == LOWER_B || b == LOWER_F || b == LOWER_R || b
        == LOWER_N || b == LOWER_T
}

/// A raw line break, which no string may hold.
pub open spec fn is_line_break(b: u8) -> bool {
    b == CARRIAGE_RETURN || b == LINE_FEED
}

/// A byte that the scan of a string has to look at: the quote, the
/// backslash, or a line break. All others are copied as they come.
pub open spec fn stops_string(b: u8) -> bool {
    b == QUOTE || b == BACKSLASH || is_line_break(b)
}

/// Whether `b` is ASCII whitespace.
pub fn whitespace(b: u8) -> (r: bool)
    ensures
        r == is_whitespace(b),
{
    b == SPACE || b == TAB || b == LINE_FEED || b == FORM_FEED || b == CARRIAGE_RETURN
}

/// Whether `b` ends a primitive.
pub fn primitive_end(b: u8) -> (r: bool)
    ensures
        r == ends_primitive(b),
{
    b <= SPACE || b == DELETE || b == COMMA || b == CLOSE_BRACKET || b == CLOSE_BRACE || b == COLON
}

/// Whether `b` is an ASCII hexadecimal digit.
pub fn hex_digit(b: u8) -> (r: bool)
    ensures
        r == is_hex_digit(b),
{
    (DIGIT_ZERO <= b && b <= DIGIT_NINE) || (UPPER_A <= b && b <= UPPER_F) || (LOWER_A <= b && b
        <= LOWER_F)
}

/// Whether `b` may follow a backslash by itself.
pub fn short_escape(b: u8) -> (r: bool)
    ensures
        r == is_short_escape(b),
{
    b == QUOTE || b == SLASH || b == BACKSLASH || b == LOWER_B || b == LOWER_F || b == LOWER_R || b
        == LOWER_N || b == LOWER_T
}

} // verus!
