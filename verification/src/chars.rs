//! Byte-level character classification.
//!
//! All classification is ASCII-oriented: a byte is a digit, a letter, an
//! operator character, whitespace, or a separator purely by its numeric
//! value.  The apostrophe is deliberately both an operator character and a
//! separator; which classification applies depends on which predicate a
//! caller consults first.
use vstd::prelude::*;

verus! {

pub const SPACE: u8 = 0x20;
pub const NEWLINE: u8 = 0x0a;
pub const TAB: u8 = 0x09;
pub const QUOTE: u8 = 0x22;
pub const LPAREN: u8 = 0x28;
pub const RPAREN: u8 = 0x29;
pub const LBRACE: u8 = 0x7b;
pub const RBRACE: u8 = 0x7d;
pub const COMMA: u8 = 0x2c;
pub const APOSTROPHE: u8 = 0x27;
pub const PLUS: u8 = 0x2b;
pub const MINUS: u8 = 0x2d;
pub const DOT: u8 = 0x2e;
pub const UPPER_E: u8 = 0x45;
pub const LOWER_E: u8 = 0x65;

/// '0' through '9'.
pub open spec fn digit(c: u8) -> bool {
    0x30 <= c <= 0x39
}

/// 'a'..'z' or 'A'..'Z' only.
pub open spec fn alpha(c: u8) -> bool {
    (0x61 <= c <= 0x7a) || (0x41 <= c <= 0x5a)
}

/// The fixed operator-character set: + - * / % ~ ! @ # $ ^ & | _ = < > ? . : backslash apostrophe.
pub open spec fn op_char(c: u8) -> bool {
    ||| c == PLUS
    ||| c == MINUS
    ||| c == 0x2a  // '*'
    ||| c == 0x2f  // '/'
    ||| c == 0x25  // '%'
    ||| c == 0x7e  // '~'
    ||| c == 0x21  // '!'
    ||| c == 0x40  // '@'
    ||| c == 0x23  // '#'
    ||| c == 0x24  // '$'
    ||| c == 0x5e  // '^'
    ||| c == 0x26  // '&'
    ||| c == 0x7c  // '|'
    ||| c == 0x5f  // '_'
    ||| c == 0x3d  // '='
    ||| c == 0x3c  // '<'
    ||| c == 0x3e  // '>'
    ||| c == 0x3f  // '?'
    ||| c == DOT
    ||| c == 0x3a  // ':'
    ||| c == 0x5c  // backslash
    ||| c == APOSTROPHE
}

/// Space, newline, tab only.
pub open spec fn ws(c: u8) -> bool {
    c == SPACE || c == NEWLINE || c == TAB
}

/// A byte that ends a token without being part of it.
pub open spec fn separator(c: u8) -> bool {
    ||| c == LPAREN
    ||| c == RPAREN
    ||| c == LBRACE
    ||| c == RBRACE
    ||| c == COMMA
    ||| c == APOSTROPHE
    ||| c == QUOTE
    ||| ws(c)
}

/// A byte the number tokenizer consumes: digit, sign, point or exponent marker.
pub open spec fn num_char(c: u8) -> bool {
    c == PLUS || c == MINUS || c == DOT || c == LOWER_E || c == UPPER_E || digit(c)
}

/// A byte that may continue a symbol token.
pub open spec fn sym_char(c: u8) -> bool {
    alpha(c) || op_char(c) || digit(c)
}

pub fn is_digit(c: u8) -> (r: bool)
    ensures
        r == digit(c),
{
    0x30 <= c && c <= 0x39
}

pub fn is_alpha(c: u8) -> (r: bool)
    ensures
        r == alpha(c),
{
    (0x61 <= c && c <= 0x7a) || (0x41 <= c && c <= 0x5a)
}

pub fn is_op(c: u8) -> (r: bool)
    ensures
        r == op_char(c),
{
    c == PLUS || c == MINUS || c == 0x2a || c == 0x2f || c == 0x25 || c == 0x7e || c == 0x21
        || c == 0x40 || c == 0x23 || c == 0x24 || c == 0x5e || c == 0x26 || c == 0x7c || c == 0x5f
        || c == 0x3d || c == 0x3c || c == 0x3e || c == 0x3f || c == DOT || c == 0x3a || c == 0x5c
        || c == APOSTROPHE
}

pub fn is_ws(c: u8) -> (r: bool)
    ensures
        r == ws(c),
{
    c == SPACE || c == NEWLINE || c == TAB
}

pub fn is_separator(c: u8) -> (r: bool)
    ensures
        r == separator(c),
{
    c == LPAREN || c == RPAREN || c == LBRACE || c == RBRACE || c == COMMA || c == APOSTROPHE
        || c == QUOTE || is_ws(c)
}

pub fn is_num_char(c: u8) -> (r: bool)
    ensures
        r == num_char(c),
{
    c == PLUS || c == MINUS || c == DOT || c == LOWER_E || c == UPPER_E || is_digit(c)
}

pub fn is_sym_char(c: u8) -> (r: bool)
    ensures
        r == sym_char(c),
{
    is_alpha(c) || is_op(c) || is_digit(c)
}

} // verus!
