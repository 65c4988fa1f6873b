//! The reserved byte set: which bytes of a path segment must be
//! percent-encoded.
//!
//! The set holds the ASCII control characters together with the RFC 3986
//! reserved punctuation that is unsafe inside a path segment, except `:`,
//! which stays bare so that drive tokens such as `c:` survive unchanged.
//! `%` itself is in the set: a bare `%` in encoder output would be taken
//! for the start of an escape by the decoder, and decoding would no longer
//! invert encoding. Every non-ASCII byte is escaped as well, so encoder
//! output is always plain ASCII.

use vstd::prelude::*;

verus! {

/// True for the bytes of the reserved byte set: ASCII control characters
/// (including DEL) and the punctuation that must never appear bare in an
/// encoded path segment.
pub open spec fn is_reserved_byte(b: u8) -> bool {
    ||| b < 0x20  // control characters
    ||| b == 0x7f  // DEL
    ||| b == 0x20  // ' '
    ||| b == 0x21  // '!'
    ||| b == 0x23  // '#'
    ||| b == 0x24  // '$'
    ||| b == 0x25  // '%'
    ||| b == 0x26  // '&'
    ||| b == 0x27  // '\''
    ||| b == 0x28  // '('
    ||| b == 0x29  // ')'
    ||| b == 0x2a  // '*'
    ||| b == 0x2b  // '+'
    ||| b == 0x2c  // ','
    ||| b == 0x2f  // '/'
    ||| b == 0x3b  // ';'
    ||| b == 0x3c  // '<'
    ||| b == 0x3d  // '='
    ||| b == 0x3e  // '>'
    ||| b == 0x3f  // '?'
    ||| b == 0x40  // '@'
    ||| b == 0x5b  // '['
    ||| b == 0x5d  // ']'
    ||| b == 0x5e  // '^'
    ||| b == 0x60  // '`'
    ||| b == 0x7b  // '{'
    ||| b == 0x7d  // '}'
}

/// True for the bytes the encoder escapes: the reserved byte set plus every
/// non-ASCII byte.
pub open spec fn is_escaped_byte(b: u8) -> bool {
    is_reserved_byte(b) || b >= 0x80
}

/// Decides membership in the reserved byte set.
pub fn byte_is_reserved(b: u8) -> (r: bool)
    ensures
        r == is_reserved_byte(b),
{
    b < 0x20 || b == 0x7f || b == 0x20 || b == 0x21 || (0x23 <= b && b <= 0x29) || b == 0x2a
        || b == 0x2b || b == 0x2c || b == 0x2f || b == 0x3b || (0x3c <= b && b <= 0x3f) || b == 0x40
        || b == 0x5b || b == 0x5d || b == 0x5e || b == 0x60 || b == 0x7b || b == 0x7d
}

/// Decides whether the encoder escapes this byte.
pub fn byte_is_escaped(b: u8) -> (r: bool)
    ensures
        r == is_escaped_byte(b),
{
    byte_is_reserved(b) || b >= 0x80
}

} // verus!
