//! The component codec: percent-encoding and percent-decoding of one path
//! segment's raw bytes.
//!
//! Encoding maps every escaped byte to `%` followed by two uppercase hex
//! digits and passes every other byte through unchanged; it cannot fail.
//! Decoding is lenient: a well-formed `%XX` triple becomes the byte it
//! names, and a `%` that is not followed by two hex digits passes through
//! literally together with the rest of the input.

use vstd::prelude::*;
use vstd::utf8::encode_utf8;

use crate::reserved::byte_is_escaped;
use crate::reserved::is_escaped_byte;
use crate::reserved::is_reserved_byte;

verus! {

/// True for ASCII hex digits, upper or lower case.
pub open spec fn is_hex_digit(b: u8) -> bool {
    (0x30 <= b && b <= 0x39) || (0x41 <= b && b <= 0x46) || (0x61 <= b && b <= 0x66)
}

/// The numeric value of an ASCII hex digit.
pub open spec fn hex_digit_value(b: u8) -> u8
    recommends
        is_hex_digit(b),
{
    if 0x30 <= b && b <= 0x39 {
        (b - 0x30) as u8
    } else if 0x41 <= b && b <= 0x46 {
        (b - 0x37) as u8
    } else {
        (b - 0x57) as u8
    }
}

/// The uppercase ASCII hex digit for a value below 16.
pub open spec fn upper_hex_digit(d: u8) -> u8
    recommends
        d < 16,
{
    if d < 10 {
        (0x30 + d) as u8
    } else {
        (0x37 + d) as u8
    }
}

/// The `%XX` form of a byte: `%` followed by two uppercase hex digits.
pub open spec fn escape_triple(b: u8) -> Seq<u8> {
    seq![0x25u8, upper_hex_digit(b / 16), upper_hex_digit(b % 16)]
}

/// The encoding of one byte: its `%XX` form when it is escaped, the byte
/// itself otherwise.
pub open spec fn encoded_byte(b: u8) -> Seq<u8> {
    if is_escaped_byte(b) {
        escape_triple(b)
    } else {
        seq![b]
    }
}

/// The percent-encoded form of a byte sequence: the concatenation of the
/// encodings of its bytes.
pub open spec fn encoded_bytes(s: Seq<u8>) -> Seq<u8>
    decreases s.len(),
{
    if s.len() == 0 {
        Seq::empty()
    } else {
        encoded_byte(s[0]) + encoded_bytes(s.drop_first())
    }
}

/// The lenient percent-decoding of a byte sequence: each well-formed `%XX`
/// triple becomes one byte; every other byte passes through unchanged.
pub open spec fn decoded_bytes(s: Seq<u8>) -> Seq<u8>
    decreases s.len(),
{
    if s.len() == 0 {
        Seq::empty()
    } else if s[0] == 0x25 && s.len() >= 3 && is_hex_digit(s[1]) && is_hex_digit(s[2]) {
        seq![(hex_digit_value(s[1]) * 16 + hex_digit_value(s[2])) as u8] + decoded_bytes(
            s.skip(3),
        )
    } else {
        seq![s[0]] + decoded_bytes(s.drop_first())
    }
}

/// Appending a byte to the input appends that byte's encoding to the output.
pub proof fn lemma_encoded_bytes_push(s: Seq<u8>, b: u8)
    ensures
        encoded_bytes(s.push(b)) == encoded_bytes(s) + encoded_byte(b),
    decreases s.len(),
{
    let p = s.push(b);
    if s.len() == 0 {
        assert(p[0] == b);
        assert(p.drop_first() =~= Seq::<u8>::empty());
        assert(encoded_bytes(p.drop_first()) == Seq::<u8>::empty());
        assert(encoded_bytes(p) =~= encoded_bytes(s) + encoded_byte(b));
    } else {
        assert(p[0] == s[0]);
        assert(p.drop_first() =~= s.drop_first().push(b));
        lemma_encoded_bytes_push(s.drop_first(), b);
        assert(encoded_bytes(p) == encoded_byte(s[0]) + encoded_bytes(s.drop_first().push(b)));
        assert(encoded_bytes(p) =~= encoded_bytes(s) + encoded_byte(b));
    }
}

/// Encoder output is plain ASCII and never holds a bare `/`: the separator
/// is in the reserved byte set, so it only ever appears as `%2F`.
pub proof fn lemma_encoded_bytes_ascii(s: Seq<u8>)
    ensures
        forall|i: int|
            0 <= i < encoded_bytes(s).len() ==> {
                &&& #[trigger] encoded_bytes(s)[i] < 0x80
                &&& encoded_bytes(s)[i] != 0x2f
            },
    decreases s.len(),
{
    if s.len() > 0 {
        lemma_encoded_bytes_ascii(s.drop_first());
        let e0 = encoded_byte(s[0]);
        let rest = encoded_bytes(s.drop_first());
        assert(encoded_bytes(s) == e0 + rest);
        assert forall|i: int| 0 <= i < encoded_bytes(s).len() implies {
            &&& #[trigger] encoded_bytes(s)[i] < 0x80
            &&& encoded_bytes(s)[i] != 0x2f
        } by {
            if i < e0.len() {
                assert(encoded_bytes(s)[i] == e0[i]);
                if is_escaped_byte(s[0]) {
                    assert(s[0] / 16 < 16);
                    assert(s[0] % 16 < 16);
                }
            } else {
                assert(encoded_bytes(s)[i] == rest[i - e0.len()]);
            }
        }
    }
}

/// When the input holds no backslash, neither does the encoder output.
pub proof fn lemma_encoded_bytes_no_backslash(s: Seq<u8>)
    requires
        forall|i: int| 0 <= i < s.len() ==> #[trigger] s[i] != 0x5c,
    ensures
        forall|i: int|
            0 <= i < encoded_bytes(s).len() ==> #[trigger] encoded_bytes(s)[i] != 0x5c,
    decreases s.len(),
{
    if s.len() > 0 {
        lemma_encoded_bytes_no_backslash(s.drop_first());
        let e0 = encoded_byte(s[0]);
        let rest = encoded_bytes(s.drop_first());
        assert(encoded_bytes(s) == e0 + rest);
        assert forall|i: int|
            0 <= i < encoded_bytes(s).len() implies #[trigger] encoded_bytes(s)[i] != 0x5c by {
            if i < e0.len() {
                assert(encoded_bytes(s)[i] == e0[i]);
                if is_escaped_byte(s[0]) {
                    assert(s[0] / 16 < 16);
                    assert(s[0] % 16 < 16);
                }
            } else {
                assert(encoded_bytes(s)[i] == rest[i - e0.len()]);
            }
        }
    }
}

/// Decoding inverts encoding: for every byte sequence, encoding it and then
/// decoding the result gives back the original bytes.
pub proof fn lemma_decode_inverts_encode(s: Seq<u8>)
    ensures
        decoded_bytes(encoded_bytes(s)) == s,
    decreases s.len(),
{
    if s.len() > 0 {
        let b = s[0];
        let e = encoded_bytes(s);
        lemma_decode_inverts_encode(s.drop_first());
        if is_escaped_byte(b) {
            assert(b / 16 < 16);
            assert(b % 16 < 16);
            assert(is_hex_digit(upper_hex_digit(b / 16)));
            assert(is_hex_digit(upper_hex_digit(b % 16)));
            assert(hex_digit_value(upper_hex_digit(b / 16)) == b / 16);
            assert(hex_digit_value(upper_hex_digit(b % 16)) == b % 16);
            assert(b / 16 * 16 + b % 16 == b) by {
                vstd::arithmetic::div_mod::lemma_fundamental_div_mod(b as int, 16);
            }
            assert(e.skip(3) =~= encoded_bytes(s.drop_first()));
            assert(decoded_bytes(e) =~= s);
        } else {
            assert(b != 0x25);
            assert(e.drop_first() =~= encoded_bytes(s.drop_first()));
            assert(decoded_bytes(e) =~= s);
        }
    }
}

/// Encoding a sequence made only of unescaped bytes is a no-op.
pub proof fn lemma_encode_unescaped_identity(s: Seq<u8>)
    requires
        forall|i: int| 0 <= i < s.len() ==> !is_escaped_byte(#[trigger] s[i]),
    ensures
        encoded_bytes(s) == s,
    decreases s.len(),
{
    if s.len() > 0 {
        lemma_encode_unescaped_identity(s.drop_first());
        assert(encoded_bytes(s) =~= s);
    }
}

/// Every byte of the reserved byte set encodes to its `%XX` form, with
/// uppercase hex digits, and `:` is never escaped.
pub proof fn lemma_reserved_set_completeness(b: u8)
    ensures
        is_reserved_byte(b) ==> encoded_byte(b) == escape_triple(b),
        encoded_byte(0x3a) == seq![0x3au8],
{
}

/// Decides whether a byte is an ASCII hex digit.
fn byte_is_hex_digit(b: u8) -> (r: bool)
    ensures
        r == is_hex_digit(b),
{
    (0x30 <= b && b <= 0x39) || (0x41 <= b && b <= 0x46) || (0x61 <= b && b <= 0x66)
}

/// The numeric value of an ASCII hex digit.
fn hex_value(b: u8) -> (r: u8)
    requires
        is_hex_digit(b),
    ensures
        r == hex_digit_value(b),
        r < 16,
{
    if b <= 0x39 {
        b - 0x30
    } else if b <= 0x46 {
        b - 0x37
    } else {
        b - 0x57
    }
}

/// The uppercase ASCII hex digit for a value below 16.
fn upper_hex(d: u8) -> (r: u8)
    requires
        d < 16,
    ensures
        r == upper_hex_digit(d),
{
    if d < 10 {
        0x30 + d
    } else {
        0x37 + d
    }
}

/// Appends the encoding of one byte to the output buffer.
fn push_encoded_byte(out: &mut Vec<u8>, b: u8)
    ensures
        final(out)@ == old(out)@ + encoded_byte(b),
{
    if byte_is_escaped(b) {
        out.push(0x25);
        out.push(upper_hex(b / 16));
        out.push(upper_hex(b % 16));
        assert(final(out)@ =~= old(out)@ + encoded_byte(b));
    } else {
        out.push(b);
        assert(final(out)@ =~= old(out)@ + encoded_byte(b));
    }
}

/// Percent-encodes a byte sequence into its encoded bytes.
pub(crate) fn encode_bytes_vec(component: &Vec<u8>) -> (r: Vec<u8>)
    ensures
        r@ == encoded_bytes(component@),
{
    let mut out: Vec<u8> = Vec::new();
    let mut i: usize = 0;
    while i < component.len()
        invariant
            i <= component.len(),
            out@ == encoded_bytes(component@.take(i as int)),
        decreases component.len() - i,
    {
        proof {
            lemma_encoded_bytes_push(component@.take(i as int), component@[i as int]);
            assert(component@.take(i as int).push(component@[i as int]) =~= component@.take(
                i as int + 1,
            ));
        }
        push_encoded_byte(&mut out, component[i]);
        i += 1;
    }
    proof {
        assert(component@.take(component.len() as int) =~= component@);
    }
    out
}

/// Leniently percent-decodes a byte sequence.
pub(crate) fn decode_bytes_vec(encoded: &Vec<u8>) -> (r: Vec<u8>)
    ensures
        r@ == decoded_bytes(encoded@),
{
    let mut out: Vec<u8> = Vec::new();
    let mut i: usize = 0;
    proof {
        assert(encoded@.skip(0) =~= encoded@);
    }
    while i < encoded.len()
        invariant
            i <= encoded.len(),
            decoded_bytes(encoded@) == out@ + decoded_bytes(encoded@.skip(i as int)),
        decreases encoded.len() - i,
    {
        let ghost suffix = encoded@.skip(i as int);
        let b = encoded[i];
        if b == 0x25 && encoded.len() - i > 2 && byte_is_hex_digit(encoded[i + 1])
            && byte_is_hex_digit(encoded[i + 2]) {
            let hi = hex_value(encoded[i + 1]);
            let lo = hex_value(encoded[i + 2]);
            out.push(16 * hi + lo);
            proof {
                assert(suffix.len() >= 3);
                assert(suffix[0] == b && suffix[1] == encoded@[i + 1] && suffix[2] == encoded@[i
                    + 2]);
                assert(suffix.skip(3) =~= encoded@.skip(i as int + 3));
            }
            i += 3;
        } else {
            out.push(b);
            proof {
                assert(suffix[0] == b);
                if suffix.len() >= 3 {
                    assert(suffix[1] == encoded@[i + 1] && suffix[2] == encoded@[i + 2]);
                }
                assert(suffix.drop_first() =~= encoded@.skip(i as int + 1));
            }
            i += 1;
        }
    }
    proof {
        assert(encoded@.skip(encoded.len() as int) =~= Seq::<u8>::empty());
    }
    out
}

/// Relies on `String::from_utf8`: on input that is valid UTF-8 it returns
/// `Ok` with the string whose bytes are exactly the input; ASCII bytes are
/// always valid UTF-8, so under this precondition the fallback arm is never
/// taken.
#[verifier::external_body]
pub(crate) fn string_from_ascii(bytes: Vec<u8>) -> (r: String)
    requires
        forall|i: int| 0 <= i < bytes@.len() ==> bytes@[i] < 0x80,
    ensures
        encode_utf8(r@) == bytes@,
{
    match String::from_utf8(bytes) {
        Ok(s) => s,
        Err(_) => String::new(),
    }
}

/// Percent-encodes one path segment's raw bytes into an ASCII string.
/// Every escaped byte appears as `%` plus two uppercase hex digits; every
/// other byte passes through unchanged.
pub fn encode_path_component(path_component: &Vec<u8>) -> (r: String)
    ensures
        encode_utf8(r@) == encoded_bytes(path_component@),
{
    let bytes = encode_bytes_vec(path_component);
    proof {
        lemma_encoded_bytes_ascii(path_component@);
    }
    string_from_ascii(bytes)
}

/// Leniently percent-decodes one path segment: each well-formed `%XX`
/// triple in the string's UTF-8 bytes becomes the byte it names, and every
/// other byte passes through unchanged.
pub fn decode_path_component(encoded_path_component: &str) -> (r: Vec<u8>)
    ensures
        r@ == decoded_bytes(encode_utf8(encoded_path_component@)),
{
    let bytes = encoded_path_component.as_bytes_vec();
    decode_bytes_vec(&bytes)
}

} // verus!
