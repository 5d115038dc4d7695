//! Percent-decoding of URL components.
use vstd::prelude::*;
use vstd::utf8::{decode_utf8, encode_utf8, valid_utf8};

verus! {

/// A byte that is an ASCII hexadecimal digit.
pub open spec fn is_hex_byte(b: u8) -> bool {
    (0x30 <= b && b <= 0x39) || (0x41 <= b && b <= 0x46) || (0x61 <= b && b <= 0x66)
}

/// The value of a hexadecimal digit byte.
pub open spec fn hex_byte_value(b: u8) -> int {
    if b <= 0x39 {
        b - 0x30
    } else if b <= 0x46 {
        b - 0x41 + 10
    } else {
        b - 0x61 + 10
    }
}

/// Percent-decoding of bytes: each `%` followed by two hexadecimal digits becomes the
/// byte they spell; every other byte, a lone `%` among them, stays.
pub open spec fn pct_decode_bytes(b: Seq<u8>) -> Seq<u8>
    decreases b.len(),
{
    if b.len() == 0 {
        Seq::empty()
    } else if b[0] == 0x25 && b.len() >= 3 && is_hex_byte(b[1]) && is_hex_byte(b[2]) {
        seq![(16 * hex_byte_value(b[1]) + hex_byte_value(b[2])) as u8] + pct_decode_bytes(b.skip(3))
    } else {
        seq![b[0]] + pct_decode_bytes(b.skip(1))
    }
}

/// The percent-decoded bytes of a string's UTF-8 encoding.
pub open spec fn pct_decoded(s: Seq<char>) -> Seq<u8> {
    pct_decode_bytes(encode_utf8(s))
}

/// Calls `percent_encoding::percent_decode_str` and then `decode_utf8`: the percent-decoded
/// bytes of the input, as text where they are valid UTF-8 and `None` where they are not.
#[verifier::external_body]
pub(crate) fn percent_decode_utf8(s: &str) -> (r: Option<String>)
    ensures
        r is Some <==> valid_utf8(pct_decoded(s@)),
        r is Some ==> r->0@ == decode_utf8(pct_decoded(s@)),
{
    match percent_encoding::percent_decode_str(s).decode_utf8() {
        Ok(text) => Some(text.to_string()),
        Err(_) => None,
    }
}

/// The percent-decoded text of `s`, or the empty text where it is not valid UTF-8.
pub open spec fn decoded_or_empty(s: Seq<char>) -> Seq<char> {
    if valid_utf8(pct_decoded(s)) {
        decode_utf8(pct_decoded(s))
    } else {
        Seq::empty()
    }
}

/// Percent-decodes `s`, giving the empty string where the result is not UTF-8.
pub fn percent_decode_or_empty(s: &str) -> (r: String)
    ensures
        r@ == decoded_or_empty(s@),
{
    match percent_decode_utf8(s) {
        Some(t) => t,
        None => String::new(),
    }
}

} // verus!
