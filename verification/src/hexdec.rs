//! Decoding a textual bytecode string into raw bytes: whitespace stripping and
//! hexadecimal decoding, at the input edge of the pipeline.

use vstd::prelude::*;

verus! {

/// Characters removed from a bytecode string before hex decoding.
pub open spec fn spec_is_stripped(c: char) -> bool {
    c == '\n' || c == ' ' || c == '\r'
}

/// The bytecode string with newlines, spaces and carriage returns removed.
pub open spec fn spec_sanitized(s: Seq<char>) -> Seq<char> {
    s.filter(|c: char| !spec_is_stripped(c))
}

pub open spec fn spec_hex_val(c: char) -> Option<u8> {
    if '0' <= c <= '9' {
        Some((c as u8 - '0' as u8) as u8)
    } else if 'a' <= c <= 'f' {
        Some((c as u8 - 'a' as u8 + 10) as u8)
    } else if 'A' <= c <= 'F' {
        Some((c as u8 - 'A' as u8 + 10) as u8)
    } else {
        None
    }
}

/// A string decodes successfully iff its length is even and every character is
/// a hexadecimal digit.
pub open spec fn spec_hex_ok(s: Seq<char>) -> bool {
    s.len() % 2 == 0 && forall|i: int| 0 <= i < s.len() ==> spec_hex_val(s[i]) is Some
}

/// The byte sequence a valid hexadecimal string decodes to.
pub open spec fn spec_hex_decode(s: Seq<char>) -> Seq<u8> {
    Seq::new(
        s.len() / 2,
        |i: int|
            (spec_hex_val(s[2 * i]).unwrap() * 16 + spec_hex_val(s[2 * i + 1]).unwrap()) as u8,
    )
}

/// Relies on str::replace with an array-of-chars pattern: every occurrence of
/// one of the pattern characters is removed, all other characters are kept in
/// order.
#[verifier::external_body]
pub fn strip_whitespace(s: &str) -> (r: String)
    ensures
        r@ == spec_sanitized(s@),
{
    s.replace(['\n', ' ', '\r'], "")
}

/// Relies on hex::decode: returns the decoded bytes exactly when the input has
/// even length and consists of hexadecimal digits (two digits per byte, high
/// digit first), and an error otherwise.
#[verifier::external_body]
pub fn hex_decode(s: &str) -> (r: Option<Vec<u8>>)
    ensures
        match r {
            Some(v) => spec_hex_ok(s@) && v@ == spec_hex_decode(s@),
            None => !spec_hex_ok(s@),
        },
{
    match hex::decode(s) {
        Ok(v) => Some(v),
        Err(_) => None,
    }
}

} // verus!
