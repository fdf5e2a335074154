//! Trusted bindings to the base64 decoder and to the UTF-8 validation of
//! `String::from_utf8`.

use vstd::prelude::*;

verus! {

/// The bytes that the base64 decoder yields for a piece of text, or `None`
/// where the text is not valid base64.
pub uninterp spec fn base64_decoded(s: Seq<char>) -> Option<Seq<u8>>;

/// Relies on `base64::decode`: it accepts or rejects a piece of text, and the
/// bytes it yields depend on the characters alone.
#[verifier::external_body]
pub fn base64_decode(s: &str) -> (r: Option<Vec<u8>>)
    ensures
        match r {
            Some(b) => base64_decoded(s@) == Some(b@),
            None => base64_decoded(s@) is None,
        },
{
    match base64::decode(s) {
        Ok(b) => Some(b),
        Err(_) => None,
    }
}

/// Relies on `String::from_utf8`: it succeeds exactly on valid UTF-8 and
/// returns the decoded text.
#[verifier::external_body]
pub fn bytes_to_text(b: Vec<u8>) -> (r: Option<String>)
    ensures
        match r {
            Some(s) => vstd::utf8::valid_utf8(b@) && s@ == vstd::utf8::decode_utf8(b@),
            None => !vstd::utf8::valid_utf8(b@),
        },
{
    match String::from_utf8(b) {
        Ok(s) => Some(s),
        Err(_) => None,
    }
}

} // verus!
