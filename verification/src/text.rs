//! The UTF-8 boundary between stored byte strings and the string API.
use vstd::prelude::*;
use vstd::string::*;
use vstd::utf8::decode_utf8;
use vstd::utf8::encode_utf8;
use vstd::utf8::valid_utf8;

verus! {

/// Turns bytes back into a string.
///
/// Relies on `String::from_utf8`: it succeeds exactly when the bytes
/// are valid UTF-8, and the returned string then holds exactly those
/// bytes.
#[verifier::external_body]
pub fn string_from_bytes(v: Vec<u8>) -> (r: Option<String>)
    ensures
        match r {
            Some(s) => valid_utf8(v@) && s@ == decode_utf8(v@),
            None => !valid_utf8(v@),
        },
{
    match String::from_utf8(v) {
        Ok(s) => Some(s),
        Err(_) => None,
    }
}

/// The UTF-8 bytes of a string, as a fresh vector.
pub fn string_to_bytes(s: &String) -> (r: Vec<u8>)
    ensures
        r@ == encode_utf8(s@),
{
    vstd::slice::slice_to_vec(s.as_str().as_bytes())
}

} // verus!
