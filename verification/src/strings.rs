//! Conversions between strings and their on-disk UTF-8 bytes.

use vstd::prelude::*;
use vstd::slice::slice_to_vec;
use vstd::utf8::decode_utf8;
use vstd::utf8::encode_utf8;
use vstd::utf8::valid_utf8;

verus! {

/// The UTF-8 bytes of a string, as they are written to a log file.
pub fn string_to_bytes(s: &String) -> (r: Vec<u8>)
    ensures
        r@ == encode_utf8(s@),
{
    slice_to_vec(s.as_str().as_bytes())
}

/// Relies on String::from_utf8: it returns the string whose characters the
/// bytes encode exactly when the bytes are valid UTF-8, and an error
/// otherwise.
#[verifier::external_body]
pub(crate) fn bytes_to_string(bytes: Vec<u8>) -> (r: Option<String>)
    ensures
        match r {
            Some(s) => valid_utf8(bytes@) && s@ == decode_utf8(bytes@),
            None => !valid_utf8(bytes@),
        },
{
    match String::from_utf8(bytes) {
        Ok(s) => Some(s),
        Err(_) => None,
    }
}

/// The tombstone marker byte on its own is not valid UTF-8, so no stored
/// string value serializes to it.
pub proof fn lemma_deleted_code_not_utf8()
    ensures
        !valid_utf8(seq![crate::entry::DELETED_CODE]),
{
    let b = seq![crate::entry::DELETED_CODE];
    assert(b[0] == 255u8);
    assert(!vstd::utf8::valid_leading_and_continuation_bytes_first_codepoint(b));
}

} // verus!
