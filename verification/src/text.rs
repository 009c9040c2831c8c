//! Byte/text conversions shared by the storage modules.

use vstd::prelude::*;

verus! {

use vstd::utf8::{valid_utf8, decode_utf8};

/// Relies on `String::from_utf8`: it succeeds exactly on valid UTF-8
/// input and returns the string made of those bytes, whose characters
/// are the UTF-8 decoding of the bytes.
#[verifier::external_body]
pub(crate) fn bytes_to_string(v: Vec<u8>) -> (r: Option<String>)
    ensures
        r matches Some(s) ==> valid_utf8(v@) && s@ == decode_utf8(v@),
        r is None ==> !valid_utf8(v@),
{
    String::from_utf8(v).ok()
}

} // verus!
