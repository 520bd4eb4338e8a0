//! Conversions between bytes and text that the standard library makes.

use vstd::prelude::*;
use vstd::string::StringSliceAdditionalSpecFns;
use vstd::utf8::{
    decode_utf8, is_char_boundary, is_char_boundary_iff_not_is_continuation_byte, valid_utf8,
    valid_utf8_split,
};
use core::str::Utf8Error;

verus! {

/// `core::str::Utf8Error`: why a byte string is not UTF-8. Nothing inside it
/// is visible to the proofs.
#[verifier::external_type_specification]
#[verifier::external_body]
pub struct ExUtf8Error(Utf8Error);

/// Trusted of `core::str::from_utf8`: it succeeds exactly on valid UTF-8, and
/// the string that it returns is made of the very bytes that it was given.
pub assume_specification[ core::str::from_utf8 ](v: &[u8]) -> (r: Result<&str, Utf8Error>)
    ensures
        r is Ok <==> valid_utf8(v@),
        r matches Ok(s) ==> s.spec_bytes() == v@,
;

/// The text that `String::from_utf8_lossy` makes of a byte string: what
/// the bytes encode, with U+FFFD in place of what is not UTF-8. It is named
/// here, not defined.
pub uninterp spec fn utf8_lossy(bytes: Seq<u8>) -> Seq<char>;

/// Calls `String::from_utf8_lossy`. Trusted: the result is the text named
/// `utf8_lossy`, which depends on the bytes alone, and for valid UTF-8 it is
/// the text that the bytes encode.
#[verifier::external_body]
pub(crate) fn lossy_string(bytes: &[u8]) -> (s: String)
    ensures
        s@ == utf8_lossy(bytes@),
        valid_utf8(bytes@) ==> s@ == decode_utf8(bytes@),
{
    String::from_utf8_lossy(bytes).into_owned()
}

/// Calls `to_string` on a `Utf8Error`, for the message that the standard
/// library gives it. Nothing is claimed of the text.
#[verifier::external_body]
pub(crate) fn utf8_error_message(error: &Utf8Error) -> String {
    error.to_string()
}

/// In valid UTF-8 an ASCII byte is a character of its own: a character
/// starts at it and another, or the end, follows it.
pub proof fn lemma_ascii_byte_boundaries(bytes: Seq<u8>, i: int)
    requires
        valid_utf8(bytes),
        0 <= i < bytes.len(),
        bytes[i] <= 0x7f,
    ensures
        is_char_boundary(bytes, i),
        valid_utf8(bytes.subrange(0, i)),
        valid_utf8(bytes.subrange(i, bytes.len() as int)),
        is_char_boundary(bytes.subrange(i, bytes.len() as int), 1),
        valid_utf8(bytes.subrange(i + 1, bytes.len() as int)),
{
    is_char_boundary_iff_not_is_continuation_byte(bytes, i);
    valid_utf8_split(bytes, i);
    let tail = bytes.subrange(i, bytes.len() as int);
    assert(tail[0] == bytes[i]);
    reveal_with_fuel(is_char_boundary, 2);
    assert(is_char_boundary(tail, 1));
    valid_utf8_split(tail, 1);
    assert(tail.subrange(1, tail.len() as int) =~= bytes.subrange(i + 1, bytes.len() as int));
}

} // verus!
