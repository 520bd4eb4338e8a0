//! SHA-256 and lowercase hexadecimal text, both computed by outside crates.

use vstd::prelude::*;
use openssl::error::ErrorStack;

verus! {

/// `openssl::error::ErrorStack`: what OpenSSL reports when a call fails.
/// Nothing inside it is visible to the proofs.
#[verifier::external_type_specification]
#[verifier::external_body]
pub struct ExErrorStack(ErrorStack);

/// The SHA-256 digest of a byte string, as OpenSSL computes it. It is named
/// here, not defined: nothing is known of it but that equal byte strings
/// have equal digests.
pub uninterp spec fn sha256(data: Seq<u8>) -> Seq<u8>;

/// Calls `openssl::hash::hash` with `MessageDigest::sha256()`. Trusted: when
/// OpenSSL returns a digest, it is the SHA-256 digest of exactly `data`. OpenSSL
/// may also fail, and nothing is claimed about when.
#[verifier::external_body]
pub(crate) fn sha256_digest(data: &[u8]) -> (r: Result<Vec<u8>, ErrorStack>)
    ensures
        r matches Ok(d) ==> d@ == sha256(data@),
{
    match openssl::hash::hash(openssl::hash::MessageDigest::sha256(), data) {
        Ok(d) => Ok(d.to_vec()),
        Err(e) => Err(e),
    }
}

/// The lowercase hexadecimal digit for a value below sixteen.
pub open spec fn hex_digit(n: int) -> char {
    if n < 10 {
        ('0' as int + n) as char
    } else {
        ('a' as int + n - 10) as char
    }
}

/// The lowercase hexadecimal text of a byte string: two digits per byte, the
/// high half first.
pub open spec fn hex_encode(data: Seq<u8>) -> Seq<char> {
    Seq::new(
        2 * data.len(),
        |i: int|
            if i % 2 == 0 {
                hex_digit(data[i / 2] as int / 16)
            } else {
                hex_digit(data[i / 2] as int % 16)
            },
    )
}

/// Calls `hex::encode`. Trusted: the string holds two lowercase hexadecimal
/// digits for each byte of `data`, in order, the high half of a byte first.
#[verifier::external_body]
pub(crate) fn hex_string(data: &[u8]) -> (s: String)
    ensures
        s@ == hex_encode(data@),
{
    hex::encode(data)
}

/// The value of a lowercase hexadecimal digit.
pub open spec fn hex_value(c: char) -> int {
    if '0' <= c && c <= '9' {
        c as int - '0' as int
    } else {
        c as int - 'a' as int + 10
    }
}

/// Different byte strings have different hexadecimal texts.
pub proof fn lemma_hex_encode_injective(a: Seq<u8>, b: Seq<u8>)
    requires
        hex_encode(a) == hex_encode(b),
    ensures
        a == b,
{
    assert(hex_encode(a).len() == 2 * a.len());
    assert(hex_encode(b).len() == 2 * b.len());
    assert forall|i: int| 0 <= i < a.len() implies a[i] == b[i] by {
        let x = a[i] as int;
        let y = b[i] as int;
        assert(hex_encode(a)[2 * i] == hex_digit(x / 16));
        assert(hex_encode(b)[2 * i] == hex_digit(y / 16));
        assert(hex_encode(a)[2 * i + 1] == hex_digit(x % 16));
        assert(hex_encode(b)[2 * i + 1] == hex_digit(y % 16));
        assert(hex_value(hex_digit(x / 16)) == x / 16);
        assert(hex_value(hex_digit(y / 16)) == y / 16);
        assert(hex_value(hex_digit(x % 16)) == x % 16);
        assert(hex_value(hex_digit(y % 16)) == y % 16);
    }
    assert(a =~= b);
}

} // verus!
