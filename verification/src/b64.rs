//! Base64 transport encoding, called through the `base64` crate.
use vstd::prelude::*;
use vstd::utf8::is_ascii_chars;

verus! {

/// Length in characters of the standard (padded) base64 encoding of `n` bytes.
pub open spec fn b64_len(n: nat) -> nat {
    4 * ((n + 2) / 3)
}

/// The standard base64 encoding of a byte sequence, named so that contracts
/// can speak of it; the encoding itself is the `base64` crate's.
pub uninterp spec fn b64_std_of(bytes: Seq<u8>) -> Seq<char>;

/// What URL-safe base64 decoding (accepting both the unpadded and the padded
/// form) yields for a string: the decoded bytes, or nothing when the string
/// is not valid URL-safe base64.
pub uninterp spec fn b64url_decoded(s: Seq<char>) -> Option<Seq<u8>>;

/// A character of the standard base64 alphabet, or its padding.
pub open spec fn b64_std_char(c: char) -> bool {
    ('A' <= c && c <= 'Z') || ('a' <= c && c <= 'z') || ('0' <= c && c <= '9') || c == '+' || c
        == '/' || c == '='
}

/// Relies on `base64::encode` (standard alphabet, padded): the result is a
/// deterministic function of the input bytes, `4 * ceil(n / 3)` characters
/// long, drawn from the standard base64 alphabet (hence ASCII).
#[verifier::external_body]
pub(crate) fn b64_encode(bytes: &[u8]) -> (r: String)
    ensures
        r@ == b64_std_of(bytes@),
        r@.len() == b64_len(bytes@.len() as nat),
        is_ascii_chars(r@),
        forall|i: int| 0 <= i < r@.len() ==> b64_std_char(#[trigger] r@[i]),
{
    base64::encode(bytes)
}

/// Relies on `base64::decode_config` with the URL-safe alphabet: tries the
/// unpadded form first, then the padded one; the outcome is a deterministic
/// function of the input characters.
#[verifier::external_body]
pub(crate) fn b64url_decode(s: &str) -> (r: Option<Vec<u8>>)
    ensures
        match r {
            Some(v) => b64url_decoded(s@) == Some(v@),
            None => b64url_decoded(s@) is None,
        },
{
    match base64::decode_config(s, base64::URL_SAFE_NO_PAD).or_else(
        |_| base64::decode_config(s, base64::URL_SAFE),
    ) {
        Ok(v) => Some(v),
        Err(_) => None,
    }
}

} // verus!
