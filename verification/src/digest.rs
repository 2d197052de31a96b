//! Content digests: SHA-1 over a byte buffer, rendered as 40 hex characters.

use vstd::prelude::*;

verus! {

/// The SHA-1 digest of `bytes`, as the 40 lower-case hex characters that
/// `sha1_smol` renders it with.
pub uninterp spec fn sha1_hex(bytes: Seq<u8>) -> Seq<u8>;

/// Length of a rendered digest.
pub open spec fn digest_len() -> nat {
    40
}

/// `b` is one of `0-9a-f`.
pub open spec fn is_hex_digit(b: u8) -> bool {
    (0x30 <= b <= 0x39) || (0x61 <= b <= 0x66)
}

/// `s` has the shape of a rendered digest: 40 lower-case hex characters.
pub open spec fn is_digest(s: Seq<u8>) -> bool {
    &&& s.len() == digest_len()
    &&& forall|i: int| 0 <= i < s.len() ==> is_hex_digit(#[trigger] s[i])
}

/// Calls `sha1_smol::Sha1::new`, `Sha1::update` once with `bytes`, and renders
/// `Sha1::digest` through its `Display` impl, which writes each of the five
/// state words as eight lower-case hex characters. Trusted: the result is a
/// function of `bytes` alone and has the shape of a digest.
#[verifier::external_body]
fn sha1_hex_of(bytes: &[u8]) -> (out: Vec<u8>)
    ensures
        out@ == sha1_hex(bytes@),
        is_digest(out@),
{
    let mut hasher = sha1_smol::Sha1::new();
    hasher.update(bytes);
    hasher.digest().to_string().into_bytes()
}

/// The digest of a byte buffer: the identity and storage key of the object
/// that the buffer encodes.
pub fn digest(bytes: &[u8]) -> (out: Vec<u8>)
    ensures
        out@ == sha1_hex(bytes@),
        is_digest(out@),
{
    sha1_hex_of(bytes)
}

} // verus!
