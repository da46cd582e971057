//! The content fingerprint: a SHA-256 digest of the raw text, rendered as
//! URL-safe unpadded base64. Both steps are outside computations, named
//! rather than restated.
use vstd::prelude::*;

verus! {

/// The SHA-256 digest of the UTF-8 bytes of a character sequence.
pub uninterp spec fn sha256_of(s: Seq<char>) -> Seq<u8>;

/// The URL-safe, unpadded base64 rendering of a byte sequence.
pub uninterp spec fn base64url_of(b: Seq<u8>) -> Seq<char>;

/// Relies on sha2::Sha256 (the `Digest::digest` one-shot): the digest is a
/// function of the input bytes alone and is 32 bytes long.
#[verifier::external_body]
fn sha256_digest(s: &str) -> (r: Vec<u8>)
    ensures
        r@ == sha256_of(s@),
        r@.len() == 32,
{
    <sha2::Sha256 as sha2::Digest>::digest(s.as_bytes()).to_vec()
}

/// Relies on base64's `URL_SAFE_NO_PAD` engine: the encoding is a function
/// of the input bytes alone. The engine aborts only when the output
/// length calculation overflows, so the input is kept small; it is only
/// ever a digest.
#[verifier::external_body]
fn base64_url_nopad(b: &Vec<u8>) -> (r: String)
    requires
        b@.len() <= 1024,
    ensures
        r@ == base64url_of(b@),
{
    base64::Engine::encode(&base64::prelude::BASE64_URL_SAFE_NO_PAD, b)
}

/// The fingerprint of a document's raw text.
pub open spec fn fingerprint_s(s: Seq<char>) -> Seq<char> {
    base64url_of(sha256_of(s))
}

/// Hashes the raw text and renders the digest.
pub fn sha256(s: &str) -> (r: String)
    ensures
        r@ == fingerprint_s(s@),
{
    let d = sha256_digest(s);
    base64_url_nopad(&d)
}

} // verus!
