//! The cryptographic digest behind transaction and block hashes.

use sha2::Digest;
use vstd::prelude::*;

use crate::text::{append_hex, hex_lower, lemma_hex_lower_len};

verus! {

/// The SHA-256 digest of a byte string.
pub uninterp spec fn sha256(data: Seq<u8>) -> Seq<u8>;

/// The digest of a text's UTF-8 bytes, in lower-case hexadecimal.
pub open spec fn text_digest(text: Seq<char>) -> Seq<char> {
    hex_lower(sha256(vstd::utf8::encode_utf8(text)))
}

/// The number of bytes of a digest.
pub const DIGEST_BYTES: usize = 32;

/// Calls `sha2::Sha256::digest`. Trusted: the bytes that come back are the
/// SHA-256 digest of `data`, which depends on `data` alone, and there are
/// thirty-two of them.
#[verifier::external_body]
fn sha256_of(data: &[u8]) -> (r: Vec<u8>)
    ensures
        r@ == sha256(data@),
        r@.len() == DIGEST_BYTES,
{
    sha2::Sha256::digest(data).to_vec()
}

/// Appends the hexadecimal digest of `text` to `out`: sixty-four digits.
pub fn append_text_digest(out: &mut String, text: &str)
    ensures
        final(out)@ == old(out)@ + text_digest(text@),
        text_digest(text@).len() == 2 * DIGEST_BYTES,
{
    let d = sha256_of(text.as_bytes());
    proof {
        lemma_hex_lower_len(d@);
    }
    append_hex(out, d.as_slice());
}

} // verus!
