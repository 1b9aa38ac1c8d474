//! Content digests of file bytes.

use vstd::prelude::*;

verus! {

/// The content digest of a byte sequence: the hexadecimal form of its
/// SHA-256 hash. The digest is a function of the bytes alone.
pub uninterp spec fn digest_of(bytes: Seq<u8>) -> Seq<char>;

/// Relies on crypto_hash::hex_digest with the SHA-256 algorithm: the returned
/// hexadecimal digest depends on the input bytes alone, and the call returns
/// normally on every input.
#[verifier::external_body]
fn sha256_hex(bytes: &Vec<u8>) -> (r: String)
    ensures
        r@ == digest_of(bytes@),
{
    crypto_hash::hex_digest(crypto_hash::Algorithm::SHA256, bytes.as_slice())
}

/// Digest of a file's complete byte content, as a hexadecimal string.
pub fn hash_file(bytes: &Vec<u8>) -> (r: String)
    ensures
        r@ == digest_of(bytes@),
{
    sha256_hex(bytes)
}

} // verus!
