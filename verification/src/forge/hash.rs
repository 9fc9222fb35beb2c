//! Content hashes of sources and artifacts.

use crate::text::hex;
use crate::text::hex_of;
use sha2::Digest;
use vstd::prelude::*;
use vstd::string::*;

verus! {

/// The SHA-256 digest of a byte string.
pub uninterp spec fn sha256_digest(bytes: Seq<u8>) -> Seq<u8>;

/// Calls `sha2::Sha256::digest`. Claimed of it: the digest depends on the bytes
/// alone and is 32 bytes long (the output size of the type).
#[verifier::external_body]
fn sha256(bytes: &[u8]) -> (r: Vec<u8>)
    ensures
        r@ == sha256_digest(bytes@),
        r@.len() == 32,
{
    sha2::Sha256::digest(bytes).to_vec()
}

/// Hex SHA-256 of bytes, so that a requested artifact can be matched by its
/// hash.
pub fn sha256_hex(bytes: &[u8]) -> (s: String)
    ensures
        s@ == hex_of(sha256_digest(bytes@)),
        s@.len() == 64,
{
    let d = sha256(bytes);
    hex(d.as_slice())
}

/// Hex of the first six bytes of a digest.
pub fn short_tag(digest: &Vec<u8>) -> (s: String)
    requires
        digest@.len() >= 6,
    ensures
        s@ == hex_of(digest@.take(6)),
{
    let mut head: Vec<u8> = Vec::new();
    let mut i: usize = 0;
    while i < 6
        invariant
            i <= 6,
            digest@.len() >= 6,
            head@ == digest@.take(i as int),
        decreases 6 - i,
    {
        head.push(digest[i]);
        i += 1;
        assert(digest@.take(i as int) =~= digest@.take(i - 1).push(digest@[i - 1]));
    }
    hex(head.as_slice())
}

/// Twelve hex digits that tell one app source from another.
pub fn short_hash(s: &str) -> (r: String)
    ensures
        r@ == hex_of(sha256_digest(s.spec_bytes()).take(6)),
        r@.len() == 12,
{
    let d = sha256(s.as_bytes());
    short_tag(&d)
}

} // verus!
