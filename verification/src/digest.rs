//! The SHA-1 digest, by which a torrent and each of its pieces are known.

use vstd::prelude::*;
use sha1::{Digest, Sha1};

verus! {

/// The SHA-1 digest of a sequence of bytes, as computed by the `sha1` crate.
pub uninterp spec fn sha1_hash(data: Seq<u8>) -> Seq<u8>;

/// `<sha1::Sha1 as sha1::Digest>::digest`: hashes the whole of `data` at once.
/// Assumed: the twenty bytes returned depend on the bytes of `data` alone.
#[verifier::external_body]
pub(crate) fn sha1_digest(data: &[u8]) -> (digest: [u8; 20])
    ensures
        digest@ == sha1_hash(data@),
{
    Sha1::digest(data).into()
}

/// The digest of `data`, held against the digest that is expected.
pub open spec fn digest_matches(data: Seq<u8>, expected: Seq<u8>) -> bool {
    sha1_hash(data) == expected
}

/// Whether two digests are the same, byte for byte.
pub fn same_digest(a: &[u8; 20], b: &[u8; 20]) -> (same: bool)
    ensures
        same == (a@ == b@),
{
    let mut i: usize = 0;
    while i < 20
        invariant
            i <= 20,
            forall|j: int| 0 <= j < i ==> a@[j] == b@[j],
        decreases 20 - i,
    {
        if a[i] != b[i] {
            return false;
        }
        i += 1;
    }
    assert(a@ =~= b@);
    true
}

/// Hashes `data` and holds the digest against the one that is expected.
pub fn verify_digest(data: &[u8], expected: &[u8; 20]) -> (good: bool)
    ensures
        good == digest_matches(data@, expected@),
{
    let digest = sha1_digest(data);
    same_digest(&digest, expected)
}

} // verus!
