//! The digest that leaves and inner nodes are hashed with.

use sha2::Digest;
use vstd::prelude::*;

verus! {

/// The SHA-256 digest of a byte sequence, as a value.  The digest is a pure
/// function of its input, so it can be given a name; what the name denotes on
/// any particular bytes is only ever learned by running `sha256_digest`.
pub uninterp spec fn sha256_of(data: Seq<u8>) -> Seq<u8>;

/// Relies on sha2's `Sha256::digest`: the 32-byte SHA-256 digest of the
/// input, a function of the input bytes alone.
#[verifier::external_body]
pub fn sha256_digest(data: &[u8]) -> (r: [u8; 32])
    ensures
        r@ == sha256_of(data@),
{
    let digest = sha2::Sha256::digest(data);
    let mut out = [0u8; 32];
    out.copy_from_slice(&digest);
    out
}

} // verus!
