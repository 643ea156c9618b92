//! SHA-1, by which a torrent and each of its pieces are identified.

use sha1::{Digest, Sha1};
use vstd::prelude::*;

verus! {

/// The SHA-1 digest of `data`: twenty bytes.
pub uninterp spec fn sha1_digest(data: Seq<u8>) -> Seq<u8>;

/// Computes the SHA-1 digest of `data`.
///
/// Trusted: calls `Sha1::digest` of the crate `sha1`. The contract gives the result
/// the name [`sha1_digest`] and claims nothing else of it; that it has twenty bytes
/// is in the result's type.
#[verifier::external_body]
pub(crate) fn sha1(data: &[u8]) -> (d: [u8; 20])
    ensures
        d@ == sha1_digest(data@),
{
    Sha1::digest(data).into()
}

} // verus!
