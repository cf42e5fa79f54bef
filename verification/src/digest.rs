//! The MD5 digest, computed by the `md5` crate.
use vstd::prelude::*;

verus! {

/// The MD5 digest of `data`: sixteen bytes that depend on `data` alone.
pub uninterp spec fn md5_digest(data: Seq<u8>) -> Seq<u8>;

/// Computes the MD5 digest of `data` with `md5::compute`.
///
/// Trusted: the contract says only that the sixteen bytes returned are the
/// digest of `data`, the same for the same bytes; the digest algorithm
/// itself is not stated or proved here.
#[verifier::external_body]
pub(crate) fn md5_compute(data: &[u8]) -> (r: [u8; 16])
    ensures
        r@ == md5_digest(data@),
{
    md5::compute(data).0
}

} // verus!
