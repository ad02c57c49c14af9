//! The digest function whose preimages the table recovers.

use vstd::prelude::*;
use crate::encoding::le_bytes;

verus! {

/// The MD5 digest of `data`, read as a little-endian 128-bit integer.
pub uninterp spec fn md5_value(data: Seq<u8>) -> u128;

/// The sixteen bytes of the MD5 digest of `data`.
pub open spec fn md5_of(data: Seq<u8>) -> Seq<u8> {
    le_bytes(md5_value(data) as nat, 16)
}

/// Relies on `md5::compute`: the digest is sixteen bytes that depend on the
/// input bytes alone.
#[verifier::external_body]
pub(crate) fn md5_digest(data: &[u8]) -> (r: Vec<u8>)
    ensures
        r@ == le_bytes(md5_value(data@) as nat, 16),
{
    md5::compute(data).0.to_vec()
}

} // verus!
