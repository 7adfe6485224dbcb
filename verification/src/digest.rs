//! SHA-1, by the `sha1` crate.

use sha1::{Digest, Sha1};
use vstd::prelude::*;

verus! {

/// The SHA-1 digest of `data`: what `Sha1::digest` of the `sha1` crate
/// returns for these bytes.
pub uninterp spec fn sha1(data: Seq<u8>) -> Seq<u8>;

/// The SHA-1 digest of `data`.
///
/// Trusted: `Sha1::digest` of the `sha1` crate is a function of the bytes
/// alone, and its output has 20 bytes.
#[verifier::external_body]
pub(crate) fn sha1_digest(data: &[u8]) -> (res: Vec<u8>)
    ensures
        res@ == sha1(data@),
        res@.len() == 20,
{
    Sha1::digest(data).to_vec()
}

} // verus!
