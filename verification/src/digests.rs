//! The digest primitive the image layer is built on.
//!
//! The concrete hash is supplied by an outside crate; the rest of the
//! library only relies on the digest being a 32-byte function of its
//! input bytes, named here by an uninterpreted spec function.

use vstd::prelude::*;
use crate::DIGEST_BYTES;

verus! {

/// The SHA-256 digest of a byte string, named but not defined: the value is
/// whatever the hash implementation returns, the same for the same input.
pub uninterp spec fn sha256_of(bytes: Seq<u8>) -> Seq<u8>;

/// Relies on sha2::Sha256::digest: a 32-byte digest that depends on the
/// input bytes alone.
#[verifier::external_body]
pub fn sha256(bytes: &Vec<u8>) -> (r: Vec<u8>)
    ensures
        r@ == sha256_of(bytes@),
        r@.len() == DIGEST_BYTES,
{
    <sha2::Sha256 as sha2::Digest>::digest(bytes.as_slice()).to_vec()
}

} // verus!
