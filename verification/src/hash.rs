//! The cryptographic digests the cache and the integrity checks rest on.
//! Each digest is named by an uninterpreted function of the input bytes; the
//! wrappers are the only trusted code in this crate.
use vstd::prelude::*;

verus! {

pub uninterp spec fn sha256_digest(data: Seq<u8>) -> Seq<u8>;

pub uninterp spec fn sha1_digest(data: Seq<u8>) -> Seq<u8>;

pub uninterp spec fn sha512_digest(data: Seq<u8>) -> Seq<u8>;

/// Relies on sha2::Sha256 through digest::Digest::digest: the digest is a
/// function of the input bytes alone and is 32 bytes long.
#[verifier::external_body]
pub fn sha256(data: &[u8]) -> (r: Vec<u8>)
    ensures
        r@ == sha256_digest(data@),
        r@.len() == 32,
{
    <sha2::Sha256 as sha2::Digest>::digest(data).to_vec()
}

/// Relies on sha1::Sha1 through digest::Digest::digest: the digest is a
/// function of the input bytes alone and is 20 bytes long.
#[verifier::external_body]
pub fn sha1(data: &[u8]) -> (r: Vec<u8>)
    ensures
        r@ == sha1_digest(data@),
        r@.len() == 20,
{
    <sha1::Sha1 as sha1::Digest>::digest(data).to_vec()
}

/// Relies on sha2::Sha512 through digest::Digest::digest: the digest is a
/// function of the input bytes alone and is 64 bytes long.
#[verifier::external_body]
pub fn sha512(data: &[u8]) -> (r: Vec<u8>)
    ensures
        r@ == sha512_digest(data@),
        r@.len() == 64,
{
    <sha2::Sha512 as sha2::Digest>::digest(data).to_vec()
}

} // verus!
