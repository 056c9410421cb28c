//! The content-addressed tarball cache. The key of a blob is the SHA-256 of
//! `<name>@<version>` in lowercase hex; the blob file is `<key>.tgz` under
//! the cache directory. Reading, writing and deleting the files is left to
//! the caller; this module fixes the paths and the acceptance rule.
use vstd::prelude::*;

use crate::bytes::{bytes_eq, clone_bytes, extend_bytes, spec_ascii_lower, spec_hex};
use crate::hash::{sha1_digest, sha256_digest};

verus! {

/// Cached blobs older than this many seconds are stale: seven days.
pub const CACHE_MAX_AGE_SECS: u64 = 604800;

/// The cache subdirectory under the user's home directory.
pub open spec fn spec_cache_subdir() -> Seq<u8> {
    seq![0x2fu8, 0x2e, 0x72, 0x6e, 0x70, 0x2f, 0x63, 0x61, 0x63, 0x68, 0x65]
}

fn cache_subdir_bytes() -> (r: Vec<u8>)
    ensures
        r@ == spec_cache_subdir(),
{
    let mut v: Vec<u8> = Vec::new();
    v.push(0x2f);
    v.push(0x2e);
    v.push(0x72);
    v.push(0x6e);
    v.push(0x70);
    v.push(0x2f);
    v.push(0x63);
    v.push(0x61);
    v.push(0x63);
    v.push(0x68);
    v.push(0x65);
    proof {
        assert(v@ =~= spec_cache_subdir());
    }
    v
}

/// The key of `(name, version)`: lowercase hex SHA-256 of `name@version`.
pub open spec fn spec_cache_key(name: Seq<u8>, version: Seq<u8>) -> Seq<u8> {
    spec_hex(sha256_digest(name + seq![0x40u8] + version))
}

pub struct PackageCache {
    pub cache_dir: Vec<u8>,
}

impl PackageCache {
    /// Fixes the cache directory as `<home>/.rnp/cache`. Creating the
    /// directory on disk is the caller's business.
    pub fn new(home_dir: &[u8]) -> (r: PackageCache)
        ensures
            r.cache_dir@ == home_dir@ + spec_cache_subdir(),
    {
        let mut dir = clone_bytes(home_dir);
        let sub = cache_subdir_bytes();
        extend_bytes(&mut dir, sub.as_slice());
        PackageCache { cache_dir: dir }
    }

    /// The cache key for a package identity.
    pub fn cache_key(package_name: &[u8], version: &[u8]) -> (r: Vec<u8>)
        ensures
            r@ == spec_cache_key(package_name@, version@),
            r@.len() == 64,
    {
        let mut id = clone_bytes(package_name);
        id.push(0x40);
        extend_bytes(&mut id, version);
        proof {
            assert(id@ =~= package_name@ + seq![0x40u8] + version@);
        }
        let digest = crate::hash::sha256(id.as_slice());
        crate::bytes::hex_lower(digest.as_slice())
    }

    /// The path of the cached tarball for a package identity.
    pub fn tarball_path(&self, package_name: &[u8], version: &[u8]) -> (r: Vec<u8>)
        ensures
            r@ == self.cache_dir@ + seq![0x2fu8] + spec_cache_key(package_name@, version@) + seq![
                0x2eu8,
                0x74,
                0x67,
                0x7a,
            ],
    {
        let mut out = clone_bytes(self.cache_dir.as_slice());
        out.push(0x2f);
        let key = Self::cache_key(package_name, version);
        extend_bytes(&mut out, key.as_slice());
        out.push(0x2e);
        out.push(0x74);
        out.push(0x67);
        out.push(0x7a);
        proof {
            assert(out@ =~= self.cache_dir@ + seq![0x2fu8] + spec_cache_key(
                package_name@,
                version@,
            ) + seq![0x2eu8, 0x74, 0x67, 0x7a]);
        }
        out
    }
}

/// When a cached blob may be served: it is no older than `max_age_secs`,
/// and when a SHA-1 is expected, the blob's SHA-1 in lowercase hex equals
/// the expectation, compared case-insensitively.
pub open spec fn spec_cache_valid(
    blob: Seq<u8>,
    age_secs: int,
    max_age_secs: int,
    expected_sha1: Option<Seq<u8>>,
) -> bool {
    age_secs <= max_age_secs && match expected_sha1 {
        Some(h) => spec_ascii_lower(h) == spec_hex(sha1_digest(blob)),
        None => true,
    }
}

/// The acceptance decision of `get_valid` on a blob that was found on disk:
/// true exactly when the blob is fresh enough and its SHA-1 matches the
/// expectation, if one was given. On false the caller deletes the blob.
pub fn evaluate_cached(
    blob: &[u8],
    age_secs: u64,
    max_age_secs: u64,
    expected_sha1: Option<&[u8]>,
) -> (r: bool)
    ensures
        r == spec_cache_valid(
            blob@,
            age_secs as int,
            max_age_secs as int,
            match expected_sha1 {
                Some(h) => Some(h@),
                None => None,
            },
        ),
{
    if age_secs > max_age_secs {
        return false;
    }
    match expected_sha1 {
        None => true,
        Some(h) => {
            let lowered = crate::bytes::ascii_lower(h);
            let digest = crate::hash::sha1(blob);
            let hex = crate::bytes::hex_lower(digest.as_slice());
            bytes_eq(lowered.as_slice(), hex.as_slice())
        },
    }
}

} // verus!
