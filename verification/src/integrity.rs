//! Integrity verification of acquired tarballs: a Subresource-Integrity
//! `sha512-<base64>` string when present, else a legacy hex SHA-1 `shasum`,
//! else acceptance.
use vstd::prelude::*;

use crate::bytes::{bytes_eq, spec_ascii_lower, spec_hex};
use crate::hash::{sha1_digest, sha512_digest};

verus! {

/// The value of one base64 character in the standard alphabet, -1 if it is
/// not in the alphabet.
pub open spec fn b64_val(b: u8) -> int {
    if 0x41 <= b <= 0x5a {
        b - 0x41
    } else if 0x61 <= b <= 0x7a {
        b - 0x61 + 26
    } else if 0x30 <= b <= 0x39 {
        b - 0x30 + 52
    } else if b == 0x2b {
        62
    } else if b == 0x2f {
        63
    } else {
        -1
    }
}

/// Standard base64 with `=` padding, four characters to three bytes; stray
/// bits in a padded tail are ignored.
pub open spec fn spec_b64_decode(s: Seq<u8>) -> Option<Seq<u8>>
    decreases s.len(),
{
    if s.len() == 0 {
        Some(Seq::empty())
    } else if s.len() < 4 {
        None
    } else {
        let v0 = b64_val(s[0]);
        let v1 = b64_val(s[1]);
        if v0 < 0 || v1 < 0 {
            None
        } else if s.len() == 4 && s[2] == 0x3d && s[3] == 0x3d {
            Some(seq![(v0 * 4 + v1 / 16) as u8])
        } else if s.len() == 4 && s[3] == 0x3d {
            let v2 = b64_val(s[2]);
            if v2 < 0 {
                None
            } else {
                Some(seq![(v0 * 4 + v1 / 16) as u8, ((v1 % 16) * 16 + v2 / 4) as u8])
            }
        } else {
            let v2 = b64_val(s[2]);
            let v3 = b64_val(s[3]);
            if v2 < 0 || v3 < 0 {
                None
            } else {
                match spec_b64_decode(s.skip(4)) {
                    None => None,
                    Some(rest) => Some(
                        seq![
                            (v0 * 4 + v1 / 16) as u8,
                            ((v1 % 16) * 16 + v2 / 4) as u8,
                            ((v2 % 4) * 64 + v3) as u8,
                        ] + rest,
                    ),
                }
            }
        }
    }
}

fn b64_val_exec(b: u8) -> (r: Option<u8>)
    ensures
        match r {
            Some(v) => b64_val(b) == v as int,
            None => b64_val(b) < 0,
        },
{
    if 0x41 <= b && b <= 0x5a {
        Some(b - 0x41)
    } else if 0x61 <= b && b <= 0x7a {
        Some(b - 0x61 + 26)
    } else if 0x30 <= b && b <= 0x39 {
        Some(b - 0x30 + 52)
    } else if b == 0x2b {
        Some(62)
    } else if b == 0x2f {
        Some(63)
    } else {
        None
    }
}

/// Decodes a base64 string, `None` on malformed input.
pub fn b64_decode(s: &[u8]) -> (r: Option<Vec<u8>>)
    ensures
        match r {
            Some(d) => spec_b64_decode(s@) == Some(d@),
            None => spec_b64_decode(s@) is None,
        },
    decreases s@.len(),
{
    if s.len() == 0 {
        let out: Vec<u8> = Vec::new();
        proof {
            assert(out@ =~= Seq::<u8>::empty());
        }
        return Some(out);
    }
    if s.len() < 4 {
        return None;
    }
    let v0 = match b64_val_exec(s[0]) {
        Some(v) => v,
        None => {
            return None;
        },
    };
    let v1 = match b64_val_exec(s[1]) {
        Some(v) => v,
        None => {
            return None;
        },
    };
    if s.len() == 4 && s[2] == 0x3d && s[3] == 0x3d {
        let mut out: Vec<u8> = Vec::new();
        out.push(v0 * 4 + v1 / 16);
        proof {
            assert(out@ =~= seq![(b64_val(s@[0]) * 4 + b64_val(s@[1]) / 16) as u8]);
        }
        Some(out)
    } else if s.len() == 4 && s[3] == 0x3d {
        let v2 = match b64_val_exec(s[2]) {
            Some(v) => v,
            None => {
                return None;
            },
        };
        let mut out: Vec<u8> = Vec::new();
        out.push(v0 * 4 + v1 / 16);
        out.push((v1 % 16) * 16 + v2 / 4);
        proof {
            assert(out@ =~= seq![
                (b64_val(s@[0]) * 4 + b64_val(s@[1]) / 16) as u8,
                ((b64_val(s@[1]) % 16) * 16 + b64_val(s@[2]) / 4) as u8,
            ]);
        }
        Some(out)
    } else {
        let v2 = match b64_val_exec(s[2]) {
            Some(v) => v,
            None => {
                return None;
            },
        };
        let v3 = match b64_val_exec(s[3]) {
            Some(v) => v,
            None => {
                return None;
            },
        };
        let n = s.len();
        let tail = vstd::slice::slice_subrange(s, 4, n);
        proof {
            assert(tail@ =~= s@.skip(4));
        }
        match b64_decode(tail) {
            None => None,
            Some(rest) => {
                let mut out: Vec<u8> = Vec::new();
                out.push(v0 * 4 + v1 / 16);
                out.push((v1 % 16) * 16 + v2 / 4);
                out.push((v2 % 4) * 64 + v3);
                crate::bytes::extend_bytes(&mut out, rest.as_slice());
                proof {
                    assert(out@ =~= seq![
                        (b64_val(s@[0]) * 4 + b64_val(s@[1]) / 16) as u8,
                        ((b64_val(s@[1]) % 16) * 16 + b64_val(s@[2]) / 4) as u8,
                        ((b64_val(s@[2]) % 4) * 64 + b64_val(s@[3])) as u8,
                    ] + rest@);
                }
                Some(out)
            },
        }
    }
}

/// `sha512-` as bytes.
pub open spec fn spec_sri_prefix() -> Seq<u8> {
    seq![0x73u8, 0x68, 0x61, 0x35, 0x31, 0x32, 0x2d]
}

fn sri_prefix_bytes() -> (r: Vec<u8>)
    ensures
        r@ == spec_sri_prefix(),
{
    let mut v: Vec<u8> = Vec::new();
    v.push(0x73);
    v.push(0x68);
    v.push(0x61);
    v.push(0x35);
    v.push(0x31);
    v.push(0x32);
    v.push(0x2d);
    proof {
        assert(v@ =~= spec_sri_prefix());
    }
    v
}

/// Whether a blob passes the integrity policy: a present `integrity` string
/// must be `sha512-` plus valid base64 of the blob's SHA-512; otherwise a
/// present `shasum` must equal the blob's SHA-1 in hex, case-insensitively;
/// with neither, the blob is accepted.
pub open spec fn spec_integrity_ok(
    blob: Seq<u8>,
    integrity: Option<Seq<u8>>,
    shasum: Option<Seq<u8>>,
) -> bool {
    match integrity {
        Some(s) => s.len() >= 7 && s.take(7) == spec_sri_prefix() && match spec_b64_decode(
            s.skip(7),
        ) {
            Some(d) => d == sha512_digest(blob),
            None => false,
        },
        None => match shasum {
            Some(h) => spec_ascii_lower(h) == spec_hex(sha1_digest(blob)),
            None => true,
        },
    }
}

/// The integrity decision on an acquired blob. A `false` on cached bytes
/// invalidates the cache entry and triggers one re-download; a `false` on
/// fresh bytes is fatal for the package.
pub fn verify_integrity(blob: &[u8], integrity: Option<&[u8]>, shasum: Option<&[u8]>) -> (r: bool)
    ensures
        r == spec_integrity_ok(
            blob@,
            match integrity {
                Some(s) => Some(s@),
                None => None,
            },
            match shasum {
                Some(h) => Some(h@),
                None => None,
            },
        ),
{
    match integrity {
        Some(s) => {
            if s.len() < 7 {
                return false;
            }
            let n = s.len();
            let head = vstd::slice::slice_subrange(s, 0, 7);
            let prefix = sri_prefix_bytes();
            proof {
                assert(head@ =~= s@.take(7));
            }
            if !bytes_eq(head, prefix.as_slice()) {
                return false;
            }
            let body = vstd::slice::slice_subrange(s, 7, n);
            proof {
                assert(body@ =~= s@.skip(7));
            }
            match b64_decode(body) {
                None => false,
                Some(d) => {
                    let digest = crate::hash::sha512(blob);
                    bytes_eq(d.as_slice(), digest.as_slice())
                },
            }
        },
        None => {
            match shasum {
                Some(h) => {
                    let lowered = crate::bytes::ascii_lower(h);
                    let digest = crate::hash::sha1(blob);
                    let hex = crate::bytes::hex_lower(digest.as_slice());
                    bytes_eq(lowered.as_slice(), hex.as_slice())
                },
                None => true,
            }
        },
    }
}

} // verus!
