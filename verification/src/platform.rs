//! Platform and engine validation of a package before installation: the
//! host is canonicalised to registry tokens, `!`-prefixed tokens exclude,
//! and a non-empty positive list must name the host. A failure is fatal
//! unless the package was reached only through optional edges.
use vstd::prelude::*;

use crate::bytes::{bytes_eq, clone_bytes};
use crate::package::PackageInfo;
use crate::range::spec_alts_match;
use crate::version::Version;

verus! {

pub open spec fn tok_macos() -> Seq<u8> {
    seq![0x6du8, 0x61, 0x63, 0x6f, 0x73]
}

pub open spec fn tok_darwin() -> Seq<u8> {
    seq![0x64u8, 0x61, 0x72, 0x77, 0x69, 0x6e]
}

pub open spec fn tok_windows() -> Seq<u8> {
    seq![0x77u8, 0x69, 0x6e, 0x64, 0x6f, 0x77, 0x73]
}

pub open spec fn tok_win32() -> Seq<u8> {
    seq![0x77u8, 0x69, 0x6e, 0x33, 0x32]
}

pub open spec fn tok_x86_64() -> Seq<u8> {
    seq![0x78u8, 0x38, 0x36, 0x5f, 0x36, 0x34]
}

pub open spec fn tok_x64() -> Seq<u8> {
    seq![0x78u8, 0x36, 0x34]
}

pub open spec fn tok_x86() -> Seq<u8> {
    seq![0x78u8, 0x38, 0x36]
}

pub open spec fn tok_ia32() -> Seq<u8> {
    seq![0x69u8, 0x61, 0x33, 0x32]
}

pub open spec fn tok_aarch64() -> Seq<u8> {
    seq![0x61u8, 0x61, 0x72, 0x63, 0x68, 0x36, 0x34]
}

pub open spec fn tok_arm64() -> Seq<u8> {
    seq![0x61u8, 0x72, 0x6d, 0x36, 0x34]
}

/// The host operating system as the registry writes it.
pub open spec fn spec_canon_os(t: Seq<u8>) -> Seq<u8> {
    if t == tok_macos() {
        tok_darwin()
    } else if t == tok_windows() {
        tok_win32()
    } else {
        t
    }
}

/// The host processor as the registry writes it.
pub open spec fn spec_canon_cpu(t: Seq<u8>) -> Seq<u8> {
    if t == tok_x86_64() {
        tok_x64()
    } else if t == tok_x86() {
        tok_ia32()
    } else if t == tok_aarch64() {
        tok_arm64()
    } else {
        t
    }
}

fn os_literal(which: u8) -> (r: Vec<u8>)
    ensures
        which == 0 ==> r@ == tok_macos(),
        which == 1 ==> r@ == tok_darwin(),
        which == 2 ==> r@ == tok_windows(),
        which == 3 ==> r@ == tok_win32(),
{
    let mut v: Vec<u8> = Vec::new();
    if which == 0 {
        v.push(0x6d);
        v.push(0x61);
        v.push(0x63);
        v.push(0x6f);
        v.push(0x73);
        proof {
            assert(v@ =~= tok_macos());
        }
    } else if which == 1 {
        v.push(0x64);
        v.push(0x61);
        v.push(0x72);
        v.push(0x77);
        v.push(0x69);
        v.push(0x6e);
        proof {
            assert(v@ =~= tok_darwin());
        }
    } else if which == 2 {
        v.push(0x77);
        v.push(0x69);
        v.push(0x6e);
        v.push(0x64);
        v.push(0x6f);
        v.push(0x77);
        v.push(0x73);
        proof {
            assert(v@ =~= tok_windows());
        }
    } else {
        v.push(0x77);
        v.push(0x69);
        v.push(0x6e);
        v.push(0x33);
        v.push(0x32);
        proof {
            assert(v@ =~= tok_win32());
        }
    }
    v
}

fn cpu_literal(which: u8) -> (r: Vec<u8>)
    ensures
        which == 0 ==> r@ == tok_x86_64(),
        which == 1 ==> r@ == tok_x64(),
        which == 2 ==> r@ == tok_x86(),
        which == 3 ==> r@ == tok_ia32(),
        which == 4 ==> r@ == tok_aarch64(),
        which == 5 ==> r@ == tok_arm64(),
{
    let mut v: Vec<u8> = Vec::new();
    if which == 0 {
        v.push(0x78);
        v.push(0x38);
        v.push(0x36);
        v.push(0x5f);
        v.push(0x36);
        v.push(0x34);
        proof {
            assert(v@ =~= tok_x86_64());
        }
    } else if which == 1 {
        v.push(0x78);
        v.push(0x36);
        v.push(0x34);
        proof {
            assert(v@ =~= tok_x64());
        }
    } else if which == 2 {
        v.push(0x78);
        v.push(0x38);
        v.push(0x36);
        proof {
            assert(v@ =~= tok_x86());
        }
    } else if which == 3 {
        v.push(0x69);
        v.push(0x61);
        v.push(0x33);
        v.push(0x32);
        proof {
            assert(v@ =~= tok_ia32());
        }
    } else if which == 4 {
        v.push(0x61);
        v.push(0x61);
        v.push(0x72);
        v.push(0x63);
        v.push(0x68);
        v.push(0x36);
        v.push(0x34);
        proof {
            assert(v@ =~= tok_aarch64());
        }
    } else {
        v.push(0x61);
        v.push(0x72);
        v.push(0x6d);
        v.push(0x36);
        v.push(0x34);
        proof {
            assert(v@ =~= tok_arm64());
        }
    }
    v
}

pub fn canon_os(t: &[u8]) -> (r: Vec<u8>)
    ensures
        r@ == spec_canon_os(t@),
{
    let m = os_literal(0);
    if bytes_eq(t, m.as_slice()) {
        return os_literal(1);
    }
    let w = os_literal(2);
    if bytes_eq(t, w.as_slice()) {
        return os_literal(3);
    }
    clone_bytes(t)
}

pub fn canon_cpu(t: &[u8]) -> (r: Vec<u8>)
    ensures
        r@ == spec_canon_cpu(t@),
{
    let a = cpu_literal(0);
    if bytes_eq(t, a.as_slice()) {
        return cpu_literal(1);
    }
    let b = cpu_literal(2);
    if bytes_eq(t, b.as_slice()) {
        return cpu_literal(3);
    }
    let c = cpu_literal(4);
    if bytes_eq(t, c.as_slice()) {
        return cpu_literal(5);
    }
    clone_bytes(t)
}

/// A `!`-prefixed token excludes its platform.
pub open spec fn is_negative(t: Seq<u8>) -> bool {
    t.len() > 0 && t[0] == 0x21
}

/// One constraint list against a canonical host token: the host must match
/// no negative token, and some positive token when any positive exists.
pub open spec fn spec_list_ok(list: Seq<Seq<u8>>, host: Seq<u8>) -> bool {
    &&& (forall|i: int|
        0 <= i < list.len() && is_negative(#[trigger] list[i]) ==> list[i].skip(1) != host)
    &&& ((exists|i: int| 0 <= i < list.len() && !is_negative(#[trigger] list[i])) ==> (exists|
    i: int|
        0 <= i < list.len() && !is_negative(#[trigger] list[i]) && list[i] == host))
}

/// Checks one constraint list against a canonical host token.
pub fn list_ok(list: &Vec<Vec<u8>>, host: &[u8]) -> (r: bool)
    ensures
        r == spec_list_ok(list@.map_values(|t: Vec<u8>| t@), host@),
{
    let ghost lv = list@.map_values(|t: Vec<u8>| t@);
    let mut has_positive = false;
    let mut positive_hit = false;
    let mut i: usize = 0;
    while i < list.len()
        invariant
            0 <= i <= list@.len(),
            lv == list@.map_values(|t: Vec<u8>| t@),
            lv.len() == list@.len(),
            forall|k: int|
                0 <= k < i && is_negative(#[trigger] lv[k]) ==> lv[k].skip(1) != host@,
            has_positive == (exists|k: int| 0 <= k < i && !is_negative(#[trigger] lv[k])),
            positive_hit == (exists|k: int|
                0 <= k < i && !is_negative(#[trigger] lv[k]) && lv[k] == host@),
        decreases list@.len() - i,
    {
        let t = &list[i];
        proof {
            assert(lv[i as int] == list@[i as int]@);
        }
        if t.len() > 0 && t[0] == 0x21 {
            let body = vstd::slice::slice_subrange(t.as_slice(), 1, t.len());
            proof {
                assert(body@ =~= lv[i as int].skip(1));
            }
            if bytes_eq(body, host) {
                proof {
                    assert(is_negative(lv[i as int]) && lv[i as int].skip(1) == host@);
                }
                return false;
            }
        } else {
            has_positive = true;
            if bytes_eq(t.as_slice(), host) {
                positive_hit = true;
            }
        }
        i = i + 1;
    }
    !has_positive || positive_hit
}

/// The whole validation of one package: a known engine requirement must
/// match a known runtime version, and both platform lists must admit the
/// canonicalised host.
pub open spec fn spec_package_ok(
    info: PackageInfo,
    runtime: Option<Version>,
    host_os: Seq<u8>,
    host_cpu: Seq<u8>,
) -> bool {
    &&& (match (info.engines_node, runtime) {
        (Some(req), Some(v)) => spec_alts_match(req@.alts, v@),
        _ => true,
    })
    &&& spec_list_ok(info.os_constraints@.map_values(|t: Vec<u8>| t@), spec_canon_os(host_os))
    &&& spec_list_ok(info.cpu_constraints@.map_values(|t: Vec<u8>| t@), spec_canon_cpu(host_cpu))
}

/// Validates engines and platform constraints; the caller skips the
/// package with a warning when this fails and the package is optional,
/// else the install fails.
pub fn validate_package(
    info: &PackageInfo,
    runtime: Option<&Version>,
    host_os: &[u8],
    host_cpu: &[u8],
) -> (r: bool)
    ensures
        r == spec_package_ok(
            *info,
            match runtime {
                Some(v) => Some(*v),
                None => None,
            },
            host_os@,
            host_cpu@,
        ),
{
    let engines_ok = match (&info.engines_node, runtime) {
        (Some(req), Some(v)) => req.matches(v),
        _ => true,
    };
    if !engines_ok {
        return false;
    }
    let os = canon_os(host_os);
    if !list_ok(&info.os_constraints, os.as_slice()) {
        return false;
    }
    let cpu = canon_cpu(host_cpu);
    list_ok(&info.cpu_constraints, cpu.as_slice())
}

} // verus!
