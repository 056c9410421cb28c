//! Layout decisions of the installer: where a tarball entry lands, which
//! packages install in which order, which nested links and bin shims are
//! wanted, and which lifecycle commands run, in which order.
use vstd::prelude::*;

use crate::bytes::{clone_bytes, extend_bytes, spec_find, spec_split};
use crate::package::{PackageInfo, ResolvedPackage};
use crate::resolver::{elem_in, sorted_by_depth};
use crate::version::Version;

verus! {

/// `..` as bytes.
pub open spec fn dotdot() -> Seq<u8> {
    seq![0x2eu8, 0x2e]
}

/// Whether any `/`-separated component of a path is `..`.
pub open spec fn has_dotdot(p: Seq<u8>) -> bool {
    exists|i: int| 0 <= i < spec_split(p, 0x2f).len() && #[trigger] spec_split(p, 0x2f)[i] == dotdot()
}

/// Whether any `/`-separated component of a path is empty: a leading
/// slash (an absolute remainder), a trailing one, or a doubled one.
pub open spec fn has_empty_component(p: Seq<u8>) -> bool {
    exists|i: int|
        0 <= i < spec_split(p, 0x2f).len() && (#[trigger] spec_split(p, 0x2f)[i]).len() == 0
}

/// Where a tarball entry lands, relative to the package root: exactly one
/// leading path component is stripped. An entry without a slash (such as
/// the bare `package` directory) is ignored, as is a hostile entry with a
/// `..` component, and one whose stripped remainder is empty, absolute or
/// holds an empty component, which a path join could carry outside the
/// package root.
pub open spec fn spec_strip_entry(p: Seq<u8>) -> Option<Seq<u8>> {
    match spec_find(p, 0x2f) {
        None => None,
        Some(i) => {
            let rest = p.subrange(i + 1, p.len() as int);
            if has_dotdot(p) || rest.len() == 0 || has_empty_component(rest) {
                None
            } else {
                Some(rest)
            }
        },
    }
}

/// The relative path an entry unpacks to, `None` when the entry is skipped.
pub fn strip_entry_path(p: &[u8]) -> (r: Option<Vec<u8>>)
    ensures
        match r {
            Some(rest) => spec_strip_entry(p@) == Some(rest@),
            None => spec_strip_entry(p@) is None,
        },
{
    proof {
        crate::bytes::lemma_spec_find(p@, 0x2f);
    }
    let n = p.len();
    match crate::bytes::find_byte(p, 0x2f) {
        None => None,
        Some(i) => {
            let pieces = crate::bytes::split_byte(p, 0x2f);
            let mut k: usize = 0;
            let mut bad = false;
            while k < pieces.len()
                invariant
                    0 <= k <= pieces@.len(),
                    pieces@.len() == spec_split(p@, 0x2f).len(),
                    forall|t: int|
                        0 <= t < pieces@.len() ==> pieces@[t]@ == #[trigger] spec_split(
                            p@,
                            0x2f,
                        )[t],
                    bad == (exists|t: int|
                        0 <= t < k && #[trigger] spec_split(p@, 0x2f)[t] == dotdot()),
                decreases pieces@.len() - k,
            {
                let piece = pieces[k].as_slice();
                if piece.len() == 2 && piece[0] == 0x2e && piece[1] == 0x2e {
                    proof {
                        assert(spec_split(p@, 0x2f)[k as int] =~= dotdot());
                    }
                    bad = true;
                }
                proof {
                    if !bad {
                        assert(spec_split(p@, 0x2f)[k as int] != dotdot()) by {
                            assert(pieces@[k as int]@ == spec_split(p@, 0x2f)[k as int]);
                        }
                    }
                }
                k = k + 1;
            }
            if bad {
                return None;
            }
            let rest = vstd::slice::slice_subrange(p, i + 1, n);
            proof {
                assert(rest@ =~= p@.subrange(i as int + 1, p@.len() as int));
            }
            if rest.len() == 0 {
                return None;
            }
            let rest_pieces = crate::bytes::split_byte(rest, 0x2f);
            let mut t: usize = 0;
            while t < rest_pieces.len()
                invariant
                    0 <= t <= rest_pieces@.len(),
                    spec_find(p@, 0x2f) == Some(i as int),
                    rest@ == p@.subrange(i as int + 1, p@.len() as int),
                    !has_dotdot(p@),
                    rest@.len() > 0,
                    rest_pieces@.len() == spec_split(rest@, 0x2f).len(),
                    forall|u: int|
                        0 <= u < rest_pieces@.len() ==> rest_pieces@[u]@ == #[trigger] spec_split(
                            rest@,
                            0x2f,
                        )[u],
                    forall|u: int| 0 <= u < t ==> (#[trigger] spec_split(rest@, 0x2f)[u]).len() > 0,
                decreases rest_pieces@.len() - t,
            {
                if rest_pieces[t].len() == 0 {
                    proof {
                        assert(spec_split(rest@, 0x2f)[t as int].len() == 0) by {
                            assert(rest_pieces@[t as int]@ == spec_split(rest@, 0x2f)[t as int]);
                        }
                        assert(has_empty_component(rest@));
                        assert(spec_strip_entry(p@) is None);
                    }
                    return None;
                }
                proof {
                    assert(spec_split(rest@, 0x2f)[t as int].len() > 0) by {
                        assert(rest_pieces@[t as int]@ == spec_split(rest@, 0x2f)[t as int]);
                    }
                }
                t = t + 1;
            }
            proof {
                assert(!has_empty_component(rest@));
            }
            Some(clone_bytes(rest))
        },
    }
}

/// `node_modules/` + name: the flat install directory of a package.
pub fn flat_package_dir(name: &[u8]) -> (r: Vec<u8>)
    ensures
        r@ == crate::lockfile::k_node_modules() + name@,
{
    let mut out = crate::lockfile::k_node_modules_bytes();
    extend_bytes(&mut out, name);
    out
}

/// `node_modules/.bin/`.
pub open spec fn bin_dir() -> Seq<u8> {
    crate::lockfile::k_node_modules() + seq![0x2eu8, 0x62, 0x69, 0x6e, 0x2f]
}

/// The link path of one shim: `node_modules/.bin/<shim>`.
pub fn shim_link_path(shim: &[u8]) -> (r: Vec<u8>)
    ensures
        r@ == bin_dir() + shim@,
{
    let mut out = crate::lockfile::k_node_modules_bytes();
    out.push(0x2e);
    out.push(0x62);
    out.push(0x69);
    out.push(0x6e);
    out.push(0x2f);
    proof {
        assert(out@ =~= bin_dir());
    }
    extend_bytes(&mut out, shim);
    out
}

/// The target of one shim: `node_modules/<package>/<relative path>`.
pub fn shim_target_path(pkg_name: &[u8], rel: &[u8]) -> (r: Vec<u8>)
    ensures
        r@ == crate::lockfile::k_node_modules() + pkg_name@ + seq![0x2fu8] + rel@,
{
    let mut out = crate::lockfile::k_node_modules_bytes();
    extend_bytes(&mut out, pkg_name);
    out.push(0x2f);
    extend_bytes(&mut out, rel);
    proof {
        assert(out@ =~= crate::lockfile::k_node_modules() + pkg_name@ + seq![0x2fu8] + rel@);
    }
    out
}

/// A lifecycle phase, in execution order.
#[derive(Clone, Copy, PartialEq, Eq, Structural)]
pub enum LifecyclePhase {
    Preinstall,
    Install,
    Postinstall,
}

/// The commands to run for a package: `preinstall`, then `install`, then
/// `postinstall`, each only when set.
pub open spec fn spec_lifecycle(info: PackageInfo) -> Seq<(LifecyclePhase, Seq<u8>)> {
    (match info.preinstall {
        Some(c) => seq![(LifecyclePhase::Preinstall, c@)],
        None => Seq::<(LifecyclePhase, Seq<u8>)>::empty(),
    }) + (match info.install_script {
        Some(c) => seq![(LifecyclePhase::Install, c@)],
        None => Seq::<(LifecyclePhase, Seq<u8>)>::empty(),
    }) + (match info.postinstall {
        Some(c) => seq![(LifecyclePhase::Postinstall, c@)],
        None => Seq::<(LifecyclePhase, Seq<u8>)>::empty(),
    })
}

pub fn lifecycle_commands(info: &PackageInfo) -> (r: Vec<(LifecyclePhase, Vec<u8>)>)
    ensures
        r@.map_values(|e: (LifecyclePhase, Vec<u8>)| (e.0, e.1@)) == spec_lifecycle(*info),
{
    let mut out: Vec<(LifecyclePhase, Vec<u8>)> = Vec::new();
    match &info.preinstall {
        Some(c) => {
            out.push((LifecyclePhase::Preinstall, clone_bytes(c.as_slice())));
        },
        None => {},
    }
    match &info.install_script {
        Some(c) => {
            out.push((LifecyclePhase::Install, clone_bytes(c.as_slice())));
        },
        None => {},
    }
    match &info.postinstall {
        Some(c) => {
            out.push((LifecyclePhase::Postinstall, clone_bytes(c.as_slice())));
        },
        None => {},
    }
    proof {
        assert(out@.map_values(|e: (LifecyclePhase, Vec<u8>)| (e.0, e.1@)) =~= spec_lifecycle(
            *info,
        ));
    }
    out
}

/// The dependency names visible to a package under the default hoist mode:
/// its regular, peer and optional edges, in that order.
pub fn visible_dep_names(info: &PackageInfo) -> (r: Vec<Vec<u8>>)
    ensures
        r@.map_values(|n: Vec<u8>| n@) == crate::lockfile::merged_dep_texts(*info).map_values(
            |p: (Seq<u8>, Seq<u8>)| p.0,
        ),
{
    let ghost m = crate::lockfile::merged_dep_texts(*info);
    let mut out: Vec<Vec<u8>> = Vec::new();
    let mut i: usize = 0;
    while i < info.dependencies.len()
        invariant
            0 <= i <= info.dependencies@.len(),
            m == crate::lockfile::merged_dep_texts(*info),
            out@.len() == i,
            forall|k: int| 0 <= k < i ==> (#[trigger] out@[k])@ == m[k].0,
        decreases info.dependencies@.len() - i,
    {
        out.push(clone_bytes(info.dependencies[i].name.as_slice()));
        proof {
            assert(m[i as int].0 == info.dependencies@[i as int].name@);
        }
        i = i + 1;
    }
    let mut j: usize = 0;
    while j < info.peer_dependencies.len()
        invariant
            0 <= j <= info.peer_dependencies@.len(),
            m == crate::lockfile::merged_dep_texts(*info),
            out@.len() == info.dependencies@.len() + j,
            out@.len() <= m.len(),
            forall|k: int| 0 <= k < out@.len() ==> (#[trigger] out@[k])@ == m[k].0,
        decreases info.peer_dependencies@.len() - j,
    {
        out.push(clone_bytes(info.peer_dependencies[j].name.as_slice()));
        proof {
            let k = info.dependencies@.len() + j;
            assert(m[k as int].0 == info.peer_dependencies@[j as int].name@);
        }
        j = j + 1;
    }
    let mut t: usize = 0;
    while t < info.optional_dependencies.len()
        invariant
            0 <= t <= info.optional_dependencies@.len(),
            m == crate::lockfile::merged_dep_texts(*info),
            out@.len() == info.dependencies@.len() + info.peer_dependencies@.len() + t,
            out@.len() <= m.len(),
            forall|k: int| 0 <= k < out@.len() ==> (#[trigger] out@[k])@ == m[k].0,
        decreases info.optional_dependencies@.len() - t,
    {
        out.push(clone_bytes(info.optional_dependencies[t].name.as_slice()));
        proof {
            let k = info.dependencies@.len() + info.peer_dependencies@.len() + t;
            assert(m[k as int].0 == info.optional_dependencies@[t as int].name@);
        }
        t = t + 1;
    }
    proof {
        assert(out@.map_values(|n: Vec<u8>| n@) =~= m.map_values(|p: (Seq<u8>, Seq<u8>)| p.0));
    }
    out
}

/// A required package named `name` fails validation.
pub open spec fn invalid_required(
    packages: Seq<ResolvedPackage>,
    rt: Option<Version>,
    os: Seq<u8>,
    cpu: Seq<u8>,
    name: Seq<u8>,
) -> bool {
    exists|j: int|
        0 <= j < packages.len() && !crate::platform::spec_package_ok(
            (#[trigger] packages[j]).info,
            rt,
            os,
            cpu,
        ) && !packages[j].optional && name == packages[j].info.name@
}

/// The packages that pass platform and engine validation, in their given
/// order.
pub open spec fn installable_of(
    ps: Seq<ResolvedPackage>,
    rt: Option<Version>,
    os: Seq<u8>,
    cpu: Seq<u8>,
) -> Seq<ResolvedPackage>
    decreases ps.len(),
{
    if ps.len() == 0 {
        Seq::<ResolvedPackage>::empty()
    } else if crate::platform::spec_package_ok(ps[0].info, rt, os, cpu) {
        seq![ps[0]] + installable_of(ps.drop_first(), rt, os, cpu)
    } else {
        installable_of(ps.drop_first(), rt, os, cpu)
    }
}

proof fn lemma_installable_push(
    ps: Seq<ResolvedPackage>,
    x: ResolvedPackage,
    rt: Option<Version>,
    os: Seq<u8>,
    cpu: Seq<u8>,
)
    ensures
        installable_of(ps.push(x), rt, os, cpu) == installable_of(ps, rt, os, cpu) + (
        if crate::platform::spec_package_ok(x.info, rt, os, cpu) {
            seq![x]
        } else {
            Seq::<ResolvedPackage>::empty()
        }),
    decreases ps.len(),
{
    if ps.len() == 0 {
        assert(ps.push(x)[0] == x);
        assert(ps.push(x).drop_first() =~= ps);
        assert(installable_of(ps.push(x), rt, os, cpu) =~= installable_of(ps, rt, os, cpu) + (
        if crate::platform::spec_package_ok(x.info, rt, os, cpu) {
            seq![x]
        } else {
            Seq::<ResolvedPackage>::empty()
        }));
    } else {
        assert(ps.push(x)[0] == ps[0]);
        assert(ps.push(x).drop_first() =~= ps.drop_first().push(x));
        lemma_installable_push(ps.drop_first(), x, rt, os, cpu);
        assert(installable_of(ps.push(x), rt, os, cpu) =~= installable_of(ps, rt, os, cpu) + (
        if crate::platform::spec_package_ok(x.info, rt, os, cpu) {
            seq![x]
        } else {
            Seq::<ResolvedPackage>::empty()
        }));
    }
}

/// Keeps exactly the packages that pass platform or engine validation, in
/// their given order; fails when a required package fails validation. A
/// successful install therefore completes with every failed optional
/// dependency absent from the installed set.
pub fn partition_installable(
    packages: Vec<ResolvedPackage>,
    runtime: Option<&Version>,
    host_os: &[u8],
    host_cpu: &[u8],
) -> (r: Result<Vec<ResolvedPackage>, Vec<u8>>)
    ensures
        match r {
            Ok(kept) => kept@ == installable_of(
                packages@,
                match runtime {
                    Some(v) => Some(*v),
                    None => None,
                },
                host_os@,
                host_cpu@,
            ) && (forall|i: int|
                0 <= i < kept@.len() ==> elem_in(#[trigger] kept@[i], packages@)
                    && crate::platform::spec_package_ok(
                    kept@[i].info,
                    match runtime {
                        Some(v) => Some(*v),
                        None => None,
                    },
                    host_os@,
                    host_cpu@,
                )) && (forall|j: int|
                0 <= j < packages@.len() ==> crate::platform::spec_package_ok(
                    (#[trigger] packages@[j]).info,
                    match runtime {
                        Some(v) => Some(*v),
                        None => None,
                    },
                    host_os@,
                    host_cpu@,
                ) || packages@[j].optional),
            Err(name) => invalid_required(
                packages@,
                match runtime {
                    Some(v) => Some(*v),
                    None => None,
                },
                host_os@,
                host_cpu@,
                name@,
            ),
        },
{
    let ghost orig = packages@;
    let ghost rt = match runtime {
        Some(v) => Some(*v),
        None => None,
    };
    let mut rem = packages;
    let mut kept: Vec<ResolvedPackage> = Vec::new();
    let mut failure: Option<Vec<u8>> = None;
    while rem.len() > 0
        invariant_except_break
            rem@.len() <= orig.len(),
            rem@ =~= orig.skip(orig.len() - rem@.len()),
            rt == (match runtime {
                Some(v) => Some(*v),
                None => None,
            }),
            failure is None,
            kept@ == installable_of(orig.take(orig.len() - rem@.len()), rt, host_os@, host_cpu@),
            forall|i: int|
                0 <= i < kept@.len() ==> elem_in(#[trigger] kept@[i], orig)
                    && crate::platform::spec_package_ok(kept@[i].info, rt, host_os@, host_cpu@),
            forall|j: int|
                0 <= j < orig.len() - rem@.len() ==> crate::platform::spec_package_ok(
                    (#[trigger] orig[j]).info,
                    rt,
                    host_os@,
                    host_cpu@,
                ) || orig[j].optional,
        ensures
            rt == (match runtime {
                Some(v) => Some(*v),
                None => None,
            }),
            failure is None ==> rem@.len() == 0 && kept@ == installable_of(
                orig.take(orig.len() - rem@.len()),
                rt,
                host_os@,
                host_cpu@,
            ) && (forall|
                i: int,
            |
                0 <= i < kept@.len() ==> elem_in(#[trigger] kept@[i], orig)
                    && crate::platform::spec_package_ok(kept@[i].info, rt, host_os@, host_cpu@))
                && (forall|j: int|
                0 <= j < orig.len() ==> crate::platform::spec_package_ok(
                    (#[trigger] orig[j]).info,
                    rt,
                    host_os@,
                    host_cpu@,
                ) || orig[j].optional),
            failure matches Some(n) ==> invalid_required(orig, rt, host_os@, host_cpu@, n@),
        decreases rem@.len(),
    {
        let ghost done = orig.len() - rem@.len();
        let p = rem.remove(0);
        proof {
            assert(p == orig[done as int]);
            assert(rem@ =~= orig.skip(orig.len() - rem@.len()));
        }
        let ok = crate::platform::validate_package(&p.info, runtime, host_os, host_cpu);
        proof {
            assert(orig.take(done + 1) =~= orig.take(done as int).push(orig[done as int]));
            lemma_installable_push(orig.take(done as int), orig[done as int], rt, host_os@, host_cpu@);
        }
        if ok {
            kept.push(p);
            proof {
                assert(kept@.last() == orig[done as int]);
                assert(elem_in(kept@.last(), orig));
                assert(kept@ =~= installable_of(orig.take(done + 1), rt, host_os@, host_cpu@));
            }
        } else if !p.optional {
            proof {
                assert(0 <= done < orig.len());
                assert(!crate::platform::spec_package_ok(
                    orig[done as int].info,
                    rt,
                    host_os@,
                    host_cpu@,
                ));
                assert(!orig[done as int].optional);
                assert(p.info.name@ == orig[done as int].info.name@);
                assert(invalid_required(orig, rt, host_os@, host_cpu@, p.info.name@));
            }
            failure = Some(p.info.name);
            break;
        } else {
            proof {
                assert(kept@ + Seq::<ResolvedPackage>::empty() =~= kept@);
                assert(kept@ =~= installable_of(orig.take(done + 1), rt, host_os@, host_cpu@));
            }
        }
    }
    proof {
        if failure is None {
            assert(orig.take(orig.len() as int) =~= orig);
        }
    }
    match failure {
        Some(name) => Err(name),
        None => Ok(kept),
    }
}

/// The packages of all bands, in band order.
pub open spec fn bands_concat(bs: Seq<Vec<ResolvedPackage>>) -> Seq<ResolvedPackage>
    decreases bs.len(),
{
    if bs.len() == 0 {
        Seq::<ResolvedPackage>::empty()
    } else {
        bs[0]@ + bands_concat(bs.drop_first())
    }
}

proof fn lemma_bands_concat_push(bs: Seq<Vec<ResolvedPackage>>, b: Vec<ResolvedPackage>)
    ensures
        bands_concat(bs.push(b)) == bands_concat(bs) + b@,
    decreases bs.len(),
{
    if bs.len() == 0 {
        assert(bs.push(b)[0] == b);
        assert(bs.push(b).drop_first() =~= bs);
        assert(bands_concat(bs.push(b)) =~= bands_concat(bs) + b@);
    } else {
        assert(bs.push(b)[0] == bs[0]);
        assert(bs.push(b).drop_first() =~= bs.drop_first().push(b));
        lemma_bands_concat_push(bs.drop_first(), b);
        assert(bands_concat(bs.push(b)) =~= bands_concat(bs) + b@);
    }
}

/// Splits a depth-sorted package list into bands of equal depth, deepest
/// band first: the installer completes one band before the next begins.
/// Together the bands hold exactly the input, reversed: nothing resolved
/// is dropped and nothing is invented.
#[verifier::rlimit(100)]
#[verifier::spinoff_prover]
pub fn depth_bands(packages: Vec<ResolvedPackage>) -> (r: Vec<Vec<ResolvedPackage>>)
    requires
        sorted_by_depth(packages@),
    ensures
        bands_concat(r@).len() == packages@.len(),
        forall|i: int|
            0 <= i < packages@.len() ==> bands_concat(r@)[i] == packages@[packages@.len() - 1 - i],
        forall|b: int| 0 <= b < r@.len() ==> (#[trigger] r@[b])@.len() > 0,
        forall|b: int, x: int, y: int|
            0 <= b < r@.len() && 0 <= x < r@[b]@.len() && 0 <= y < r@[b]@.len() ==> (
            #[trigger] r@[b]@[x]).depth == (#[trigger] r@[b]@[y]).depth,
        forall|a: int, b: int|
            0 <= a < b < r@.len() ==> (#[trigger] r@[a])@[0].depth > (#[trigger] r@[b])@[0].depth,
        forall|b: int, x: int|
            0 <= b < r@.len() && 0 <= x < r@[b]@.len() ==> elem_in(
                #[trigger] r@[b]@[x],
                packages@,
            ),
{
    let ghost orig = packages@;
    let mut rem = packages;
    let mut out: Vec<Vec<ResolvedPackage>> = Vec::new();
    proof {
        assert(rem@ =~= orig.take(rem@.len() as int));
        assert(bands_concat(out@) =~= Seq::<ResolvedPackage>::empty());
    }
    while rem.len() > 0
        invariant
            sorted_by_depth(orig),
            rem@.len() <= orig.len(),
            rem@ =~= orig.take(rem@.len() as int),
            bands_concat(out@).len() == orig.len() - rem@.len(),
            forall|i: int|
                0 <= i < bands_concat(out@).len() ==> bands_concat(out@)[i] == orig[orig.len() - 1
                    - i],
            forall|b: int| 0 <= b < out@.len() ==> (#[trigger] out@[b])@.len() > 0,
            forall|b: int, x: int, y: int|
                0 <= b < out@.len() && 0 <= x < out@[b]@.len() && 0 <= y < out@[b]@.len() ==> (
                #[trigger] out@[b]@[x]).depth == (#[trigger] out@[b]@[y]).depth,
            forall|a: int, b: int|
                0 <= a < b < out@.len() ==> (#[trigger] out@[a])@[0].depth > (
                #[trigger] out@[b])@[0].depth,
            forall|b: int, x: int|
                0 <= b < out@.len() && 0 <= x < out@[b]@.len() ==> elem_in(
                    #[trigger] out@[b]@[x],
                    orig,
                ),
            forall|b: int, x: int|
                0 <= b < out@.len() && 0 <= x < out@[b]@.len() && rem@.len() > 0 ==> (
                #[trigger] out@[b]@[x]).depth >= rem@.last().depth,
        decreases rem@.len(),
    {
        let ghost rem0 = rem@;
        let ghost out0 = out@;
        let p = match rem.pop() {
            Some(p) => p,
            None => {
                proof {
                    assert(false);
                }
                return out;
            },
        };
        let ghost pd = p.depth;
        proof {
            assert(p == rem0.last());
            assert(rem@ =~= rem0.drop_last());
            assert(rem@ =~= orig.take(rem@.len() as int));
            assert(orig[rem@.len() as int] == p) by {
                assert(rem0[rem0.len() - 1] == orig.take(rem0.len() as int)[rem0.len() - 1]);
            }
            assert(elem_in(p, orig));
            if rem@.len() > 0 {
                assert(rem@.last() == orig[rem@.len() - 1]);
                assert(rem@.last().depth <= pd);
            }
        }
        let start_new = if out.len() == 0 {
            true
        } else {
            let lb = &out[out.len() - 1];
            proof {
                assert(lb@.len() > 0);
            }
            lb[0].depth != p.depth
        };
        if start_new {
            proof {
                if out0.len() > 0 {
                    assert(out0[out0.len() - 1]@[0].depth >= pd);
                    assert(out0[out0.len() - 1]@[0].depth != pd);
                    assert(out0[out0.len() - 1]@[0].depth > pd);
                }
            }
            let mut band: Vec<ResolvedPackage> = Vec::new();
            band.push(p);
            out.push(band);
            proof {
                assert(out@ =~= out0.push(out@.last()));
                lemma_bands_concat_push(out0, out@.last());
                assert(out@.last()@ =~= seq![p]);
                assert(bands_concat(out@) =~= bands_concat(out0).push(p));
                assert(out@[out@.len() - 1]@[0].depth == pd);
                assert forall|a: int, b: int| 0 <= a < b < out@.len() implies (
                #[trigger] out@[a])@[0].depth > (#[trigger] out@[b])@[0].depth by {
                    if b < out@.len() - 1 {
                        assert(out@[a] == out0[a]);
                        assert(out@[b] == out0[b]);
                    } else if a < out0.len() - 1 {
                        assert(out@[a] == out0[a]);
                        assert(out0[a]@[0].depth > out0[out0.len() - 1]@[0].depth);
                    }
                }
            }
        } else {
            let mut band = match out.pop() {
                Some(b) => b,
                None => {
                    proof {
                        assert(false);
                    }
                    return out;
                },
            };
            let ghost band0 = band@;
            proof {
                assert(band0 == out0.last()@);
                assert(band0[0].depth == pd);
            }
            band.push(p);
            out.push(band);
            proof {
                assert(out@.len() == out0.len());
                assert(forall|b: int| 0 <= b < out@.len() - 1 ==> out@[b] == #[trigger] out0[b]);
                assert(out@[out@.len() - 1]@ =~= band0.push(p));
                assert(out0 =~= out0.drop_last().push(out0.last()));
                lemma_bands_concat_push(out0.drop_last(), out0.last());
                assert(out@ =~= out0.drop_last().push(out@.last()));
                lemma_bands_concat_push(out0.drop_last(), out@.last());
                assert(out@.last()@ =~= band0.push(p));
                assert(bands_concat(out@) =~= bands_concat(out0).push(p));
                assert forall|b: int, x: int, y: int|
                    0 <= b < out@.len() && 0 <= x < out@[b]@.len() && 0 <= y
                        < out@[b]@.len() implies (#[trigger] out@[b]@[x]).depth == (
                    #[trigger] out@[b]@[y]).depth by {
                    if b == out@.len() - 1 {
                        assert(out@[b]@ == band0.push(p));
                    }
                }
            }
        }
    }
    out
}

} // verus!