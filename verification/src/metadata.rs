//! Selection and extraction from registry metadata: which version of a
//! package a requirement picks, and the package record built from the
//! chosen entry of the metadata document's `versions` object.
use vstd::prelude::*;

use crate::bytes::{bytes_eq, clone_bytes};
use crate::json::{json_view, obj_view, spec_obj_get, Json, JsonV};
use crate::lockfile::{
    deps_decoded, get_obj_fields, get_str, k_dependencies_bytes, k_integrity, k_integrity_bytes,
    k_shasum, k_shasum_bytes,
};
use crate::package::{DepEntry, PackageInfo};
use crate::range::{spec_alts_match, VersionRequirement};
use crate::version::{spec_parse_version, spec_version_cmp, version_cmp, Version};

verus! {

/// `v` is a highest version among the keys that satisfy the requirement.
pub open spec fn is_best_choice(keys: Seq<Seq<u8>>, alts: Seq<Seq<crate::range::ClauseV>>, v: crate::version::VersionV) -> bool {
    &&& spec_alts_match(alts, v)
    &&& (forall|i: int|
        0 <= i < keys.len() && spec_parse_version(#[trigger] keys[i]) is Some
            && spec_alts_match(alts, spec_parse_version(keys[i]).unwrap())
            ==> spec_version_cmp(spec_parse_version(keys[i]).unwrap(), v) <= 0)
}

/// No key parses to a version the requirement accepts.
pub open spec fn no_match(keys: Seq<Seq<u8>>, alts: Seq<Seq<crate::range::ClauseV>>) -> bool {
    forall|i: int|
        0 <= i < keys.len() && spec_parse_version(#[trigger] keys[i]) is Some
            ==> !spec_alts_match(alts, spec_parse_version(keys[i]).unwrap())
}

/// Some key parses to a version of the same precedence as `v`.
pub open spec fn key_denotes(keys: Seq<Seq<u8>>, v: crate::version::VersionV) -> bool {
    exists|i: int|
        0 <= i < keys.len() && spec_parse_version(#[trigger] keys[i]) is Some && spec_version_cmp(
            spec_parse_version(keys[i]).unwrap(),
            v,
        ) == 0
}

pub open spec fn keys_view(keys: Seq<Vec<u8>>) -> Seq<Seq<u8>> {
    keys.map_values(|k: Vec<u8>| k@)
}

/// The keys of a `versions` object.
pub open spec fn vf_keys(vf: Seq<(Seq<u8>, JsonV)>) -> Seq<Seq<u8>> {
    vf.map_values(|f: (Seq<u8>, JsonV)| f.0)
}

/// Picks the highest version among the keys that satisfies the
/// requirement; keys that are not versions are ignored. Ties on
/// precedence keep the earlier key.
pub fn find_best_version(keys: &Vec<Vec<u8>>, req: &VersionRequirement) -> (r: Option<
    (usize, Version),
>)
    ensures
        match r {
            Some((idx, v)) => idx < keys@.len() && spec_parse_version(keys@[idx as int]@) == Some(
                v@,
            ) && is_best_choice(keys_view(keys@), req@.alts, v@),
            None => no_match(keys_view(keys@), req@.alts),
        },
{
    let mut best: Option<(usize, Version)> = None;
    let mut i: usize = 0;
    while i < keys.len()
        invariant
            0 <= i <= keys@.len(),
            match best {
                Some((idx, v)) => idx < i && spec_parse_version(keys@[idx as int]@) == Some(v@)
                    && spec_alts_match(req@.alts, v@) && (forall|k: int|
                    0 <= k < i && spec_parse_version((#[trigger] keys@[k])@) is Some
                        && spec_alts_match(req@.alts, spec_parse_version(keys@[k]@).unwrap())
                        ==> spec_version_cmp(spec_parse_version(keys@[k]@).unwrap(), v@) <= 0),
                None => forall|k: int|
                    0 <= k < i && spec_parse_version((#[trigger] keys@[k])@) is Some
                        ==> !spec_alts_match(req@.alts, spec_parse_version(keys@[k]@).unwrap()),
            },
        decreases keys@.len() - i,
    {
        match crate::version::parse_version(keys[i].as_slice()) {
            Some(v) => {
                if req.matches(&v) {
                    let replace = match &best {
                        Some((_, b)) => version_cmp(&v, b) > 0,
                        None => true,
                    };
                    if replace {
                        proof {
                            match best {
                                Some((_, b0)) => {
                                    crate::version::lemma_version_cmp_flip(v@, b0@);
                                    assert forall|k: int|
                                        0 <= k < i + 1 && spec_parse_version(
                                            (#[trigger] keys@[k])@,
                                        ) is Some && spec_alts_match(
                                            req@.alts,
                                            spec_parse_version(keys@[k]@).unwrap(),
                                        ) implies spec_version_cmp(
                                        spec_parse_version(keys@[k]@).unwrap(),
                                        v@,
                                    ) <= 0 by {
                                        if k < i {
                                            crate::version::lemma_version_cmp_trans(
                                                spec_parse_version(keys@[k]@).unwrap(),
                                                b0@,
                                                v@,
                                            );
                                        } else {
                                            crate::version::lemma_version_cmp_refl(v@);
                                        }
                                    }
                                },
                                None => {
                                    crate::version::lemma_version_cmp_refl(v@);
                                },
                            }
                        }
                        best = Some((i, v));
                    }
                }
            },
            None => {},
        }
        i = i + 1;
    }
    proof {
        let kv = keys_view(keys@);
        assert(kv.len() == keys@.len());
        assert(forall|k: int| 0 <= k < keys@.len() ==> #[trigger] kv[k] == keys@[k]@);
        match &best {
            Some((idx, v)) => {
                assert forall|k: int|
                    0 <= k < kv.len() && spec_parse_version(#[trigger] kv[k]) is Some
                        && spec_alts_match(
                        req@.alts,
                        spec_parse_version(kv[k]).unwrap(),
                    ) implies spec_version_cmp(spec_parse_version(kv[k]).unwrap(), v@) <= 0 by {
                    assert(kv[k] == keys@[k]@);
                }
                assert(is_best_choice(kv, req@.alts, v@));
            },
            None => {
                assert forall|k: int|
                    0 <= k < kv.len() && spec_parse_version(
                        #[trigger] kv[k],
                    ) is Some implies !spec_alts_match(
                    req@.alts,
                    spec_parse_version(kv[k]).unwrap(),
                ) by {
                    assert(kv[k] == keys@[k]@);
                }
                assert(no_match(kv, req@.alts));
            },
        }
    }
    best
}

/// The C5a selection rule: a locked version that still satisfies the
/// requirement wins whenever some key denotes it; otherwise the highest
/// satisfying key.
pub fn select_version(
    locked: Option<&Version>,
    keys: &Vec<Vec<u8>>,
    req: &VersionRequirement,
) -> (r: Option<(usize, Version)>)
    ensures
        match r {
            Some((idx, v)) => idx < keys@.len() && spec_parse_version(keys@[idx as int]@) == Some(
                v@,
            ) && ((locked matches Some(lv) && spec_alts_match(req@.alts, lv@)
                && spec_version_cmp(v@, lv@) == 0) || is_best_choice(
                keys_view(keys@),
                req@.alts,
                v@,
            )),
            None => no_match(keys_view(keys@), req@.alts),
        },
        (match locked {
            Some(lv) => (spec_alts_match(req@.alts, lv@) && key_denotes(keys_view(keys@), lv@))
                ==> (r matches Some(p) && spec_version_cmp(p.1@, lv@) == 0),
            None => true,
        }),
{
    match locked {
        Some(lv) => {
            if req.matches(lv) {
                let mut i: usize = 0;
                while i < keys.len()
                    invariant
                        0 <= i <= keys@.len(),
                        locked == Some(lv),
                        spec_alts_match(req@.alts, lv@),
                        forall|k: int|
                            0 <= k < i && spec_parse_version((#[trigger] keys@[k])@) is Some
                                ==> spec_version_cmp(
                                spec_parse_version(keys@[k]@).unwrap(),
                                lv@,
                            ) != 0,
                    decreases keys@.len() - i,
                {
                    match crate::version::parse_version(keys[i].as_slice()) {
                        Some(v) => {
                            if version_cmp(&v, lv) == 0 {
                                return Some((i, v));
                            }
                        },
                        None => {},
                    }
                    i = i + 1;
                }
                proof {
                    let kv = keys_view(keys@);
                    assert(kv.len() == keys@.len());
                    assert(!key_denotes(kv, lv@)) by {
                        assert forall|k: int|
                            0 <= k < kv.len() && spec_parse_version(
                                #[trigger] kv[k],
                            ) is Some implies spec_version_cmp(
                            spec_parse_version(kv[k]).unwrap(),
                            lv@,
                        ) != 0 by {
                            assert(kv[k] == keys@[k]@);
                        }
                    }
                }
                find_best_version(keys, req)
            } else {
                find_best_version(keys, req)
            }
        },
        None => find_best_version(keys, req),
    }
}

/// Why metadata yields no package.
#[derive(Clone, Copy, Debug, PartialEq, Eq, Structural)]
pub enum MetadataError {
    NoVersions,
    NoMatchingVersion,
    NoTarball,
    MalformedEntry,
}

/// The `versions` object of a registry metadata document, when the
/// document carries one.
pub open spec fn doc_versions(doc: Json) -> Option<Seq<(Seq<u8>, JsonV)>> {
    if json_view(doc) is Obj {
        get_obj_fields(json_view(doc)->Obj_0, versions_key())
    } else {
        None
    }
}

/// The entry at `j` is one the selection rule may choose: its key parses
/// to the locked version (when that one satisfies the requirement), or to
/// a highest satisfying version.
pub open spec fn selected_candidate(
    vf: Seq<(Seq<u8>, JsonV)>,
    alts: Seq<Seq<crate::range::ClauseV>>,
    locked: Option<crate::version::VersionV>,
    j: int,
) -> bool {
    &&& 0 <= j < vf.len()
    &&& spec_parse_version(vf[j].0) is Some
    &&& ((locked matches Some(lv) && spec_alts_match(alts, lv) && spec_version_cmp(
        spec_parse_version(vf[j].0).unwrap(),
        lv,
    ) == 0) || is_best_choice(vf_keys(vf), alts, spec_parse_version(vf[j].0).unwrap()))
}

/// The entry carries no `dist.tarball` string.
pub open spec fn entry_lacks_tarball(ev: JsonV) -> bool {
    !(ev is Obj && (match spec_obj_get(ev->Obj_0, dist_key()) {
        Some(JsonV::Obj(dv)) => get_str(dv, tarball_key()) is Some,
        _ => false,
    }))
}

/// The field under `key`, when present, is no well-formed dependency map.
pub open spec fn dep_field_bad(fs: Seq<(Seq<u8>, JsonV)>, key: Seq<u8>) -> bool {
    match spec_obj_get(fs, key) {
        Some(JsonV::Obj(df)) => !crate::lockfile::dep_fields_wf(df),
        Some(_) => true,
        None => false,
    }
}

/// The entry cannot be decoded: it is no object, a dependency map of it is
/// malformed, or a `dist` checksum field is not a string.
pub open spec fn entry_malformed(ev: JsonV) -> bool {
    ||| !(ev is Obj)
    ||| dep_field_bad(ev->Obj_0, crate::lockfile::k_dependencies())
    ||| dep_field_bad(ev->Obj_0, crate::manifest::k_peer_dependencies())
    ||| dep_field_bad(ev->Obj_0, crate::manifest::k_optional_dependencies())
    ||| (match spec_obj_get(ev->Obj_0, dist_key()) {
        Some(JsonV::Obj(dv)) => (match spec_obj_get(dv, k_shasum()) {
            Some(sv) => !(sv is Str),
            None => false,
        }) || (match spec_obj_get(dv, k_integrity()) {
            Some(sv) => !(sv is Str),
            None => false,
        }),
        _ => false,
    })
}

/// What the builder recovers from the chosen `versions` entry.
pub open spec fn entry_extracted(ev: JsonV, info: PackageInfo) -> bool {
    &&& ev is Obj
    &&& (match get_obj_fields(ev->Obj_0, crate::lockfile::k_dependencies()) {
        Some(df) => deps_decoded(df, info.dependencies@),
        None => info.dependencies@.len() == 0,
    })
    &&& (match get_obj_fields(ev->Obj_0, crate::manifest::k_peer_dependencies()) {
        Some(df) => deps_decoded(df, info.peer_dependencies@),
        None => info.peer_dependencies@.len() == 0,
    })
    &&& (match get_obj_fields(ev->Obj_0, crate::manifest::k_optional_dependencies()) {
        Some(df) => deps_decoded(df, info.optional_dependencies@),
        None => info.optional_dependencies@.len() == 0,
    })
    &&& (match spec_obj_get(ev->Obj_0, dist_key()) {
        Some(dv) => dv is Obj && (match get_str(dv->Obj_0, tarball_key()) {
            Some(u) => info.tarball_url@ == u,
            None => false,
        }) && (match get_str(dv->Obj_0, k_shasum()) {
            Some(s) => info.shasum is Some && info.shasum.unwrap()@ == s,
            None => info.shasum is None,
        }) && (match get_str(dv->Obj_0, k_integrity()) {
            Some(s) => info.integrity is Some && info.integrity.unwrap()@ == s,
            None => info.integrity is None,
        }),
        None => false,
    })
    &&& (match get_obj_fields(ev->Obj_0, engines_key()) {
        Some(ef) => (match get_str(ef, node_key()) {
            Some(t) => info.engines_node is Some && info.engines_node.unwrap()@
                == crate::range::spec_req_or_any(t),
            None => info.engines_node is None,
        }),
        None => info.engines_node is None,
    })
    &&& (match spec_obj_get(ev->Obj_0, os_key()) {
        Some(JsonV::Arr(items)) => info.os_constraints@.map_values(|t: Vec<u8>| t@)
            == crate::manifest::spec_strs_of(items),
        _ => info.os_constraints@.len() == 0,
    })
    &&& (match spec_obj_get(ev->Obj_0, cpu_key()) {
        Some(JsonV::Arr(items)) => info.cpu_constraints@.map_values(|t: Vec<u8>| t@)
            == crate::manifest::spec_strs_of(items),
        _ => info.cpu_constraints@.len() == 0,
    })
    &&& (match get_obj_fields(ev->Obj_0, crate::manifest::k_scripts()) {
        Some(sf) => {
            &&& (match get_str(sf, preinstall_key()) {
                Some(c) => info.preinstall is Some && info.preinstall.unwrap()@ == c,
                None => info.preinstall is None,
            })
            &&& (match get_str(sf, install_key()) {
                Some(c) => info.install_script is Some && info.install_script.unwrap()@ == c,
                None => info.install_script is None,
            })
            &&& (match get_str(sf, postinstall_key()) {
                Some(c) => info.postinstall is Some && info.postinstall.unwrap()@ == c,
                None => info.postinstall is None,
            })
        },
        None => info.preinstall is None && info.install_script is None && info.postinstall
            is None,
    })
    &&& (match spec_obj_get(ev->Obj_0, bin_key()) {
        Some(JsonV::Str(path)) => info.bin_entries@.len() == 1 && info.bin_entries@[0].0@
            == crate::metadata::last_segment(info.name@) && info.bin_entries@[0].1@ == path,
        Some(JsonV::Obj(bf)) => bin_entries_decoded(bf, info.bin_entries@),
        _ => info.bin_entries@.len() == 0,
    })
    &&& !info.is_workspace
    &&& info.workspace_path is None
}

/// A `bin` object's string entries, in order.
pub open spec fn bin_entries_decoded(
    bf: Seq<(Seq<u8>, JsonV)>,
    entries: Seq<(Vec<u8>, Vec<u8>)>,
) -> bool {
    entries.map_values(|e: (Vec<u8>, Vec<u8>)| (e.0@, e.1@)) == bin_pairs_of(bf)
}

/// The `(shim, path)` pairs of a `bin` object; non-string values are
/// ignored.
pub open spec fn bin_pairs_of(bf: Seq<(Seq<u8>, JsonV)>) -> Seq<(Seq<u8>, Seq<u8>)>
    decreases bf.len(),
{
    if bf.len() == 0 {
        Seq::empty()
    } else {
        let rest = bin_pairs_of(bf.drop_first());
        if bf[0].1 is Str {
            seq![(bf[0].0, bf[0].1->Str_0)] + rest
        } else {
            rest
        }
    }
}

/// What follows the last `/` of a package name: the default shim name of
/// a string-form `bin`, also for scoped names.
pub open spec fn last_segment(name: Seq<u8>) -> Seq<u8>
    decreases name.len(),
    via last_segment_decreases
{
    match crate::bytes::spec_find(name, 0x2f) {
        None => name,
        Some(i) => last_segment(name.subrange(i + 1, name.len() as int)),
    }
}

#[via_fn]
proof fn last_segment_decreases(name: Seq<u8>) {
    crate::bytes::lemma_spec_find(name, 0x2f);
}

/// `dist`.
pub open spec fn dist_key() -> Seq<u8> {
    seq![0x64u8, 0x69, 0x73, 0x74]
}

fn dist_key_bytes() -> (r: Vec<u8>)
    ensures
        r@ == dist_key(),
{
    let mut v: Vec<u8> = Vec::new();
    v.push(0x64);
    v.push(0x69);
    v.push(0x73);
    v.push(0x74);
    proof {
        assert(v@ =~= dist_key());
    }
    v
}

/// `tarball`.
pub open spec fn tarball_key() -> Seq<u8> {
    seq![0x74u8, 0x61, 0x72, 0x62, 0x61, 0x6c, 0x6c]
}

fn tarball_key_bytes() -> (r: Vec<u8>)
    ensures
        r@ == tarball_key(),
{
    let mut v: Vec<u8> = Vec::new();
    v.push(0x74);
    v.push(0x61);
    v.push(0x72);
    v.push(0x62);
    v.push(0x61);
    v.push(0x6c);
    v.push(0x6c);
    proof {
        assert(v@ =~= tarball_key());
    }
    v
}

fn decode_dep_field(entry_fields: &Vec<(Vec<u8>, Json)>, key: &Vec<u8>) -> (r: Result<
    Vec<DepEntry>,
    MetadataError,
>)
    ensures
        match r {
            Ok(ds) => (match get_obj_fields(obj_view(entry_fields@), key@) {
                Some(df) => deps_decoded(df, ds@),
                None => ds@.len() == 0,
            }) && !dep_field_bad(obj_view(entry_fields@), key@),
            Err(e) => e == MetadataError::MalformedEntry && dep_field_bad(
                obj_view(entry_fields@),
                key@,
            ),
        },
{
    match crate::json::obj_get(entry_fields, key.as_slice()) {
        Some(Json::Obj(dfields)) => {
            proof {
                assert(spec_obj_get(obj_view(entry_fields@), key@) == Some(
                    JsonV::Obj(obj_view(dfields@)),
                ));
            }
            match crate::lockfile::decode_deps(dfields) {
                Some(ds) => Ok(ds),
                None => Err(MetadataError::MalformedEntry),
            }
        },
        Some(_) => Err(MetadataError::MalformedEntry),
        None => {
            let ds: Vec<DepEntry> = Vec::new();
            Ok(ds)
        },
    }
}

/// Some `versions` entry denotes the built record's version and carries
/// its extracted fields.
pub open spec fn chosen_entry(vf: Seq<(Seq<u8>, JsonV)>, info: PackageInfo) -> bool {
    exists|j: int|
        0 <= j < vf.len() && spec_parse_version((#[trigger] vf[j]).0) == Some(info.version@)
            && entry_extracted(vf[j].1, info)
}

/// The locked version's ghost image.
pub open spec fn locked_view(locked: Option<&Version>) -> Option<crate::version::VersionV> {
    match locked {
        Some(lv) => Some(lv@),
        None => None,
    }
}

/// Builds the package record for `name` from a registry metadata document:
/// the requirement (and any locked version) picks an entry of `versions`,
/// whose dependency maps and `dist` fields become the record. Each error
/// names its cause: no `versions` object, no key satisfying the selection,
/// a chosen entry without a `dist.tarball` string, or one that cannot be
/// decoded.
#[verifier::rlimit(100)]
#[verifier::spinoff_prover]
pub fn package_info_from_metadata(
    doc: &Json,
    name: &[u8],
    req: &VersionRequirement,
    locked: Option<&Version>,
) -> (r: Result<PackageInfo, MetadataError>)
    ensures
        match r {
            Ok(info) => info.name@ == name@ && doc_versions(*doc) is Some && chosen_entry(
                doc_versions(*doc).unwrap(),
                info,
            ) && ((locked matches Some(lv) && spec_alts_match(req@.alts, lv@) && spec_version_cmp(
                info.version@,
                lv@,
            ) == 0) || is_best_choice(
                vf_keys(doc_versions(*doc).unwrap()),
                req@.alts,
                info.version@,
            )),
            Err(_) => true,
        },
        (r == Err::<PackageInfo, MetadataError>(MetadataError::NoVersions)) <==> doc_versions(
            *doc,
        ) is None,
        (r == Err::<PackageInfo, MetadataError>(MetadataError::NoMatchingVersion)) <==> (
        doc_versions(*doc) matches Some(vf) && no_match(vf_keys(vf), req@.alts) && !(
        locked matches Some(lv) && spec_alts_match(req@.alts, lv@) && key_denotes(
            vf_keys(vf),
            lv@,
        ))),
        (r == Err::<PackageInfo, MetadataError>(MetadataError::NoTarball)) ==> (doc_versions(
            *doc,
        ) is Some && exists|j: int|
            #[trigger] selected_candidate(
                doc_versions(*doc).unwrap(),
                req@.alts,
                locked_view(locked),
                j,
            ) && entry_lacks_tarball(doc_versions(*doc).unwrap()[j].1)),
        (r == Err::<PackageInfo, MetadataError>(MetadataError::MalformedEntry)) ==> (doc_versions(
            *doc,
        ) is Some && exists|j: int|
            #[trigger] selected_candidate(
                doc_versions(*doc).unwrap(),
                req@.alts,
                locked_view(locked),
                j,
            ) && entry_malformed(doc_versions(*doc).unwrap()[j].1)),
{
    let top = match doc {
        Json::Obj(fields) => fields,
        _ => {
            proof {
                assert(doc_versions(*doc) is None);
            }
            return Err(MetadataError::NoVersions);
        },
    };
    let kv = versions_key_bytes();
    let vfields = match crate::json::obj_get(top, kv.as_slice()) {
        Some(Json::Obj(fs)) => fs,
        Some(_) => {
            proof {
                assert(doc_versions(*doc) is None);
            }
            return Err(MetadataError::NoVersions);
        },
        None => {
            proof {
                assert(doc_versions(*doc) is None);
            }
            return Err(MetadataError::NoVersions);
        },
    };
    proof {
        crate::json::lemma_obj_view_index(vfields@);
    }
    let ghost vf = obj_view(vfields@);
    let mut keys: Vec<Vec<u8>> = Vec::new();
    let mut i: usize = 0;
    while i < vfields.len()
        invariant
            0 <= i <= vfields@.len(),
            json_view(*doc) is Obj,
            json_view(*doc)->Obj_0 == obj_view(top@),
            get_obj_fields(obj_view(top@), versions_key()) == Some(vf),
            vf == obj_view(vfields@),
            vf.len() == vfields@.len(),
            forall|k: int|
                0 <= k < vfields@.len() ==> vf[k] == ((#[trigger] vfields@[k]).0@, json_view(
                    vfields@[k].1,
                )),
            keys@.len() == i,
            forall|k: int| 0 <= k < i ==> (#[trigger] keys@[k])@ == vf[k].0,
        decreases vfields@.len() - i,
    {
        keys.push(clone_bytes(vfields[i].0.as_slice()));
        i = i + 1;
    }
    proof {
        assert(doc_versions(*doc) == Some(vf));
        assert(keys_view(keys@) =~= vf_keys(vf));
    }
    let chosen = match select_version(locked, &keys, req) {
        Some(c) => c,
        None => {
            proof {
                match locked {
                    Some(lv) => {
                        if spec_alts_match(req@.alts, lv@) && key_denotes(vf_keys(vf), lv@) {
                            assert(false);
                        }
                    },
                    None => {},
                }
            }
            return Err(MetadataError::NoMatchingVersion);
        },
    };
    let idx = chosen.0;
    let version = chosen.1;
    let ghost widx = idx as int;
    proof {
        assert(keys@[widx]@ == vf[widx].0);
        assert(vf_keys(vf)[widx] == vf[widx].0);
        assert(spec_parse_version(vf[widx].0) == Some(version@));
        assert(selected_candidate(vf, req@.alts, locked_view(locked), widx));
        assert(doc_versions(*doc).unwrap() == vf);
        assert(selected_candidate(doc_versions(*doc).unwrap(), req@.alts, locked_view(locked), widx));
        assert(doc_versions(*doc).unwrap()[widx].1 == vf[widx].1);
        assert(!(no_match(vf_keys(vf), req@.alts) && !(locked matches Some(lv)
            && spec_alts_match(req@.alts, lv@) && key_denotes(vf_keys(vf), lv@)))) by {
            if is_best_choice(vf_keys(vf), req@.alts, version@) {
                assert(spec_alts_match(req@.alts, version@));
                assert(!no_match(vf_keys(vf), req@.alts));
            } else {
                match locked {
                    Some(lv) => {
                        assert(spec_version_cmp(version@, lv@) == 0);
                        assert(key_denotes(vf_keys(vf), lv@));
                    },
                    None => {},
                }
            }
        }
    }
    let entry_fields = match &vfields[idx].1 {
        Json::Obj(fs) => fs,
        _ => {
            proof {
                assert(!(vf[widx].1 is Obj));
                assert(entry_malformed(vf[widx].1));
            }
            return Err(MetadataError::MalformedEntry);
        },
    };
    proof {
        assert(vf[widx].1 == JsonV::Obj(obj_view(entry_fields@)));
    }
    let mut info = PackageInfo::bare(clone_bytes(name), version);
    let kd = k_dependencies_bytes();
    info.dependencies = match decode_dep_field(entry_fields, &kd) {
        Ok(ds) => ds,
        Err(e) => {
            proof {
                assert(entry_malformed(vf[widx].1));
            }
            return Err(e);
        },
    };
    let kp = crate::manifest::k_peer_dependencies_bytes();
    info.peer_dependencies = match decode_dep_field(entry_fields, &kp) {
        Ok(ds) => ds,
        Err(e) => {
            proof {
                assert(entry_malformed(vf[widx].1));
            }
            return Err(e);
        },
    };
    let ko = crate::manifest::k_optional_dependencies_bytes();
    info.optional_dependencies = match decode_dep_field(entry_fields, &ko) {
        Ok(ds) => ds,
        Err(e) => {
            proof {
                assert(entry_malformed(vf[widx].1));
            }
            return Err(e);
        },
    };
    let dk = dist_key_bytes();
    let dist_fields = match crate::json::obj_get(entry_fields, dk.as_slice()) {
        Some(Json::Obj(fs)) => fs,
        Some(_) => {
            proof {
                assert(entry_lacks_tarball(vf[widx].1));
            }
            return Err(MetadataError::NoTarball);
        },
        None => {
            proof {
                assert(spec_obj_get(obj_view(entry_fields@), dist_key()) is None);
                assert(entry_lacks_tarball(vf[widx].1));
            }
            return Err(MetadataError::NoTarball);
        },
    };
    proof {
        assert(spec_obj_get(obj_view(entry_fields@), dist_key()) == Some(
            JsonV::Obj(obj_view(dist_fields@)),
        ));
    }
    let tk = tarball_key_bytes();
    match crate::json::obj_get(dist_fields, tk.as_slice()) {
        Some(Json::Str(u)) => {
            info.tarball_url = clone_bytes(u.as_slice());
        },
        Some(_) => {
            proof {
                assert(get_str(obj_view(dist_fields@), tarball_key()) is None);
                assert(entry_lacks_tarball(vf[widx].1));
            }
            return Err(MetadataError::NoTarball);
        },
        None => {
            proof {
                assert(get_str(obj_view(dist_fields@), tarball_key()) is None);
                assert(entry_lacks_tarball(vf[widx].1));
            }
            return Err(MetadataError::NoTarball);
        },
    }
    let sk = k_shasum_bytes();
    match crate::json::obj_get(dist_fields, sk.as_slice()) {
        Some(Json::Str(s)) => {
            info.shasum = Some(clone_bytes(s.as_slice()));
        },
        Some(_) => {
            proof {
                assert(entry_malformed(vf[widx].1));
            }
            return Err(MetadataError::MalformedEntry);
        },
        None => {},
    }
    let ik = k_integrity_bytes();
    match crate::json::obj_get(dist_fields, ik.as_slice()) {
        Some(Json::Str(s)) => {
            info.integrity = Some(clone_bytes(s.as_slice()));
        },
        Some(_) => {
            proof {
                assert(entry_malformed(vf[widx].1));
            }
            return Err(MetadataError::MalformedEntry);
        },
        None => {},
    }
    let ek = engines_key_bytes();
    match crate::json::obj_get(entry_fields, ek.as_slice()) {
        Some(Json::Obj(efields)) => {
            let nk = node_key_bytes();
            match crate::json::obj_get(efields, nk.as_slice()) {
                Some(Json::Str(t)) => {
                    info.engines_node = Some(crate::range::req_or_any(t.as_slice()));
                },
                Some(_) => {},
                None => {},
            }
        },
        Some(_) => {},
        None => {},
    }
    let ok = os_key_bytes();
    match crate::json::obj_get(entry_fields, ok.as_slice()) {
        Some(Json::Arr(items)) => {
            proof {
                assert(crate::json::arr_view(items@).skip(0) =~= crate::json::arr_view(items@));
            }
            info.os_constraints = crate::manifest::strs_of_array(items);
        },
        Some(_) => {},
        None => {},
    }
    let ck = cpu_key_bytes();
    match crate::json::obj_get(entry_fields, ck.as_slice()) {
        Some(Json::Arr(items)) => {
            proof {
                assert(crate::json::arr_view(items@).skip(0) =~= crate::json::arr_view(items@));
            }
            info.cpu_constraints = crate::manifest::strs_of_array(items);
        },
        Some(_) => {},
        None => {},
    }
    let sk2 = crate::manifest::k_scripts_bytes_pub();
    match crate::json::obj_get(entry_fields, sk2.as_slice()) {
        Some(Json::Obj(sfields)) => {
            let pk = preinstall_key_bytes();
            match crate::json::obj_get(sfields, pk.as_slice()) {
                Some(Json::Str(c)) => {
                    info.preinstall = Some(clone_bytes(c.as_slice()));
                },
                Some(_) => {},
                None => {},
            }
            let ik2 = install_key_bytes();
            match crate::json::obj_get(sfields, ik2.as_slice()) {
                Some(Json::Str(c)) => {
                    info.install_script = Some(clone_bytes(c.as_slice()));
                },
                Some(_) => {},
                None => {},
            }
            let pk2 = postinstall_key_bytes();
            match crate::json::obj_get(sfields, pk2.as_slice()) {
                Some(Json::Str(c)) => {
                    info.postinstall = Some(clone_bytes(c.as_slice()));
                },
                Some(_) => {},
                None => {},
            }
        },
        Some(_) => {},
        None => {},
    }
    let bk = bin_key_bytes();
    match crate::json::obj_get(entry_fields, bk.as_slice()) {
        Some(Json::Str(path)) => {
            let shim = last_segment_exec(name);
            let mut entries: Vec<(Vec<u8>, Vec<u8>)> = Vec::new();
            entries.push((shim, clone_bytes(path.as_slice())));
            info.bin_entries = entries;
            proof {
                assert(info.bin_entries@[0].0@ == last_segment(name@));
            }
        },
        Some(Json::Obj(bfields)) => {
            proof {
                assert(obj_view(bfields@).skip(0) =~= obj_view(bfields@));
            }
            info.bin_entries = bin_entries_from(bfields, 0);
        },
        Some(_) => {},
        None => {},
    }
    proof {
        assert(entry_extracted(vf[widx].1, info));
        assert(get_obj_fields(json_view(*doc)->Obj_0, versions_key()) == Some(vf));
        assert(spec_parse_version(vf[widx].0) == Some(info.version@));
        assert(chosen_entry(vf, info));
        assert(info.name@ == name@);
    }
    Ok(info)
}

/// `versions`.
pub open spec fn versions_key() -> Seq<u8> {
    seq![0x76u8, 0x65, 0x72, 0x73, 0x69, 0x6f, 0x6e, 0x73]
}

fn versions_key_bytes() -> (r: Vec<u8>)
    ensures
        r@ == versions_key(),
{
    let mut v: Vec<u8> = Vec::new();
    v.push(0x76);
    v.push(0x65);
    v.push(0x72);
    v.push(0x73);
    v.push(0x69);
    v.push(0x6f);
    v.push(0x6e);
    v.push(0x73);
    proof {
        assert(v@ =~= versions_key());
    }
    v
}


/// The default shim name: what follows the last `/` of the package name.
pub fn last_segment_exec(name: &[u8]) -> (r: Vec<u8>)
    ensures
        r@ == last_segment(name@),
    decreases name@.len(),
{
    proof {
        crate::bytes::lemma_spec_find(name@, 0x2f);
    }
    let n = name.len();
    match crate::bytes::find_byte(name, 0x2f) {
        None => clone_bytes(name),
        Some(i) => {
            let rest = vstd::slice::slice_subrange(name, i + 1, n);
            proof {
                assert(rest@ =~= name@.subrange(i as int + 1, name@.len() as int));
            }
            last_segment_exec(rest)
        },
    }
}

/// The string-valued entries of a `bin` object, in order.
fn bin_entries_from(bfields: &Vec<(Vec<u8>, Json)>, i: usize) -> (r: Vec<(Vec<u8>, Vec<u8>)>)
    requires
        i <= bfields@.len(),
    ensures
        r@.map_values(|e: (Vec<u8>, Vec<u8>)| (e.0@, e.1@)) == bin_pairs_of(
            obj_view(bfields@).skip(i as int),
        ),
    decreases bfields@.len() - i,
{
    proof {
        crate::json::lemma_obj_view_index(bfields@);
    }
    let ghost bv = obj_view(bfields@);
    if i == bfields.len() {
        let out: Vec<(Vec<u8>, Vec<u8>)> = Vec::new();
        proof {
            assert(bv.skip(i as int) =~= Seq::<(Seq<u8>, JsonV)>::empty());
            assert(out@.map_values(|e: (Vec<u8>, Vec<u8>)| (e.0@, e.1@)) =~= Seq::<(
                Seq<u8>,
                Seq<u8>,
            )>::empty());
        }
        return out;
    }
    proof {
        assert(bv.skip(i as int)[0] == bv[i as int]);
        assert(bv.skip(i as int).drop_first() =~= bv.skip(i as int + 1));
        assert(bv[i as int] == (bfields@[i as int].0@, json_view(bfields@[i as int].1)));
    }
    let rest = bin_entries_from(bfields, i + 1);
    match &bfields[i].1 {
        Json::Str(path) => {
            proof {
                assert(bv[i as int].1 == JsonV::Str(path@));
            }
            let out = crate::manifest::prepend_pair_pub(
                (clone_bytes(bfields[i].0.as_slice()), clone_bytes(path.as_slice())),
                &rest,
            );
            proof {
                assert(out@.map_values(|e: (Vec<u8>, Vec<u8>)| (e.0@, e.1@)) =~= bin_pairs_of(
                    bv.skip(i as int),
                ));
            }
            out
        },
        _ => {
            proof {
                assert(!(bv[i as int].1 is Str));
                assert(rest@.map_values(|e: (Vec<u8>, Vec<u8>)| (e.0@, e.1@)) =~= bin_pairs_of(
                    bv.skip(i as int),
                ));
            }
            rest
        },
    }
}

pub open spec fn engines_key() -> Seq<u8> {
    seq![0x65u8, 0x6e, 0x67, 0x69, 0x6e, 0x65, 0x73]
}

fn engines_key_bytes() -> (r: Vec<u8>)
    ensures
        r@ == engines_key(),
{
    let mut v: Vec<u8> = Vec::new();
    v.push(0x65);
    v.push(0x6e);
    v.push(0x67);
    v.push(0x69);
    v.push(0x6e);
    v.push(0x65);
    v.push(0x73);
    proof {
        assert(v@ =~= engines_key());
    }
    v
}

pub open spec fn node_key() -> Seq<u8> {
    seq![0x6eu8, 0x6f, 0x64, 0x65]
}

fn node_key_bytes() -> (r: Vec<u8>)
    ensures
        r@ == node_key(),
{
    let mut v: Vec<u8> = Vec::new();
    v.push(0x6e);
    v.push(0x6f);
    v.push(0x64);
    v.push(0x65);
    proof {
        assert(v@ =~= node_key());
    }
    v
}

pub open spec fn os_key() -> Seq<u8> {
    seq![0x6fu8, 0x73]
}

fn os_key_bytes() -> (r: Vec<u8>)
    ensures
        r@ == os_key(),
{
    let mut v: Vec<u8> = Vec::new();
    v.push(0x6f);
    v.push(0x73);
    proof {
        assert(v@ =~= os_key());
    }
    v
}

pub open spec fn cpu_key() -> Seq<u8> {
    seq![0x63u8, 0x70, 0x75]
}

fn cpu_key_bytes() -> (r: Vec<u8>)
    ensures
        r@ == cpu_key(),
{
    let mut v: Vec<u8> = Vec::new();
    v.push(0x63);
    v.push(0x70);
    v.push(0x75);
    proof {
        assert(v@ =~= cpu_key());
    }
    v
}

pub open spec fn preinstall_key() -> Seq<u8> {
    seq![0x70u8, 0x72, 0x65, 0x69, 0x6e, 0x73, 0x74, 0x61, 0x6c, 0x6c]
}

fn preinstall_key_bytes() -> (r: Vec<u8>)
    ensures
        r@ == preinstall_key(),
{
    let mut v: Vec<u8> = Vec::new();
    v.push(0x70);
    v.push(0x72);
    v.push(0x65);
    v.push(0x69);
    v.push(0x6e);
    v.push(0x73);
    v.push(0x74);
    v.push(0x61);
    v.push(0x6c);
    v.push(0x6c);
    proof {
        assert(v@ =~= preinstall_key());
    }
    v
}

pub open spec fn install_key() -> Seq<u8> {
    seq![0x69u8, 0x6e, 0x73, 0x74, 0x61, 0x6c, 0x6c]
}

fn install_key_bytes() -> (r: Vec<u8>)
    ensures
        r@ == install_key(),
{
    let mut v: Vec<u8> = Vec::new();
    v.push(0x69);
    v.push(0x6e);
    v.push(0x73);
    v.push(0x74);
    v.push(0x61);
    v.push(0x6c);
    v.push(0x6c);
    proof {
        assert(v@ =~= install_key());
    }
    v
}

pub open spec fn postinstall_key() -> Seq<u8> {
    seq![0x70u8, 0x6f, 0x73, 0x74, 0x69, 0x6e, 0x73, 0x74, 0x61, 0x6c, 0x6c]
}

fn postinstall_key_bytes() -> (r: Vec<u8>)
    ensures
        r@ == postinstall_key(),
{
    let mut v: Vec<u8> = Vec::new();
    v.push(0x70);
    v.push(0x6f);
    v.push(0x73);
    v.push(0x74);
    v.push(0x69);
    v.push(0x6e);
    v.push(0x73);
    v.push(0x74);
    v.push(0x61);
    v.push(0x6c);
    v.push(0x6c);
    proof {
        assert(v@ =~= postinstall_key());
    }
    v
}

pub open spec fn bin_key() -> Seq<u8> {
    seq![0x62u8, 0x69, 0x6e]
}

fn bin_key_bytes() -> (r: Vec<u8>)
    ensures
        r@ == bin_key(),
{
    let mut v: Vec<u8> = Vec::new();
    v.push(0x62);
    v.push(0x69);
    v.push(0x6e);
    proof {
        assert(v@ =~= bin_key());
    }
    v
}

} // verus!
