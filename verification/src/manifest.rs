//! Operations the collaborators share on manifest and lockfile documents:
//! removing a package from every dependency map, finding a script, picking
//! update targets, collecting installed versions, and tallying advisories.
use vstd::prelude::*;

use crate::bytes::{bytes_eq, clone_bytes, extend_bytes};
use crate::json::{json_view, obj_view, spec_obj_get, Json, JsonV};
use crate::lockfile::{get_obj_fields, get_str, k_dependencies, k_dependencies_bytes, k_version};
use crate::version::spec_parse_version;

verus! {

pub open spec fn k_dev_dependencies() -> Seq<u8> {
    seq![0x64u8, 0x65, 0x76, 0x44, 0x65, 0x70, 0x65, 0x6e, 0x64, 0x65, 0x6e, 0x63, 0x69, 0x65,
        0x73]
}

pub open spec fn k_peer_dependencies() -> Seq<u8> {
    seq![0x70u8, 0x65, 0x65, 0x72, 0x44, 0x65, 0x70, 0x65, 0x6e, 0x64, 0x65, 0x6e, 0x63, 0x69,
        0x65, 0x73]
}

pub open spec fn k_optional_dependencies() -> Seq<u8> {
    seq![0x6fu8, 0x70, 0x74, 0x69, 0x6f, 0x6e, 0x61, 0x6c, 0x44, 0x65, 0x70, 0x65, 0x6e, 0x64,
        0x65, 0x6e, 0x63, 0x69, 0x65, 0x73]
}

pub open spec fn k_scripts() -> Seq<u8> {
    seq![0x73u8, 0x63, 0x72, 0x69, 0x70, 0x74, 0x73]
}

fn k_dev_dependencies_bytes() -> (r: Vec<u8>)
    ensures
        r@ == k_dev_dependencies(),
{
    let mut v: Vec<u8> = Vec::new();
    v.push(0x64);
    v.push(0x65);
    v.push(0x76);
    v.push(0x44);
    v.push(0x65);
    v.push(0x70);
    v.push(0x65);
    v.push(0x6e);
    v.push(0x64);
    v.push(0x65);
    v.push(0x6e);
    v.push(0x63);
    v.push(0x69);
    v.push(0x65);
    v.push(0x73);
    proof {
        assert(v@ =~= k_dev_dependencies());
    }
    v
}

pub fn k_peer_dependencies_bytes() -> (r: Vec<u8>)
    ensures
        r@ == k_peer_dependencies(),
{
    let mut v: Vec<u8> = Vec::new();
    v.push(0x70);
    v.push(0x65);
    v.push(0x65);
    v.push(0x72);
    v.push(0x44);
    v.push(0x65);
    v.push(0x70);
    v.push(0x65);
    v.push(0x6e);
    v.push(0x64);
    v.push(0x65);
    v.push(0x6e);
    v.push(0x63);
    v.push(0x69);
    v.push(0x65);
    v.push(0x73);
    proof {
        assert(v@ =~= k_peer_dependencies());
    }
    v
}

pub fn k_optional_dependencies_bytes() -> (r: Vec<u8>)
    ensures
        r@ == k_optional_dependencies(),
{
    let mut v: Vec<u8> = Vec::new();
    v.push(0x6f);
    v.push(0x70);
    v.push(0x74);
    v.push(0x69);
    v.push(0x6f);
    v.push(0x6e);
    v.push(0x61);
    v.push(0x6c);
    v.push(0x44);
    v.push(0x65);
    v.push(0x70);
    v.push(0x65);
    v.push(0x6e);
    v.push(0x64);
    v.push(0x65);
    v.push(0x6e);
    v.push(0x63);
    v.push(0x69);
    v.push(0x65);
    v.push(0x73);
    proof {
        assert(v@ =~= k_optional_dependencies());
    }
    v
}

/// `scripts` as bytes, for callers outside this module.
pub fn k_scripts_bytes_pub() -> (r: Vec<u8>)
    ensures
        r@ == k_scripts(),
{
    k_scripts_bytes()
}

fn k_scripts_bytes() -> (r: Vec<u8>)
    ensures
        r@ == k_scripts(),
{
    let mut v: Vec<u8> = Vec::new();
    v.push(0x73);
    v.push(0x63);
    v.push(0x72);
    v.push(0x69);
    v.push(0x70);
    v.push(0x74);
    v.push(0x73);
    proof {
        assert(v@ =~= k_scripts());
    }
    v
}

/// One of the four dependency maps of a manifest.
pub open spec fn is_dep_map_key(k: Seq<u8>) -> bool {
    k == k_dependencies() || k == k_dev_dependencies() || k == k_peer_dependencies() || k
        == k_optional_dependencies()
}

/// `k` is one of the names to remove.
pub open spec fn name_listed(names: Seq<Vec<u8>>, k: Seq<u8>) -> bool {
    exists|i: int| 0 <= i < names.len() && (#[trigger] names[i])@ == k
}

/// The fields that survive a removal.
pub open spec fn spec_retain(fields: Seq<(Seq<u8>, JsonV)>, names: Seq<Vec<u8>>) -> Seq<
    (Seq<u8>, JsonV),
>
    decreases fields.len(),
{
    if fields.len() == 0 {
        Seq::empty()
    } else if name_listed(names, fields[0].0) {
        spec_retain(fields.drop_first(), names)
    } else {
        seq![fields[0]] + spec_retain(fields.drop_first(), names)
    }
}

/// How one field of the manifest changes under a removal: a dependency map
/// loses the listed names, everything else stays.
pub open spec fn spec_edit_field(kv: (Seq<u8>, JsonV), names: Seq<Vec<u8>>) -> (Seq<u8>, JsonV) {
    if is_dep_map_key(kv.0) && kv.1 is Obj {
        (kv.0, JsonV::Obj(spec_retain(kv.1->Obj_0, names)))
    } else {
        kv
    }
}

/// How many entries a removal deletes from one field.
pub open spec fn spec_field_removed(kv: (Seq<u8>, JsonV), names: Seq<Vec<u8>>) -> int {
    if is_dep_map_key(kv.0) && kv.1 is Obj {
        kv.1->Obj_0.len() - spec_retain(kv.1->Obj_0, names).len()
    } else {
        0
    }
}

pub open spec fn spec_removed_total(top: Seq<(Seq<u8>, JsonV)>, names: Seq<Vec<u8>>) -> int
    decreases top.len(),
{
    if top.len() == 0 {
        0
    } else {
        spec_field_removed(top[0], names) + spec_removed_total(top.drop_first(), names)
    }
}

proof fn lemma_retain_len(fields: Seq<(Seq<u8>, JsonV)>, names: Seq<Vec<u8>>)
    ensures
        0 <= spec_retain(fields, names).len() <= fields.len(),
    decreases fields.len(),
{
    if fields.len() > 0 {
        lemma_retain_len(fields.drop_first(), names);
    }
}

proof fn lemma_removed_total_snoc(top: Seq<(Seq<u8>, JsonV)>, names: Seq<Vec<u8>>, i: int)
    requires
        0 <= i < top.len(),
    ensures
        spec_removed_total(top.take(i + 1), names) == spec_removed_total(top.take(i), names)
            + spec_field_removed(top[i], names),
    decreases i,
{
    let a = top.take(i + 1);
    let b = top.take(i);
    if i == 0 {
        assert(a =~= seq![top[0]]);
        assert(b =~= Seq::<(Seq<u8>, JsonV)>::empty());
        assert(a.drop_first() =~= Seq::<(Seq<u8>, JsonV)>::empty());
    } else {
        lemma_removed_total_snoc(top.drop_first(), names, i - 1);
        assert(a.drop_first() =~= top.drop_first().take(i));
        assert(b.drop_first() =~= top.drop_first().take(i - 1));
        assert(a[0] == top[0]);
        assert(b[0] == top[0]);
        assert(top.drop_first()[i - 1] == top[i]);
    }
}

fn is_dep_map_key_exec(k: &[u8]) -> (r: bool)
    ensures
        r == is_dep_map_key(k@),
{
    let d = k_dependencies_bytes();
    if bytes_eq(k, d.as_slice()) {
        return true;
    }
    let dd = k_dev_dependencies_bytes();
    if bytes_eq(k, dd.as_slice()) {
        return true;
    }
    let pd = k_peer_dependencies_bytes();
    if bytes_eq(k, pd.as_slice()) {
        return true;
    }
    let od = k_optional_dependencies_bytes();
    bytes_eq(k, od.as_slice())
}

fn name_listed_exec(names: &Vec<Vec<u8>>, k: &[u8]) -> (r: bool)
    ensures
        r == name_listed(names@, k@),
{
    let mut i: usize = 0;
    while i < names.len()
        invariant
            0 <= i <= names@.len(),
            forall|t: int| 0 <= t < i ==> (#[trigger] names@[t])@ != k@,
        decreases names@.len() - i,
    {
        if bytes_eq(names[i].as_slice(), k) {
            return true;
        }
        i = i + 1;
    }
    false
}

fn retain_fields(fields: &Vec<(Vec<u8>, Json)>, names: &Vec<Vec<u8>>) -> (r: Vec<(Vec<u8>, Json)>)
    ensures
        obj_view(r@) == spec_retain(obj_view(fields@), names@),
    decreases fields@.len(),
{
    proof {
        crate::json::lemma_obj_view_index(fields@);
    }
    let ghost fv = obj_view(fields@);
    let mut out: Vec<(Vec<u8>, Json)> = Vec::new();
    let mut i: usize = 0;
    while i < fields.len()
        invariant
            0 <= i <= fields@.len(),
            fv == obj_view(fields@),
            fv.len() == fields@.len(),
            forall|k: int|
                0 <= k < fields@.len() ==> fv[k] == ((#[trigger] fields@[k]).0@, json_view(
                    fields@[k].1,
                )),
            obj_view(out@) == spec_retain(fv.take(i as int), names@),
        decreases fields@.len() - i,
    {
        let ghost out0 = out@;
        let listed = name_listed_exec(names, fields[i].0.as_slice());
        if !listed {
            let key = clone_bytes(fields[i].0.as_slice());
            let val = duplicate_json(&fields[i].1);
            out.push((key, val));
        }
        proof {
            lemma_retain_snoc(fv, names@, i as int);
            if listed {
                assert(obj_view(out@) =~= spec_retain(fv.take(i as int + 1), names@));
            } else {
                crate::json::lemma_obj_view_index(out@);
                crate::json::lemma_obj_view_index(out0);
                assert(out@.len() == out0.len() + 1);
                assert(out@.last().0@ == fv[i as int].0);
                assert(json_view(out@.last().1) == fv[i as int].1);
                assert(forall|k: int| 0 <= k < out0.len() ==> out@[k] == #[trigger] out0[k]);
                assert forall|k: int| 0 <= k < out@.len() implies #[trigger] obj_view(out@)[k]
                    == obj_view(out0).push(fv[i as int])[k] by {
                    if k < out0.len() {
                        assert(obj_view(out@)[k] == (out@[k].0@, json_view(out@[k].1)));
                        assert(obj_view(out0)[k] == (out0[k].0@, json_view(out0[k].1)));
                    } else {
                        assert(obj_view(out@)[k] == (out@[k].0@, json_view(out@[k].1)));
                    }
                }
                assert(obj_view(out@) =~= obj_view(out0).push(fv[i as int]));
                assert(obj_view(out@) =~= spec_retain(fv.take(i as int + 1), names@));
            }
        }
        i = i + 1;
    }
    proof {
        assert(fv.take(fv.len() as int) =~= fv);
    }
    out
}

proof fn lemma_retain_snoc(fields: Seq<(Seq<u8>, JsonV)>, names: Seq<Vec<u8>>, i: int)
    requires
        0 <= i < fields.len(),
    ensures
        spec_retain(fields.take(i + 1), names) == spec_retain(fields.take(i), names) + (
        if name_listed(names, fields[i].0) {
            Seq::<(Seq<u8>, JsonV)>::empty()
        } else {
            seq![fields[i]]
        }),
    decreases i,
{
    let a = fields.take(i + 1);
    let b = fields.take(i);
    if i == 0 {
        assert(a =~= seq![fields[0]]);
        assert(b =~= Seq::<(Seq<u8>, JsonV)>::empty());
        assert(a.drop_first() =~= Seq::<(Seq<u8>, JsonV)>::empty());
        if name_listed(names, fields[0].0) {
            assert(spec_retain(a, names) =~= spec_retain(b, names));
        } else {
            assert(spec_retain(a, names) =~= spec_retain(b, names) + seq![fields[0]]);
        }
    } else {
        lemma_retain_snoc(fields.drop_first(), names, i - 1);
        assert(a.drop_first() =~= fields.drop_first().take(i));
        assert(b.drop_first() =~= fields.drop_first().take(i - 1));
        assert(a[0] == fields[0]);
        assert(b[0] == fields[0]);
        assert(fields.drop_first()[i - 1] == fields[i]);
        if name_listed(names, fields[0].0) {
            assert(spec_retain(a, names) =~= spec_retain(b, names) + (if name_listed(
                names,
                fields[i].0,
            ) {
                Seq::<(Seq<u8>, JsonV)>::empty()
            } else {
                seq![fields[i]]
            }));
        } else {
            assert(spec_retain(a, names) =~= spec_retain(b, names) + (if name_listed(
                names,
                fields[i].0,
            ) {
                Seq::<(Seq<u8>, JsonV)>::empty()
            } else {
                seq![fields[i]]
            }));
        }
    }
}

/// A structural copy of a document.
#[verifier::loop_isolation(false)]
#[verifier::rlimit(100)]
pub fn duplicate_json(v: &Json) -> (r: Json)
    ensures
        json_view(r) == json_view(*v),
    decreases *v,
{
    match v {
        Json::Null => Json::Null,
        Json::Bool(b) => Json::Bool(*b),
        Json::Num(s) => Json::Num(clone_bytes(s.as_slice())),
        Json::Str(s) => Json::Str(clone_bytes(s.as_slice())),
        Json::Arr(items) => {
            proof {
                crate::json::lemma_arr_view_index(items@);
            }
            let mut out: Vec<Json> = Vec::new();
            let mut i: usize = 0;
            while i < items.len()
                invariant
                    0 <= i <= items@.len(),
                    out@.len() == i,
                    forall|k: int|
                        0 <= k < i ==> json_view(#[trigger] out@[k]) == json_view(items@[k]),
                decreases items@.len() - i,
            {
                proof {
                    assert(decreases_to!(*v => v->Arr_0));
                    assert(v->Arr_0 == *items);
                    assert(decreases_to!(*items => items@));
                    assert(decreases_to!(items@ => items@[i as int]));
                    assert(decreases_to!(*v => items@[i as int]));
                }
                let d = duplicate_json(&items[i]);
                out.push(d);
                i = i + 1;
            }
            let ghost outv = out@;
            let r = Json::Arr(out);
            proof {
                assert(r->Arr_0@ == outv);
                crate::json::lemma_arr_view_index(outv);
                assert forall|k: int| 0 <= k < outv.len() implies #[trigger] crate::json::arr_view(
                    outv,
                )[k] == crate::json::arr_view(items@)[k] by {
                    assert(crate::json::arr_view(outv)[k] == json_view(outv[k]));
                    assert(crate::json::arr_view(items@)[k] == json_view(items@[k]));
                }
                assert(crate::json::arr_view(outv) =~= crate::json::arr_view(items@));
            }
            r
        },
        Json::Obj(fields) => {
            proof {
                crate::json::lemma_obj_view_index(fields@);
            }
            let mut out: Vec<(Vec<u8>, Json)> = Vec::new();
            let mut i: usize = 0;
            while i < fields.len()
                invariant
                    0 <= i <= fields@.len(),
                    out@.len() == i,
                    forall|k: int|
                        0 <= k < i ==> (#[trigger] out@[k]).0@ == fields@[k].0@ && json_view(
                            out@[k].1,
                        ) == json_view(fields@[k].1),
                decreases fields@.len() - i,
            {
                proof {
                    assert(decreases_to!(*v => v->Obj_0));
                    assert(v->Obj_0 == *fields);
                    assert(decreases_to!(*fields => fields@));
                    assert(decreases_to!(fields@ => fields@[i as int]));
                    assert(decreases_to!(fields@[i as int] => fields@[i as int].1));
                    assert(decreases_to!(*v => fields@[i as int].1));
                }
                let d = duplicate_json(&fields[i].1);
                out.push((clone_bytes(fields[i].0.as_slice()), d));
                i = i + 1;
            }
            let ghost outv = out@;
            let r = Json::Obj(out);
            proof {
                assert(r->Obj_0@ == outv);
                crate::json::lemma_obj_view_index(outv);
                assert forall|k: int| 0 <= k < outv.len() implies #[trigger] obj_view(outv)[k]
                    == obj_view(fields@)[k] by {
                    assert(obj_view(outv)[k] == (outv[k].0@, json_view(outv[k].1)));
                    assert(obj_view(fields@)[k] == (fields@[k].0@, json_view(fields@[k].1)));
                }
                assert(obj_view(outv) =~= obj_view(fields@));
            }
            r
        },
    }
}

/// A count clamped to what a `usize` can hold.
pub open spec fn sat_cap(x: int) -> int {
    if x <= usize::MAX {
        x
    } else {
        usize::MAX as int
    }
}

/// Removes the listed names from every dependency map of a manifest
/// document, leaving every other field untouched, and counts the entries
/// removed. A name present nowhere removes nothing and leaves the document
/// as it was.
#[verifier::rlimit(100)]
#[verifier::spinoff_prover]
pub fn uninstall_from_manifest(doc: &Json, names: &Vec<Vec<u8>>) -> (r: (Json, usize))
    ensures
        (json_view(*doc) is Obj ==> json_view(r.0) == JsonV::Obj(
            json_view(*doc)->Obj_0.map_values(
                |kv: (Seq<u8>, JsonV)| spec_edit_field(kv, names@),
            ),
        ) && r.1 as int == sat_cap(spec_removed_total(json_view(*doc)->Obj_0, names@))),
        (!(json_view(*doc) is Obj) ==> json_view(r.0) == json_view(*doc) && r.1 == 0),
{
    let top = match doc {
        Json::Obj(fields) => fields,
        _ => {
            return (duplicate_json(doc), 0);
        },
    };
    proof {
        crate::json::lemma_obj_view_index(top@);
    }
    let ghost tv = obj_view(top@);
    let mut out: Vec<(Vec<u8>, Json)> = Vec::new();
    let mut removed: usize = 0;
    let mut i: usize = 0;
    while i < top.len()
        invariant
            0 <= i <= top@.len(),
            tv == obj_view(top@),
            tv.len() == top@.len(),
            forall|k: int|
                0 <= k < top@.len() ==> tv[k] == ((#[trigger] top@[k]).0@, json_view(top@[k].1)),
            out@.len() == i,
            forall|k: int|
                0 <= k < i ==> ((#[trigger] out@[k]).0@, json_view(out@[k].1)) == spec_edit_field(
                    tv[k],
                    names@,
                ),
            removed as int == sat_cap(spec_removed_total(tv.take(i as int), names@)),
        decreases top@.len() - i,
    {
        proof {
            lemma_removed_total_snoc(tv, names@, i as int);
        }
        let key_is_deps = is_dep_map_key_exec(top[i].0.as_slice());
        let key = clone_bytes(top[i].0.as_slice());
        match &top[i].1 {
            Json::Obj(dfields) => {
                if key_is_deps {
                    let kept = retain_fields(dfields, names);
                    proof {
                        assert(tv[i as int].1 == JsonV::Obj(obj_view(dfields@)));
                        assert(tv[i as int].1->Obj_0 == obj_view(dfields@));
                        crate::json::lemma_obj_view_index(dfields@);
                        crate::json::lemma_obj_view_index(kept@);
                        lemma_retain_len(obj_view(dfields@), names@);
                        assert(kept@.len() == spec_retain(obj_view(dfields@), names@).len());
                        lemma_removed_bound(tv, names@, i as int);
                    }
                    let delta = dfields.len() - kept.len();
                    proof {
                        assert(delta as int == spec_field_removed(tv[i as int], names@));
                    }
                    removed = if removed > usize::MAX - delta {
                        usize::MAX
                    } else {
                        removed + delta
                    };
                    out.push((key, Json::Obj(kept)));
                } else {
                    out.push((key, duplicate_json(&top[i].1)));
                }
            },
            _ => {
                out.push((key, duplicate_json(&top[i].1)));
            },
        }
        proof {
            assert(((out@[i as int]).0@, json_view(out@[i as int].1)) == spec_edit_field(
                tv[i as int],
                names@,
            ));
        }
        i = i + 1;
    }
    let ghost outv = out@;
    let r = Json::Obj(out);
    proof {
        assert(tv.take(tv.len() as int) =~= tv);
        assert(r->Obj_0@ == outv);
        crate::json::lemma_obj_view_index(outv);
        let target = tv.map_values(|kv: (Seq<u8>, JsonV)| spec_edit_field(kv, names@));
        assert forall|k: int| 0 <= k < outv.len() implies #[trigger] obj_view(outv)[k]
            == target[k] by {
            assert(obj_view(outv)[k] == (outv[k].0@, json_view(outv[k].1)));
            assert((outv[k].0@, json_view(outv[k].1)) == spec_edit_field(tv[k], names@));
        }
        assert(obj_view(outv) =~= target);
    }
    (r, removed)
}

/// Removal never deletes more entries than the document holds in total
/// positions seen so far, so the count fits.
proof fn lemma_removed_bound(top: Seq<(Seq<u8>, JsonV)>, names: Seq<Vec<u8>>, i: int)
    requires
        0 <= i <= top.len(),
    ensures
        spec_removed_total(top.take(i), names) >= 0,
    decreases i,
{
    if i > 0 {
        lemma_removed_bound(top, names, i - 1);
        lemma_removed_total_snoc(top, names, i - 1);
        lemma_retain_len(top[i - 1].1->Obj_0, names);
    }
}


// ------------------------------------------------------------------
// Scripts
// ------------------------------------------------------------------
/// Why a script cannot run.
#[derive(Clone, Copy, Debug, PartialEq, Eq, Structural)]
pub enum RunError {
    NoScripts,
    ScriptNotFound,
}

/// The script text with the extra arguments appended, space-separated.
pub open spec fn spec_join_args(cmd: Seq<u8>, args: Seq<Seq<u8>>) -> Seq<u8>
    decreases args.len(),
{
    if args.len() == 0 {
        cmd
    } else {
        spec_join_args(cmd + seq![0x20u8] + args[0], args.drop_first())
    }
}

/// The command a `run` invocation executes: the named entry of the
/// manifest's `scripts` object, with the caller's arguments appended.
pub open spec fn spec_run_cmd(v: JsonV, name: Seq<u8>, args: Seq<Seq<u8>>) -> Result<
    Seq<u8>,
    RunError,
> {
    if !(v is Obj) {
        Err(RunError::NoScripts)
    } else {
        match get_obj_fields(v->Obj_0, k_scripts()) {
            None => Err(RunError::NoScripts),
            Some(sf) => match get_str(sf, name) {
                Some(c) => Ok(spec_join_args(c, args)),
                None => Err(RunError::ScriptNotFound),
            },
        }
    }
}

pub fn run_script_command(doc: &Json, name: &[u8], args: &Vec<Vec<u8>>) -> (r: Result<
    Vec<u8>,
    RunError,
>)
    ensures
        match r {
            Ok(cmd) => spec_run_cmd(
                json_view(*doc),
                name@,
                args@.map_values(|a: Vec<u8>| a@),
            ) == Ok::<Seq<u8>, RunError>(cmd@),
            Err(e) => spec_run_cmd(json_view(*doc), name@, args@.map_values(|a: Vec<u8>| a@))
                == Err::<Seq<u8>, RunError>(e),
        },
{
    let top = match doc {
        Json::Obj(fields) => fields,
        _ => {
            return Err(RunError::NoScripts);
        },
    };
    let ks = k_scripts_bytes();
    let sfields = match crate::json::obj_get(top, ks.as_slice()) {
        Some(Json::Obj(fs)) => fs,
        Some(_) => {
            return Err(RunError::NoScripts);
        },
        None => {
            return Err(RunError::NoScripts);
        },
    };
    let cmd0 = match crate::json::obj_get(sfields, name) {
        Some(Json::Str(c)) => c,
        Some(_) => {
            return Err(RunError::ScriptNotFound);
        },
        None => {
            return Err(RunError::ScriptNotFound);
        },
    };
    let ghost argsv = args@.map_values(|a: Vec<u8>| a@);
    let mut cmd = clone_bytes(cmd0.as_slice());
    let mut i: usize = 0;
    proof {
        assert(argsv.skip(0) =~= argsv);
    }
    while i < args.len()
        invariant
            0 <= i <= args@.len(),
            argsv == args@.map_values(|a: Vec<u8>| a@),
            argsv.len() == args@.len(),
            spec_join_args(cmd0@, argsv) == spec_join_args(cmd@, argsv.skip(i as int)),
        decreases args@.len() - i,
    {
        proof {
            assert(argsv.skip(i as int)[0] == argsv[i as int]);
            assert(argsv.skip(i as int).drop_first() =~= argsv.skip(i as int + 1));
            assert(argsv[i as int] == args@[i as int]@);
        }
        let ghost cmd_old = cmd@;
        cmd.push(0x20);
        extend_bytes(&mut cmd, args[i].as_slice());
        proof {
            assert(cmd@ =~= cmd_old + seq![0x20u8] + argsv[i as int]);
        }
        i = i + 1;
    }
    proof {
        assert(argsv.skip(argsv.len() as int) =~= Seq::<Seq<u8>>::empty());
    }
    Ok(cmd)
}

// ------------------------------------------------------------------
// Update targets
// ------------------------------------------------------------------
/// The names of the manifest's direct dependencies.
pub open spec fn spec_dep_names(v: JsonV) -> Seq<Seq<u8>> {
    if v is Obj {
        match get_obj_fields(v->Obj_0, k_dependencies()) {
            Some(df) => df.map_values(|f: (Seq<u8>, JsonV)| f.0),
            None => Seq::empty(),
        }
    } else {
        Seq::empty()
    }
}

/// What an `update` run works on: the requested names, or every direct
/// dependency of the manifest when none were requested.
pub fn update_targets(doc: &Json, requested: &Vec<Vec<u8>>) -> (r: Vec<Vec<u8>>)
    ensures
        requested@.len() > 0 ==> r@.map_values(|n: Vec<u8>| n@) == requested@.map_values(
            |n: Vec<u8>| n@,
        ),
        requested@.len() == 0 ==> r@.map_values(|n: Vec<u8>| n@) == spec_dep_names(
            json_view(*doc),
        ),
{
    if requested.len() > 0 {
        let mut out: Vec<Vec<u8>> = Vec::new();
        let mut i: usize = 0;
        while i < requested.len()
            invariant
                0 <= i <= requested@.len(),
                out@.len() == i,
                forall|k: int| 0 <= k < i ==> (#[trigger] out@[k])@ == requested@[k]@,
            decreases requested@.len() - i,
        {
            out.push(clone_bytes(requested[i].as_slice()));
            i = i + 1;
        }
        proof {
            assert(out@.map_values(|n: Vec<u8>| n@) =~= requested@.map_values(|n: Vec<u8>| n@));
        }
        return out;
    }
    let top = match doc {
        Json::Obj(fields) => fields,
        _ => {
            let out: Vec<Vec<u8>> = Vec::new();
            proof {
                assert(out@.map_values(|n: Vec<u8>| n@) =~= Seq::<Seq<u8>>::empty());
            }
            return out;
        },
    };
    let kd = k_dependencies_bytes();
    let dfields = match crate::json::obj_get(top, kd.as_slice()) {
        Some(Json::Obj(fs)) => fs,
        Some(_) => {
            let out: Vec<Vec<u8>> = Vec::new();
            proof {
                assert(out@.map_values(|n: Vec<u8>| n@) =~= Seq::<Seq<u8>>::empty());
            }
            return out;
        },
        None => {
            let out: Vec<Vec<u8>> = Vec::new();
            proof {
                assert(out@.map_values(|n: Vec<u8>| n@) =~= Seq::<Seq<u8>>::empty());
            }
            return out;
        },
    };
    proof {
        crate::json::lemma_obj_view_index(dfields@);
    }
    let mut out: Vec<Vec<u8>> = Vec::new();
    let mut i: usize = 0;
    while i < dfields.len()
        invariant
            0 <= i <= dfields@.len(),
            obj_view(dfields@).len() == dfields@.len(),
            forall|k: int|
                0 <= k < dfields@.len() ==> obj_view(dfields@)[k] == ((
                #[trigger] dfields@[k]).0@, json_view(dfields@[k].1)),
            out@.len() == i,
            forall|k: int| 0 <= k < i ==> (#[trigger] out@[k])@ == obj_view(dfields@)[k].0,
        decreases dfields@.len() - i,
    {
        out.push(clone_bytes(dfields[i].0.as_slice()));
        i = i + 1;
    }
    proof {
        assert(out@.map_values(|n: Vec<u8>| n@) =~= obj_view(dfields@).map_values(
            |f: (Seq<u8>, JsonV)| f.0,
        ));
    }
    out
}

// ------------------------------------------------------------------
// Installed versions
// ------------------------------------------------------------------
/// The version text of a lockfile entry, when it is an object with a
/// string `version`.
pub open spec fn entry_version_text(ev: JsonV) -> Option<Seq<u8>> {
    if ev is Obj {
        get_str(ev->Obj_0, k_version())
    } else {
        None
    }
}

/// The `(name, version)` pairs a lockfile names, keeping entries whose
/// version text is a well-formed version. The package name is what
/// follows the last `node_modules/` of the entry's path key.
pub open spec fn spec_lock_versions(pk: Seq<(Seq<u8>, JsonV)>) -> Seq<(Seq<u8>, Seq<u8>)>
    decreases pk.len(),
{
    if pk.len() == 0 {
        Seq::empty()
    } else {
        let rest = spec_lock_versions(pk.drop_first());
        match entry_version_text(pk[0].1) {
            Some(vt) => if spec_parse_version(vt) is Some {
                seq![(crate::lockfile::after_last_nm(pk[0].0), vt)] + rest
            } else {
                rest
            },
            None => rest,
        }
    }
}

/// `pair` followed by a copy of `rest`, for callers outside this module.
pub fn prepend_pair_pub(pair: (Vec<u8>, Vec<u8>), rest: &Vec<(Vec<u8>, Vec<u8>)>) -> (r: Vec<
    (Vec<u8>, Vec<u8>),
>)
    ensures
        r@.map_values(|p: (Vec<u8>, Vec<u8>)| (p.0@, p.1@)) == seq![(pair.0@, pair.1@)]
            + rest@.map_values(|p: (Vec<u8>, Vec<u8>)| (p.0@, p.1@)),
{
    prepend_pair(pair, rest)
}

/// `pair` followed by a copy of `rest`.
fn prepend_pair(pair: (Vec<u8>, Vec<u8>), rest: &Vec<(Vec<u8>, Vec<u8>)>) -> (r: Vec<
    (Vec<u8>, Vec<u8>),
>)
    ensures
        r@.map_values(|p: (Vec<u8>, Vec<u8>)| (p.0@, p.1@)) == seq![(pair.0@, pair.1@)]
            + rest@.map_values(|p: (Vec<u8>, Vec<u8>)| (p.0@, p.1@)),
{
    let ghost pair0 = (pair.0@, pair.1@);
    let mut out: Vec<(Vec<u8>, Vec<u8>)> = Vec::new();
    out.push(pair);
    let mut k: usize = 0;
    while k < rest.len()
        invariant
            0 <= k <= rest@.len(),
            out@.len() == k + 1,
            out@[0].0@ == pair0.0,
            out@[0].1@ == pair0.1,
            forall|t: int|
                1 <= t < k + 1 ==> (#[trigger] out@[t]).0@ == rest@[t - 1].0@ && out@[t].1@
                    == rest@[t - 1].1@,
        decreases rest@.len() - k,
    {
        let item = (clone_bytes(rest[k].0.as_slice()), clone_bytes(rest[k].1.as_slice()));
        out.push(item);
        k = k + 1;
    }
    proof {
        assert(out@.map_values(|p: (Vec<u8>, Vec<u8>)| (p.0@, p.1@)) =~= seq![(pair0.0, pair0.1)]
            + rest@.map_values(|p: (Vec<u8>, Vec<u8>)| (p.0@, p.1@)));
    }
    out
}

fn collect_lock_versions(pk_fields: &Vec<(Vec<u8>, Json)>, i: usize) -> (r: Vec<(Vec<u8>, Vec<u8>)>)
    requires
        i <= pk_fields@.len(),
    ensures
        r@.map_values(|p: (Vec<u8>, Vec<u8>)| (p.0@, p.1@)) == spec_lock_versions(
            obj_view(pk_fields@).skip(i as int),
        ),
    decreases pk_fields@.len() - i,
{
    proof {
        crate::json::lemma_obj_view_index(pk_fields@);
    }
    let ghost pk = obj_view(pk_fields@);
    if i == pk_fields.len() {
        let out: Vec<(Vec<u8>, Vec<u8>)> = Vec::new();
        proof {
            assert(pk.skip(i as int) =~= Seq::<(Seq<u8>, JsonV)>::empty());
            assert(out@.map_values(|p: (Vec<u8>, Vec<u8>)| (p.0@, p.1@)) =~= Seq::<(
                Seq<u8>,
                Seq<u8>,
            )>::empty());
        }
        return out;
    }
    proof {
        assert(pk.skip(i as int)[0] == pk[i as int]);
        assert(pk.skip(i as int).drop_first() =~= pk.skip(i as int + 1));
        assert(pk[i as int] == (pk_fields@[i as int].0@, json_view(pk_fields@[i as int].1)));
    }
    let rest = collect_lock_versions(pk_fields, i + 1);
    match &pk_fields[i].1 {
        Json::Obj(efields) => {
            proof {
                assert(pk[i as int].1 == JsonV::Obj(obj_view(efields@)));
            }
            let kv = crate::lockfile::k_version_bytes();
            match crate::json::obj_get(efields, kv.as_slice()) {
                Some(Json::Str(vt)) => {
                    match crate::version::parse_version(vt.as_slice()) {
                        Some(_) => {
                            proof {
                                assert(entry_version_text(pk[i as int].1) == Some(vt@));
                            }
                            let stats = crate::lockfile::nm_stats(pk_fields[i].0.as_slice());
                            let pair = (stats.1, clone_bytes(vt.as_slice()));
                            let out = prepend_pair(pair, &rest);
                            proof {
                                assert(spec_parse_version(vt@) is Some);
                                assert(out@.map_values(|p: (Vec<u8>, Vec<u8>)| (p.0@, p.1@))
                                    =~= spec_lock_versions(pk.skip(i as int)));
                            }
                            return out;
                        },
                        None => {
                            proof {
                                assert(entry_version_text(pk[i as int].1) == Some(vt@));
                                assert(spec_parse_version(vt@) is None);
                            }
                        },
                    }
                },
                Some(_) => {
                    proof {
                        assert(entry_version_text(pk[i as int].1) is None);
                    }
                },
                None => {
                    proof {
                        assert(entry_version_text(pk[i as int].1) is None);
                    }
                },
            }
        },
        _ => {
            proof {
                assert(!(pk[i as int].1 is Obj));
                assert(entry_version_text(pk[i as int].1) is None);
            }
        },
    }
    proof {
        assert(rest@.map_values(|p: (Vec<u8>, Vec<u8>)| (p.0@, p.1@)) =~= spec_lock_versions(
            pk.skip(i as int),
        ));
    }
    rest
}

/// Installed versions according to a lockfile document.
pub fn load_versions_from_lockfile(doc: &Json) -> (r: Vec<(Vec<u8>, Vec<u8>)>)
    ensures
        (json_view(*doc) is Obj && get_obj_fields(json_view(*doc)->Obj_0, crate::lockfile::k_packages()) is Some)
            ==> r@.map_values(|p: (Vec<u8>, Vec<u8>)| (p.0@, p.1@)) == spec_lock_versions(
            get_obj_fields(json_view(*doc)->Obj_0, crate::lockfile::k_packages()).unwrap(),
        ),
        !(json_view(*doc) is Obj && get_obj_fields(json_view(*doc)->Obj_0, crate::lockfile::k_packages()) is Some)
            ==> r@.len() == 0,
{
    let top = match doc {
        Json::Obj(fields) => fields,
        _ => {
            return Vec::new();
        },
    };
    let kp = crate::lockfile::k_packages_bytes();
    let pk_fields = match crate::json::obj_get(top, kp.as_slice()) {
        Some(Json::Obj(fs)) => fs,
        Some(_) => {
            return Vec::new();
        },
        None => {
            return Vec::new();
        },
    };
    proof {
        assert(obj_view(pk_fields@).skip(0) =~= obj_view(pk_fields@));
    }
    collect_lock_versions(pk_fields, 0)
}

/// Leading requirement operators stripped from a dependency text, as the
/// audit collaborator cleans them: `^ ~ > < =`.
pub open spec fn spec_strip_ops(s: Seq<u8>) -> Seq<u8>
    decreases s.len(),
{
    if s.len() > 0 && (s[0] == 0x5e || s[0] == 0x7e || s[0] == 0x3e || s[0] == 0x3c || s[0]
        == 0x3d) {
        spec_strip_ops(s.drop_first())
    } else {
        s
    }
}

fn strip_ops(s: &[u8]) -> (r: Vec<u8>)
    ensures
        r@ == spec_strip_ops(s@),
    decreases s@.len(),
{
    if s.len() > 0 && (s[0] == 0x5e || s[0] == 0x7e || s[0] == 0x3e || s[0] == 0x3c || s[0]
        == 0x3d) {
        let sub = vstd::slice::slice_subrange(s, 1, s.len());
        proof {
            assert(sub@ =~= s@.drop_first());
        }
        strip_ops(sub)
    } else {
        clone_bytes(s)
    }
}

/// The `(name, version)` pairs of the manifest's direct dependencies whose
/// cleaned text is a concrete version.
pub open spec fn spec_manifest_versions(df: Seq<(Seq<u8>, JsonV)>) -> Seq<(Seq<u8>, Seq<u8>)>
    decreases df.len(),
{
    if df.len() == 0 {
        Seq::empty()
    } else {
        let rest = spec_manifest_versions(df.drop_first());
        if df[0].1 is Str && spec_parse_version(spec_strip_ops(df[0].1->Str_0)) is Some {
            seq![(df[0].0, spec_strip_ops(df[0].1->Str_0))] + rest
        } else {
            rest
        }
    }
}

fn collect_manifest_versions(dfields: &Vec<(Vec<u8>, Json)>, i: usize) -> (r: Vec<
    (Vec<u8>, Vec<u8>),
>)
    requires
        i <= dfields@.len(),
    ensures
        r@.map_values(|p: (Vec<u8>, Vec<u8>)| (p.0@, p.1@)) == spec_manifest_versions(
            obj_view(dfields@).skip(i as int),
        ),
    decreases dfields@.len() - i,
{
    proof {
        crate::json::lemma_obj_view_index(dfields@);
    }
    let ghost df = obj_view(dfields@);
    if i == dfields.len() {
        let out: Vec<(Vec<u8>, Vec<u8>)> = Vec::new();
        proof {
            assert(df.skip(i as int) =~= Seq::<(Seq<u8>, JsonV)>::empty());
            assert(out@.map_values(|p: (Vec<u8>, Vec<u8>)| (p.0@, p.1@)) =~= Seq::<(
                Seq<u8>,
                Seq<u8>,
            )>::empty());
        }
        return out;
    }
    proof {
        assert(df.skip(i as int)[0] == df[i as int]);
        assert(df.skip(i as int).drop_first() =~= df.skip(i as int + 1));
        assert(df[i as int] == (dfields@[i as int].0@, json_view(dfields@[i as int].1)));
    }
    let rest = collect_manifest_versions(dfields, i + 1);
    match &dfields[i].1 {
        Json::Str(raw) => {
            proof {
                assert(df[i as int].1 == JsonV::Str(raw@));
            }
            let cleaned = strip_ops(raw.as_slice());
            match crate::version::parse_version(cleaned.as_slice()) {
                Some(_) => {
                    proof {
                        assert(cleaned@ == spec_strip_ops(df[i as int].1->Str_0));
                    }
                    let pair = (clone_bytes(dfields[i].0.as_slice()), cleaned);
                    let out = prepend_pair(pair, &rest);
                    proof {
                        assert(spec_parse_version(spec_strip_ops(df[i as int].1->Str_0))
                            is Some);
                        assert(out@.map_values(|p: (Vec<u8>, Vec<u8>)| (p.0@, p.1@))
                            =~= spec_manifest_versions(df.skip(i as int)));
                    }
                    return out;
                },
                None => {
                    proof {
                        assert(spec_parse_version(spec_strip_ops(df[i as int].1->Str_0))
                            is None);
                    }
                },
            }
        },
        _ => {
            proof {
                assert(!(df[i as int].1 is Str));
            }
        },
    }
    proof {
        assert(rest@.map_values(|p: (Vec<u8>, Vec<u8>)| (p.0@, p.1@)) =~= spec_manifest_versions(
            df.skip(i as int),
        ));
    }
    rest
}

/// Installed versions according to a manifest document's direct
/// dependencies.
pub fn load_versions_from_manifest(doc: &Json) -> (r: Vec<(Vec<u8>, Vec<u8>)>)
    ensures
        (json_view(*doc) is Obj && get_obj_fields(json_view(*doc)->Obj_0, k_dependencies())
            is Some) ==> r@.map_values(|p: (Vec<u8>, Vec<u8>)| (p.0@, p.1@))
            == spec_manifest_versions(
            get_obj_fields(json_view(*doc)->Obj_0, k_dependencies()).unwrap(),
        ),
        !(json_view(*doc) is Obj && get_obj_fields(json_view(*doc)->Obj_0, k_dependencies())
            is Some) ==> r@.len() == 0,
{
    let top = match doc {
        Json::Obj(fields) => fields,
        _ => {
            return Vec::new();
        },
    };
    let kd = k_dependencies_bytes();
    let dfields = match crate::json::obj_get(top, kd.as_slice()) {
        Some(Json::Obj(fs)) => fs,
        Some(_) => {
            return Vec::new();
        },
        None => {
            return Vec::new();
        },
    };
    proof {
        assert(obj_view(dfields@).skip(0) =~= obj_view(dfields@));
    }
    collect_manifest_versions(dfields, 0)
}

/// What a document yields for the lockfile loader.
pub open spec fn spec_lockfile_versions_of(v: JsonV) -> Seq<(Seq<u8>, Seq<u8>)> {
    if v is Obj && get_obj_fields(v->Obj_0, crate::lockfile::k_packages()) is Some {
        spec_lock_versions(get_obj_fields(v->Obj_0, crate::lockfile::k_packages()).unwrap())
    } else {
        Seq::empty()
    }
}

/// What a document yields for the manifest loader.
pub open spec fn spec_manifest_versions_of(v: JsonV) -> Seq<(Seq<u8>, Seq<u8>)> {
    if v is Obj && get_obj_fields(v->Obj_0, k_dependencies()) is Some {
        spec_manifest_versions(get_obj_fields(v->Obj_0, k_dependencies()).unwrap())
    } else {
        Seq::empty()
    }
}

/// What `audit` reports on: the lockfile's versions when a lockfile is at
/// hand, else the manifest's, else nothing.
pub fn load_installed_versions(lockfile: Option<&Json>, manifest: Option<&Json>) -> (r: Vec<
    (Vec<u8>, Vec<u8>),
>)
    ensures
        r@.map_values(|p: (Vec<u8>, Vec<u8>)| (p.0@, p.1@)) == (match lockfile {
            Some(doc) => spec_lockfile_versions_of(json_view(*doc)),
            None => match manifest {
                Some(doc) => spec_manifest_versions_of(json_view(*doc)),
                None => Seq::<(Seq<u8>, Seq<u8>)>::empty(),
            },
        }),
{
    let r = match lockfile {
        Some(doc) => load_versions_from_lockfile(doc),
        None => match manifest {
            Some(doc) => load_versions_from_manifest(doc),
            None => Vec::new(),
        },
    };
    proof {
        if r@.len() == 0 {
            assert(r@.map_values(|p: (Vec<u8>, Vec<u8>)| (p.0@, p.1@)) =~= Seq::<(
                Seq<u8>,
                Seq<u8>,
            )>::empty());
        }
    }
    r
}


/// A dependency map with `name` set to `text`: the first entry named
/// `name` is replaced in place, or one is appended; nothing else moves.
pub open spec fn spec_set_entry(
    df: Seq<(Seq<u8>, JsonV)>,
    name: Seq<u8>,
    text: Seq<u8>,
) -> Seq<(Seq<u8>, JsonV)>
    decreases df.len(),
{
    if df.len() == 0 {
        seq![(name, JsonV::Str(text))]
    } else if df[0].0 == name {
        seq![(name, JsonV::Str(text))] + df.drop_first()
    } else {
        seq![df[0]] + spec_set_entry(df.drop_first(), name, text)
    }
}

/// The dependency map a field value holds: its object fields, or a fresh
/// map when the value is not an object.
pub open spec fn dep_fields_or_empty(v: JsonV) -> Seq<(Seq<u8>, JsonV)> {
    if v is Obj {
        v->Obj_0
    } else {
        Seq::<(Seq<u8>, JsonV)>::empty()
    }
}

/// A manifest with its direct dependency `name` set to `text`: the first
/// `dependencies` field is rewritten in place, every other field keeps its
/// place and value; without one, a fresh map is appended.
pub open spec fn spec_set_direct(
    tv: Seq<(Seq<u8>, JsonV)>,
    name: Seq<u8>,
    text: Seq<u8>,
) -> Seq<(Seq<u8>, JsonV)>
    decreases tv.len(),
{
    if tv.len() == 0 {
        seq![
            (
                k_dependencies(),
                JsonV::Obj(spec_set_entry(Seq::<(Seq<u8>, JsonV)>::empty(), name, text)),
            ),
        ]
    } else if tv[0].0 == k_dependencies() {
        seq![(tv[0].0, JsonV::Obj(spec_set_entry(dep_fields_or_empty(tv[0].1), name, text)))]
            + tv.drop_first()
    } else {
        seq![tv[0]] + spec_set_direct(tv.drop_first(), name, text)
    }
}

/// With the first `dependencies` field at `k`, the rewrite replaces it in
/// place and touches nothing else.
proof fn lemma_set_direct_at(tv: Seq<(Seq<u8>, JsonV)>, k: int, name: Seq<u8>, text: Seq<u8>)
    requires
        0 <= k < tv.len(),
        tv[k].0 == k_dependencies(),
        forall|t: int| 0 <= t < k ==> (#[trigger] tv[t]).0 != k_dependencies(),
    ensures
        spec_set_direct(tv, name, text) == tv.take(k) + seq![
            (tv[k].0, JsonV::Obj(spec_set_entry(dep_fields_or_empty(tv[k].1), name, text))),
        ] + tv.skip(k + 1),
    decreases k,
{
    if k == 0 {
        assert(spec_set_direct(tv, name, text) =~= tv.take(0) + seq![
            (tv[0].0, JsonV::Obj(spec_set_entry(dep_fields_or_empty(tv[0].1), name, text))),
        ] + tv.skip(1));
    } else {
        let rest = tv.drop_first();
        assert(rest[k - 1] == tv[k]);
        assert forall|t: int| 0 <= t < k - 1 implies (#[trigger] rest[t]).0
            != k_dependencies() by {
            assert(rest[t] == tv[t + 1]);
        }
        lemma_set_direct_at(rest, k - 1, name, text);
        assert(spec_set_direct(tv, name, text) =~= tv.take(k) + seq![
            (tv[k].0, JsonV::Obj(spec_set_entry(dep_fields_or_empty(tv[k].1), name, text))),
        ] + tv.skip(k + 1));
    }
}

/// Without a `dependencies` field, the rewrite appends a fresh map.
proof fn lemma_set_direct_absent(tv: Seq<(Seq<u8>, JsonV)>, name: Seq<u8>, text: Seq<u8>)
    requires
        forall|t: int| 0 <= t < tv.len() ==> (#[trigger] tv[t]).0 != k_dependencies(),
    ensures
        spec_set_direct(tv, name, text) == tv + seq![
            (
                k_dependencies(),
                JsonV::Obj(spec_set_entry(Seq::<(Seq<u8>, JsonV)>::empty(), name, text)),
            ),
        ],
    decreases tv.len(),
{
    if tv.len() == 0 {
        assert(spec_set_direct(tv, name, text) =~= tv + seq![
            (
                k_dependencies(),
                JsonV::Obj(spec_set_entry(Seq::<(Seq<u8>, JsonV)>::empty(), name, text)),
            ),
        ]);
    } else {
        let rest = tv.drop_first();
        assert forall|t: int| 0 <= t < rest.len() implies (#[trigger] rest[t]).0
            != k_dependencies() by {
            assert(rest[t] == tv[t + 1]);
        }
        lemma_set_direct_absent(rest, name, text);
        assert(spec_set_direct(tv, name, text) =~= tv + seq![
            (
                k_dependencies(),
                JsonV::Obj(spec_set_entry(Seq::<(Seq<u8>, JsonV)>::empty(), name, text)),
            ),
        ]);
    }
}

/// The rewritten map answers `name` with the text.
proof fn lemma_set_entry_get(df: Seq<(Seq<u8>, JsonV)>, name: Seq<u8>, text: Seq<u8>)
    ensures
        spec_obj_get(spec_set_entry(df, name, text), name) == Some(JsonV::Str(text)),
    decreases df.len(),
{
    if df.len() == 0 {
    } else if df[0].0 == name {
    } else {
        lemma_set_entry_get(df.drop_first(), name, text);
        let s = spec_set_entry(df, name, text);
        assert(s[0] == df[0]);
        assert(s.drop_first() =~= spec_set_entry(df.drop_first(), name, text));
    }
}

/// The rewritten manifest answers `dependencies` with a map holding the
/// pair.
proof fn lemma_set_direct_get(tv: Seq<(Seq<u8>, JsonV)>, name: Seq<u8>, text: Seq<u8>)
    ensures
        get_obj_fields(spec_set_direct(tv, name, text), k_dependencies()) matches Some(df)
            && spec_obj_get(df, name) == Some(JsonV::Str(text)),
    decreases tv.len(),
{
    let s = spec_set_direct(tv, name, text);
    if tv.len() == 0 {
        lemma_set_entry_get(Seq::<(Seq<u8>, JsonV)>::empty(), name, text);
    } else if tv[0].0 == k_dependencies() {
        assert(s[0] == (tv[0].0, JsonV::Obj(spec_set_entry(dep_fields_or_empty(tv[0].1), name, text))));
        lemma_set_entry_get(dep_fields_or_empty(tv[0].1), name, text);
    } else {
        lemma_set_direct_get(tv.drop_first(), name, text);
        assert(s[0] == tv[0]);
        assert(s.drop_first() =~= spec_set_direct(tv.drop_first(), name, text));
    }
}

/// Sets the manifest's direct dependency `name` to the requirement text
/// `text` (the installer writes `^<version>`). The document is rewritten
/// exactly as `spec_set_direct` says: every other top-level field keeps
/// its place and value; a missing or malformed `dependencies` field is
/// replaced by a fresh map.
#[verifier::rlimit(100)]
#[verifier::spinoff_prover]
pub fn set_direct_dependency(doc: &Json, name: &[u8], text: &[u8]) -> (r: Result<Json, ()>)
    ensures
        match r {
            Ok(out) => json_view(*doc) is Obj && json_view(out) == JsonV::Obj(
                spec_set_direct(json_view(*doc)->Obj_0, name@, text@),
            ) && (get_obj_fields(
                json_view(out)->Obj_0,
                k_dependencies(),
            ) matches Some(df) && spec_obj_get(df, name@) == Some(JsonV::Str(text@))),
            Err(_) => !(json_view(*doc) is Obj),
        },
{
    let top = match doc {
        Json::Obj(fields) => fields,
        _ => {
            return Err(());
        },
    };
    proof {
        crate::json::lemma_obj_view_index(top@);
    }
    let ghost tv = obj_view(top@);
    let kd = k_dependencies_bytes();
    let mut out: Vec<(Vec<u8>, Json)> = Vec::new();
    let mut placed = false;
    let ghost mut kpos: int = 0;
    let mut i: usize = 0;
    while i < top.len()
        invariant
            0 <= i <= top@.len(),
            tv == obj_view(top@),
            tv.len() == top@.len(),
            kd@ == k_dependencies(),
            forall|k: int|
                0 <= k < top@.len() ==> tv[k] == ((#[trigger] top@[k]).0@, json_view(top@[k].1)),
            out@.len() == i,
            placed ==> 0 <= kpos < i && tv[kpos].0 == k_dependencies() && (forall|t: int|
                0 <= t < kpos ==> (#[trigger] tv[t]).0 != k_dependencies()) && ((
            out@[kpos]).0@, json_view(out@[kpos].1)) == (
                tv[kpos].0,
                JsonV::Obj(spec_set_entry(dep_fields_or_empty(tv[kpos].1), name@, text@)),
            ),
            forall|t: int|
                0 <= t < i && (placed ==> t != kpos) ==> ((#[trigger] out@[t]).0@, json_view(
                    out@[t].1,
                )) == tv[t],
            !placed ==> forall|t: int| 0 <= t < i ==> (#[trigger] tv[t]).0 != k_dependencies(),
        decreases top@.len() - i,
    {
        let key = clone_bytes(top[i].0.as_slice());
        let is_deps = bytes_eq(key.as_slice(), kd.as_slice());
        if is_deps && !placed {
            let dfields: Vec<(Vec<u8>, Json)> = match &top[i].1 {
                Json::Obj(fs) => {
                    let r = set_entry(fs, name, text);
                    proof {
                        assert(json_view(top@[i as int].1) == JsonV::Obj(obj_view(fs@)));
                        assert(dep_fields_or_empty(tv[i as int].1) == obj_view(fs@));
                    }
                    r
                },
                _ => {
                    let mut fresh: Vec<(Vec<u8>, Json)> = Vec::new();
                    fresh.push((clone_bytes(name), Json::Str(clone_bytes(text))));
                    proof {
                        crate::json::lemma_obj_view_index(fresh@);
                        assert(obj_view(fresh@) =~= spec_set_entry(
                            dep_fields_or_empty(tv[i as int].1),
                            name@,
                            text@,
                        ));
                    }
                    fresh
                },
            };
            let ghost dsnap = dfields@;
            let ghost out0 = out@;
            out.push((key, Json::Obj(dfields)));
            placed = true;
            proof {
                kpos = i as int;
                assert((out@[i as int]).0@ == k_dependencies());
                assert(json_view(out@[i as int].1) == JsonV::Obj(obj_view(dsnap)));
                assert(obj_view(dsnap) == spec_set_entry(
                    dep_fields_or_empty(tv[i as int].1),
                    name@,
                    text@,
                ));
                assert(forall|t: int| 0 <= t < i ==> out@[t] == #[trigger] out0[t]);
            }
        } else {
            let ghost out0 = out@;
            out.push((key, duplicate_json(&top[i].1)));
            proof {
                assert(forall|t: int| 0 <= t < i ==> out@[t] == #[trigger] out0[t]);
                assert(((out@[i as int]).0@, json_view(out@[i as int].1)) == tv[i as int]);
            }
        }
        i = i + 1;
    }
    if !placed {
        let mut fresh: Vec<(Vec<u8>, Json)> = Vec::new();
        fresh.push((clone_bytes(name), Json::Str(clone_bytes(text))));
        proof {
            crate::json::lemma_obj_view_index(fresh@);
            assert(obj_view(fresh@) =~= spec_set_entry(
                Seq::<(Seq<u8>, JsonV)>::empty(),
                name@,
                text@,
            ));
        }
        let ghost dsnap = fresh@;
        let ghost pos = out@.len();
        let ghost out0 = out@;
        out.push((kd, Json::Obj(fresh)));
        proof {
            assert((out@[pos as int]).0@ == k_dependencies());
            assert(json_view(out@[pos as int].1) == JsonV::Obj(obj_view(dsnap)));
            assert(forall|t: int| 0 <= t < pos ==> out@[t] == #[trigger] out0[t]);
        }
    }
    let ghost outv = out@;
    let r = Json::Obj(out);
    proof {
        assert(r->Obj_0@ == outv);
        crate::json::lemma_obj_view_index(outv);
        if placed {
            lemma_set_direct_at(tv, kpos, name@, text@);
            assert forall|t: int| 0 <= t < outv.len() implies #[trigger] obj_view(outv)[t]
                == spec_set_direct(tv, name@, text@)[t] by {
                assert(obj_view(outv)[t] == (outv[t].0@, json_view(outv[t].1)));
                if t < kpos {
                    assert((outv[t].0@, json_view(outv[t].1)) == tv[t]);
                } else if t == kpos {
                } else {
                    assert((outv[t].0@, json_view(outv[t].1)) == tv[t]);
                }
            }
            assert(obj_view(outv) =~= spec_set_direct(tv, name@, text@));
        } else {
            lemma_set_direct_absent(tv, name@, text@);
            assert forall|t: int| 0 <= t < outv.len() implies #[trigger] obj_view(outv)[t]
                == spec_set_direct(tv, name@, text@)[t] by {
                assert(obj_view(outv)[t] == (outv[t].0@, json_view(outv[t].1)));
                if t < tv.len() {
                    assert((outv[t].0@, json_view(outv[t].1)) == tv[t]);
                }
            }
            assert(obj_view(outv) =~= spec_set_direct(tv, name@, text@));
        }
        lemma_set_direct_get(tv, name@, text@);
    }
    Ok(r)
}

/// With the first entry named `name` at `k`, the rewrite replaces it in
/// place and touches nothing else.
proof fn lemma_set_entry_at(df: Seq<(Seq<u8>, JsonV)>, k: int, name: Seq<u8>, text: Seq<u8>)
    requires
        0 <= k < df.len(),
        df[k].0 == name,
        forall|t: int| 0 <= t < k ==> (#[trigger] df[t]).0 != name,
    ensures
        spec_set_entry(df, name, text) == df.take(k) + seq![(name, JsonV::Str(text))] + df.skip(
            k + 1,
        ),
    decreases k,
{
    if k == 0 {
        assert(spec_set_entry(df, name, text) =~= df.take(0) + seq![(name, JsonV::Str(text))]
            + df.skip(1));
    } else {
        let rest = df.drop_first();
        assert(rest[k - 1] == df[k]);
        assert forall|t: int| 0 <= t < k - 1 implies (#[trigger] rest[t]).0 != name by {
            assert(rest[t] == df[t + 1]);
        }
        lemma_set_entry_at(rest, k - 1, name, text);
        assert(spec_set_entry(df, name, text) =~= df.take(k) + seq![(name, JsonV::Str(text))]
            + df.skip(k + 1));
    }
}

/// Without an entry named `name`, the rewrite appends one.
proof fn lemma_set_entry_absent(df: Seq<(Seq<u8>, JsonV)>, name: Seq<u8>, text: Seq<u8>)
    requires
        forall|t: int| 0 <= t < df.len() ==> (#[trigger] df[t]).0 != name,
    ensures
        spec_set_entry(df, name, text) == df + seq![(name, JsonV::Str(text))],
    decreases df.len(),
{
    if df.len() == 0 {
        assert(spec_set_entry(df, name, text) =~= df + seq![(name, JsonV::Str(text))]);
    } else {
        let rest = df.drop_first();
        assert forall|t: int| 0 <= t < rest.len() implies (#[trigger] rest[t]).0 != name by {
            assert(rest[t] == df[t + 1]);
        }
        lemma_set_entry_absent(rest, name, text);
        assert(spec_set_entry(df, name, text) =~= df + seq![(name, JsonV::Str(text))]);
    }
}

/// Replaces the first entry named `name` with the text, or appends one:
/// exactly the `spec_set_entry` rewrite.
fn set_entry(fields: &Vec<(Vec<u8>, Json)>, name: &[u8], text: &[u8]) -> (r: Vec<(Vec<u8>, Json)>)
    ensures
        obj_view(r@) == spec_set_entry(obj_view(fields@), name@, text@),
{
    proof {
        crate::json::lemma_obj_view_index(fields@);
    }
    let ghost fv = obj_view(fields@);
    let mut out: Vec<(Vec<u8>, Json)> = Vec::new();
    let mut replaced = false;
    let ghost mut kpos: int = 0;
    let mut i: usize = 0;
    while i < fields.len()
        invariant
            0 <= i <= fields@.len(),
            fv == obj_view(fields@),
            fv.len() == fields@.len(),
            forall|k: int|
                0 <= k < fields@.len() ==> fv[k] == ((#[trigger] fields@[k]).0@, json_view(
                    fields@[k].1,
                )),
            out@.len() == i,
            replaced ==> 0 <= kpos < i && fv[kpos].0 == name@ && (forall|t: int|
                0 <= t < kpos ==> (#[trigger] fv[t]).0 != name@) && ((out@[kpos]).0@, json_view(
                out@[kpos].1,
            )) == (name@, JsonV::Str(text@)),
            forall|t: int|
                0 <= t < i && (replaced ==> t != kpos) ==> ((#[trigger] out@[t]).0@, json_view(
                    out@[t].1,
                )) == fv[t],
            !replaced ==> forall|t: int| 0 <= t < i ==> (#[trigger] fv[t]).0 != name@,
        decreases fields@.len() - i,
    {
        let key = clone_bytes(fields[i].0.as_slice());
        if !replaced && bytes_eq(key.as_slice(), name) {
            let ghost out0 = out@;
            out.push((key, Json::Str(clone_bytes(text))));
            replaced = true;
            proof {
                kpos = i as int;
                assert((out@[i as int]).0@ == name@);
                assert(json_view(out@[i as int].1) == JsonV::Str(text@));
                assert(forall|t: int| 0 <= t < i ==> out@[t] == #[trigger] out0[t]);
            }
        } else {
            let ghost out0 = out@;
            out.push((key, duplicate_json(&fields[i].1)));
            proof {
                assert(forall|t: int| 0 <= t < i ==> out@[t] == #[trigger] out0[t]);
                assert(((out@[i as int]).0@, json_view(out@[i as int].1)) == fv[i as int]);
            }
        }
        i = i + 1;
    }
    if !replaced {
        let ghost pos = out@.len();
        let ghost out0 = out@;
        out.push((clone_bytes(name), Json::Str(clone_bytes(text))));
        proof {
            assert((out@[pos as int]).0@ == name@);
            assert(json_view(out@[pos as int].1) == JsonV::Str(text@));
            assert(forall|t: int| 0 <= t < pos ==> out@[t] == #[trigger] out0[t]);
        }
    }
    proof {
        crate::json::lemma_obj_view_index(out@);
        if replaced {
            lemma_set_entry_at(fv, kpos, name@, text@);
            assert forall|t: int| 0 <= t < out@.len() implies #[trigger] obj_view(out@)[t]
                == spec_set_entry(fv, name@, text@)[t] by {
                assert(obj_view(out@)[t] == (out@[t].0@, json_view(out@[t].1)));
                if t != kpos {
                    assert((out@[t].0@, json_view(out@[t].1)) == fv[t]);
                }
            }
            assert(obj_view(out@) =~= spec_set_entry(fv, name@, text@));
        } else {
            lemma_set_entry_absent(fv, name@, text@);
            assert forall|t: int| 0 <= t < out@.len() implies #[trigger] obj_view(out@)[t]
                == spec_set_entry(fv, name@, text@)[t] by {
                assert(obj_view(out@)[t] == (out@[t].0@, json_view(out@[t].1)));
                if t < fv.len() {
                    assert((out@[t].0@, json_view(out@[t].1)) == fv[t]);
                }
            }
            assert(obj_view(out@) =~= spec_set_entry(fv, name@, text@));
        }
    }
    out
}


/// How one lockfile field changes when entries are stripped: the
/// `packages` map loses the listed path keys, everything else stays.
pub open spec fn spec_strip_field(kv: (Seq<u8>, JsonV), keys: Seq<Vec<u8>>) -> (Seq<u8>, JsonV) {
    if kv.0 == crate::lockfile::k_packages() && kv.1 is Obj {
        (kv.0, JsonV::Obj(spec_retain(kv.1->Obj_0, keys)))
    } else {
        kv
    }
}

/// Removes the listed path keys (the `node_modules/<name>` forms) from a
/// lockfile's `packages` map, leaving every other field untouched.
#[verifier::rlimit(100)]
#[verifier::spinoff_prover]
pub fn strip_lockfile_entries(doc: &Json, keys: &Vec<Vec<u8>>) -> (r: Json)
    ensures
        (json_view(*doc) is Obj ==> json_view(r) == JsonV::Obj(
            json_view(*doc)->Obj_0.map_values(
                |kv: (Seq<u8>, JsonV)| spec_strip_field(kv, keys@),
            ),
        )),
        (!(json_view(*doc) is Obj) ==> json_view(r) == json_view(*doc)),
{
    let top = match doc {
        Json::Obj(fields) => fields,
        _ => {
            return duplicate_json(doc);
        },
    };
    proof {
        crate::json::lemma_obj_view_index(top@);
    }
    let ghost tv = obj_view(top@);
    let kp = crate::lockfile::k_packages_bytes();
    let mut out: Vec<(Vec<u8>, Json)> = Vec::new();
    let mut i: usize = 0;
    while i < top.len()
        invariant
            0 <= i <= top@.len(),
            tv == obj_view(top@),
            tv.len() == top@.len(),
            kp@ == crate::lockfile::k_packages(),
            forall|k: int|
                0 <= k < top@.len() ==> tv[k] == ((#[trigger] top@[k]).0@, json_view(top@[k].1)),
            out@.len() == i,
            forall|k: int|
                0 <= k < i ==> ((#[trigger] out@[k]).0@, json_view(out@[k].1)) == spec_strip_field(
                    tv[k],
                    keys@,
                ),
        decreases top@.len() - i,
    {
        let key = clone_bytes(top[i].0.as_slice());
        let is_packages = bytes_eq(key.as_slice(), kp.as_slice());
        match &top[i].1 {
            Json::Obj(pfields) => {
                if is_packages {
                    let kept = retain_fields(pfields, keys);
                    proof {
                        assert(tv[i as int].1 == JsonV::Obj(obj_view(pfields@)));
                    }
                    out.push((key, Json::Obj(kept)));
                } else {
                    out.push((key, duplicate_json(&top[i].1)));
                }
            },
            _ => {
                out.push((key, duplicate_json(&top[i].1)));
            },
        }
        proof {
            assert(((out@[i as int]).0@, json_view(out@[i as int].1)) == spec_strip_field(
                tv[i as int],
                keys@,
            ));
        }
        i = i + 1;
    }
    let ghost outv = out@;
    let r = Json::Obj(out);
    proof {
        assert(r->Obj_0@ == outv);
        crate::json::lemma_obj_view_index(outv);
        let target = tv.map_values(|kv: (Seq<u8>, JsonV)| spec_strip_field(kv, keys@));
        assert forall|k: int| 0 <= k < outv.len() implies #[trigger] obj_view(outv)[k]
            == target[k] by {
            assert(obj_view(outv)[k] == (outv[k].0@, json_view(outv[k].1)));
            assert((outv[k].0@, json_view(outv[k].1)) == spec_strip_field(tv[k], keys@));
        }
        assert(obj_view(outv) =~= target);
    }
    r
}


// ------------------------------------------------------------------
// Workspaces
// ------------------------------------------------------------------
pub open spec fn k_workspaces() -> Seq<u8> {
    seq![0x77u8, 0x6f, 0x72, 0x6b, 0x73, 0x70, 0x61, 0x63, 0x65, 0x73]
}

fn k_workspaces_bytes() -> (r: Vec<u8>)
    ensures
        r@ == k_workspaces(),
{
    let mut v: Vec<u8> = Vec::new();
    v.push(0x77);
    v.push(0x6f);
    v.push(0x72);
    v.push(0x6b);
    v.push(0x73);
    v.push(0x70);
    v.push(0x61);
    v.push(0x63);
    v.push(0x65);
    v.push(0x73);
    proof {
        assert(v@ =~= k_workspaces());
    }
    v
}

/// The string items of an array, in order; other items are ignored.
pub open spec fn spec_strs_of(items: Seq<JsonV>) -> Seq<Seq<u8>>
    decreases items.len(),
{
    if items.len() == 0 {
        Seq::empty()
    } else {
        let rest = spec_strs_of(items.drop_first());
        if items[0] is Str {
            seq![items[0]->Str_0] + rest
        } else {
            rest
        }
    }
}

/// The workspace patterns a manifest declares: either a list of strings
/// under `workspaces`, or the list under `workspaces.packages`.
pub open spec fn spec_workspace_patterns(v: JsonV) -> Seq<Seq<u8>> {
    if !(v is Obj) {
        Seq::empty()
    } else {
        match spec_obj_get(v->Obj_0, k_workspaces()) {
            Some(JsonV::Arr(items)) => spec_strs_of(items),
            Some(JsonV::Obj(wf)) => match spec_obj_get(wf, crate::lockfile::k_packages()) {
                Some(JsonV::Arr(items)) => spec_strs_of(items),
                _ => Seq::empty(),
            },
            _ => Seq::empty(),
        }
    }
}

fn prepend_name(name: Vec<u8>, rest: &Vec<Vec<u8>>) -> (r: Vec<Vec<u8>>)
    ensures
        r@.map_values(|n: Vec<u8>| n@) == seq![name@] + rest@.map_values(|n: Vec<u8>| n@),
{
    let ghost n0 = name@;
    let mut out: Vec<Vec<u8>> = Vec::new();
    out.push(name);
    let mut k: usize = 0;
    while k < rest.len()
        invariant
            0 <= k <= rest@.len(),
            out@.len() == k + 1,
            out@[0]@ == n0,
            forall|t: int| 1 <= t < k + 1 ==> (#[trigger] out@[t])@ == rest@[t - 1]@,
        decreases rest@.len() - k,
    {
        out.push(clone_bytes(rest[k].as_slice()));
        k = k + 1;
    }
    proof {
        assert(out@.map_values(|n: Vec<u8>| n@) =~= seq![n0] + rest@.map_values(
            |n: Vec<u8>| n@,
        ));
    }
    out
}

/// The string items of a JSON array.
pub fn strs_of_array(items: &Vec<Json>) -> (r: Vec<Vec<u8>>)
    ensures
        r@.map_values(|n: Vec<u8>| n@) == spec_strs_of(crate::json::arr_view(items@)),
{
    proof {
        assert(crate::json::arr_view(items@).skip(0) =~= crate::json::arr_view(items@));
    }
    strs_from(items, 0)
}

fn strs_from(items: &Vec<Json>, i: usize) -> (r: Vec<Vec<u8>>)
    requires
        i <= items@.len(),
    ensures
        r@.map_values(|n: Vec<u8>| n@) == spec_strs_of(crate::json::arr_view(items@).skip(i as int)),
    decreases items@.len() - i,
{
    proof {
        crate::json::lemma_arr_view_index(items@);
    }
    let ghost av = crate::json::arr_view(items@);
    if i == items.len() {
        let out: Vec<Vec<u8>> = Vec::new();
        proof {
            assert(av.skip(i as int) =~= Seq::<JsonV>::empty());
            assert(out@.map_values(|n: Vec<u8>| n@) =~= Seq::<Seq<u8>>::empty());
        }
        return out;
    }
    proof {
        assert(av.skip(i as int)[0] == av[i as int]);
        assert(av.skip(i as int).drop_first() =~= av.skip(i as int + 1));
        assert(av[i as int] == json_view(items@[i as int]));
    }
    let rest = strs_from(items, i + 1);
    match &items[i] {
        Json::Str(s) => {
            proof {
                assert(av[i as int] == JsonV::Str(s@));
            }
            let out = prepend_name(clone_bytes(s.as_slice()), &rest);
            proof {
                assert(out@.map_values(|n: Vec<u8>| n@) =~= spec_strs_of(av.skip(i as int)));
            }
            out
        },
        _ => {
            proof {
                assert(!(av[i as int] is Str));
                assert(rest@.map_values(|n: Vec<u8>| n@) =~= spec_strs_of(av.skip(i as int)));
            }
            rest
        },
    }
}

/// Reads the workspace patterns of a manifest.
pub fn workspace_patterns(doc: &Json) -> (r: Vec<Vec<u8>>)
    ensures
        r@.map_values(|n: Vec<u8>| n@) == spec_workspace_patterns(json_view(*doc)),
{
    let top = match doc {
        Json::Obj(fields) => fields,
        _ => {
            let out: Vec<Vec<u8>> = Vec::new();
            proof {
                assert(out@.map_values(|n: Vec<u8>| n@) =~= Seq::<Seq<u8>>::empty());
            }
            return out;
        },
    };
    let kw = k_workspaces_bytes();
    match crate::json::obj_get(top, kw.as_slice()) {
        Some(Json::Arr(items)) => {
            proof {
                assert(crate::json::arr_view(items@).skip(0) =~= crate::json::arr_view(items@));
            }
            strs_from(items, 0)
        },
        Some(Json::Obj(wfields)) => {
            let kp = crate::lockfile::k_packages_bytes();
            match crate::json::obj_get(wfields, kp.as_slice()) {
                Some(Json::Arr(items)) => {
                    proof {
                        assert(crate::json::arr_view(items@).skip(0) =~= crate::json::arr_view(
                            items@,
                        ));
                    }
                    strs_from(items, 0)
                },
                _ => {
                    let out: Vec<Vec<u8>> = Vec::new();
                    proof {
                        assert(out@.map_values(|n: Vec<u8>| n@) =~= Seq::<Seq<u8>>::empty());
                    }
                    out
                },
            }
        },
        _ => {
            let out: Vec<Vec<u8>> = Vec::new();
            proof {
                assert(out@.map_values(|n: Vec<u8>| n@) =~= Seq::<Seq<u8>>::empty());
            }
            out
        },
    }
}

/// Whether the manifest names this workspace.
pub fn manifest_has_name(doc: &Json, name: &[u8]) -> (r: bool)
    ensures
        r == (json_view(*doc) is Obj && get_str(json_view(*doc)->Obj_0, crate::lockfile::k_name())
            == Some(name@)),
{
    let top = match doc {
        Json::Obj(fields) => fields,
        _ => {
            return false;
        },
    };
    let kn = crate::lockfile::k_name_bytes();
    match crate::json::obj_get(top, kn.as_slice()) {
        Some(Json::Str(s)) => bytes_eq(s.as_slice(), name),
        Some(_) => false,
        None => false,
    }
}

/// The directory prefix of a `<dir>/*` pattern, or `None` for a literal
/// path pattern.
pub fn pattern_star_prefix(pat: &[u8]) -> (r: Option<Vec<u8>>)
    ensures
        (pat@.len() >= 2 && pat@[pat@.len() - 2] == 0x2f && pat@[pat@.len() - 1] == 0x2a)
            ==> (r matches Some(p) && p@ == pat@.take(pat@.len() - 2)),
        !(pat@.len() >= 2 && pat@[pat@.len() - 2] == 0x2f && pat@[pat@.len() - 1] == 0x2a)
            ==> r is None,
{
    let n = pat.len();
    if n >= 2 && pat[n - 2] == 0x2f && pat[n - 1] == 0x2a {
        let head = vstd::slice::slice_subrange(pat, 0, n - 2);
        proof {
            assert(head@ =~= pat@.take(pat@.len() - 2));
        }
        Some(clone_bytes(head))
    } else {
        None
    }
}


// ------------------------------------------------------------------
// Audit
// ------------------------------------------------------------------
pub open spec fn k_severity() -> Seq<u8> {
    seq![0x73u8, 0x65, 0x76, 0x65, 0x72, 0x69, 0x74, 0x79]
}

fn k_severity_bytes() -> (r: Vec<u8>)
    ensures
        r@ == k_severity(),
{
    let mut v: Vec<u8> = Vec::new();
    v.push(0x73);
    v.push(0x65);
    v.push(0x76);
    v.push(0x65);
    v.push(0x72);
    v.push(0x69);
    v.push(0x74);
    v.push(0x79);
    proof {
        assert(v@ =~= k_severity());
    }
    v
}

/// The request body of an advisory query: each installed name mapped to
/// the one-element list of its version.
pub fn audit_payload(installed: &Vec<(Vec<u8>, Vec<u8>)>) -> (r: Json)
    ensures
        json_view(r) matches JsonV::Obj(fs) && fs.len() == installed@.len() && forall|i: int|
            0 <= i < installed@.len() ==> #[trigger] fs[i] == ((#[trigger] installed@[i]).0@,
            JsonV::Arr(seq![JsonV::Str(installed@[i].1@)])),
{
    let mut fields: Vec<(Vec<u8>, Json)> = Vec::new();
    let mut i: usize = 0;
    while i < installed.len()
        invariant
            0 <= i <= installed@.len(),
            fields@.len() == i,
            forall|k: int|
                0 <= k < i ==> ((#[trigger] fields@[k]).0@, json_view(fields@[k].1)) == (
                    installed@[k].0@,
                    JsonV::Arr(seq![JsonV::Str(installed@[k].1@)]),
                ),
        decreases installed@.len() - i,
    {
        let mut arr: Vec<Json> = Vec::new();
        arr.push(Json::Str(clone_bytes(installed[i].1.as_slice())));
        let ghost arr_snap = arr@;
        fields.push((clone_bytes(installed[i].0.as_slice()), Json::Arr(arr)));
        proof {
            crate::json::lemma_arr_view_index(arr_snap);
            assert(crate::json::arr_view(arr_snap) =~= seq![
                JsonV::Str(installed@[i as int].1@),
            ]);
        }
        i = i + 1;
    }
    let ghost fsnap = fields@;
    let r = Json::Obj(fields);
    proof {
        assert(r->Obj_0@ == fsnap);
        crate::json::lemma_obj_view_index(fsnap);
        assert forall|i: int| 0 <= i < installed@.len() implies #[trigger] obj_view(fsnap)[i] == ((
        #[trigger] installed@[i]).0@, JsonV::Arr(seq![JsonV::Str(installed@[i].1@)])) by {
            assert(obj_view(fsnap)[i] == (fsnap[i].0@, json_view(fsnap[i].1)));
        }
    }
    r
}

/// The severity string of one advisory entry; empty when absent.
pub open spec fn sev_of(adv: JsonV) -> Seq<u8> {
    if adv is Obj {
        match get_str(adv->Obj_0, k_severity()) {
            Some(s) => s,
            None => Seq::empty(),
        }
    } else {
        Seq::empty()
    }
}

/// How many advisories in a list carry this severity.
pub open spec fn count_sev_list(items: Seq<JsonV>, sev: Seq<u8>) -> int
    decreases items.len(),
{
    if items.len() == 0 {
        0
    } else {
        (if sev_of(items[0]) == sev {
            1int
        } else {
            0int
        }) + count_sev_list(items.drop_first(), sev)
    }
}

/// How many advisories a whole response carries with this severity; a
/// field whose value is not a list contributes nothing.
pub open spec fn count_sev(fields: Seq<(Seq<u8>, JsonV)>, sev: Seq<u8>) -> int
    decreases fields.len(),
{
    if fields.len() == 0 {
        0
    } else {
        (if fields[0].1 is Arr {
            count_sev_list(fields[0].1->Arr_0, sev)
        } else {
            0int
        }) + count_sev(fields.drop_first(), sev)
    }
}

/// The total number of advisories of a response.
pub open spec fn count_all(fields: Seq<(Seq<u8>, JsonV)>) -> int
    decreases fields.len(),
{
    if fields.len() == 0 {
        0
    } else {
        (if fields[0].1 is Arr {
            fields[0].1->Arr_0.len() as int
        } else {
            0int
        }) + count_all(fields.drop_first())
    }
}

fn sat_add(a: usize, b: usize) -> (r: usize)
    ensures
        r as int == sat_cap(a + b),
{
    if a > usize::MAX - b {
        usize::MAX
    } else {
        a + b
    }
}

fn count_sev_list_exec(items: &Vec<Json>, sev: &[u8], i: usize) -> (r: usize)
    requires
        i <= items@.len(),
    ensures
        r as int == sat_cap(count_sev_list(crate::json::arr_view(items@).skip(i as int), sev@)),
    decreases items@.len() - i,
{
    proof {
        crate::json::lemma_arr_view_index(items@);
    }
    let ghost av = crate::json::arr_view(items@);
    if i == items.len() {
        proof {
            assert(av.skip(i as int) =~= Seq::<JsonV>::empty());
        }
        return 0;
    }
    proof {
        assert(av.skip(i as int)[0] == av[i as int]);
        assert(av.skip(i as int).drop_first() =~= av.skip(i as int + 1));
        assert(av[i as int] == json_view(items@[i as int]));
        lemma_count_sev_list_nonneg(av.skip(i as int + 1), sev@);
    }
    let rest = count_sev_list_exec(items, sev, i + 1);
    let ks = k_severity_bytes();
    let hit = match &items[i] {
        Json::Obj(afields) => {
            match crate::json::obj_get(afields, ks.as_slice()) {
                Some(Json::Str(s)) => bytes_eq(s.as_slice(), sev),
                Some(_) => {
                    proof {
                        assert(sev_of(av[i as int]) =~= Seq::<u8>::empty());
                    }
                    sev.len() == 0
                },
                None => {
                    proof {
                        assert(sev_of(av[i as int]) =~= Seq::<u8>::empty());
                    }
                    sev.len() == 0
                },
            }
        },
        _ => {
            proof {
                assert(sev_of(av[i as int]) =~= Seq::<u8>::empty());
            }
            sev.len() == 0
        },
    };
    proof {
        if sev.len() == 0 {
            assert(sev@ =~= Seq::<u8>::empty());
        }
    }
    if hit {
        sat_add(rest, 1)
    } else {
        rest
    }
}

proof fn lemma_count_sev_list_nonneg(items: Seq<JsonV>, sev: Seq<u8>)
    ensures
        count_sev_list(items, sev) >= 0,
    decreases items.len(),
{
    if items.len() > 0 {
        lemma_count_sev_list_nonneg(items.drop_first(), sev);
    }
}

proof fn lemma_count_sev_nonneg(fields: Seq<(Seq<u8>, JsonV)>, sev: Seq<u8>)
    ensures
        count_sev(fields, sev) >= 0,
    decreases fields.len(),
{
    if fields.len() > 0 {
        lemma_count_sev_list_nonneg(fields[0].1->Arr_0, sev);
        lemma_count_sev_nonneg(fields.drop_first(), sev);
    }
}

fn count_sev_exec(fields: &Vec<(Vec<u8>, Json)>, sev: &[u8], i: usize) -> (r: usize)
    requires
        i <= fields@.len(),
    ensures
        r as int == sat_cap(count_sev(obj_view(fields@).skip(i as int), sev@)),
    decreases fields@.len() - i,
{
    proof {
        crate::json::lemma_obj_view_index(fields@);
    }
    let ghost ov = obj_view(fields@);
    if i == fields.len() {
        proof {
            assert(ov.skip(i as int) =~= Seq::<(Seq<u8>, JsonV)>::empty());
        }
        return 0;
    }
    proof {
        assert(ov.skip(i as int)[0] == ov[i as int]);
        assert(ov.skip(i as int).drop_first() =~= ov.skip(i as int + 1));
        assert(ov[i as int] == (fields@[i as int].0@, json_view(fields@[i as int].1)));
        lemma_count_sev_nonneg(ov.skip(i as int + 1), sev@);
        lemma_count_sev_list_nonneg(ov[i as int].1->Arr_0, sev@);
    }
    let rest = count_sev_exec(fields, sev, i + 1);
    match &fields[i].1 {
        Json::Arr(items) => {
            proof {
                assert(ov[i as int].1 == JsonV::Arr(crate::json::arr_view(items@)));
                assert(crate::json::arr_view(items@).skip(0) =~= crate::json::arr_view(items@));
            }
            let here = count_sev_list_exec(items, sev, 0);
            sat_add(rest, here)
        },
        _ => {
            proof {
                assert(!(ov[i as int].1 is Arr));
            }
            rest
        },
    }
}

fn count_all_exec(fields: &Vec<(Vec<u8>, Json)>, i: usize) -> (r: usize)
    requires
        i <= fields@.len(),
    ensures
        r as int == sat_cap(count_all(obj_view(fields@).skip(i as int))),
    decreases fields@.len() - i,
{
    proof {
        crate::json::lemma_obj_view_index(fields@);
    }
    let ghost ov = obj_view(fields@);
    if i == fields.len() {
        proof {
            assert(ov.skip(i as int) =~= Seq::<(Seq<u8>, JsonV)>::empty());
        }
        return 0;
    }
    proof {
        assert(ov.skip(i as int)[0] == ov[i as int]);
        assert(ov.skip(i as int).drop_first() =~= ov.skip(i as int + 1));
        assert(ov[i as int] == (fields@[i as int].0@, json_view(fields@[i as int].1)));
        lemma_count_all_nonneg(ov.skip(i as int + 1));
    }
    let rest = count_all_exec(fields, i + 1);
    match &fields[i].1 {
        Json::Arr(items) => {
            proof {
                assert(ov[i as int].1 == JsonV::Arr(crate::json::arr_view(items@)));
                crate::json::lemma_arr_view_index(items@);
            }
            sat_add(rest, items.len())
        },
        _ => {
            proof {
                assert(!(ov[i as int].1 is Arr));
            }
            rest
        },
    }
}

proof fn lemma_count_all_nonneg(fields: Seq<(Seq<u8>, JsonV)>)
    ensures
        count_all(fields) >= 0,
    decreases fields.len(),
{
    if fields.len() > 0 {
        lemma_count_all_nonneg(fields.drop_first());
    }
}

/// The advisory tallies the audit report prints.
pub struct AuditCounts {
    pub total: usize,
    pub critical: usize,
    pub high: usize,
    pub moderate: usize,
    pub low: usize,
}

/// Tallies an advisory response: the total advisory count and the count
/// of each named severity. A document that is not an object counts zero.
pub fn audit_summary(doc: &Json) -> (r: AuditCounts)
    ensures
        json_view(*doc) is Obj ==> {
            &&& r.total as int == sat_cap(count_all(json_view(*doc)->Obj_0))
            &&& r.critical as int == sat_cap(
                count_sev(json_view(*doc)->Obj_0, seq![0x63u8, 0x72, 0x69, 0x74, 0x69, 0x63, 0x61, 0x6c]),
            )
            &&& r.high as int == sat_cap(
                count_sev(json_view(*doc)->Obj_0, seq![0x68u8, 0x69, 0x67, 0x68]),
            )
            &&& r.moderate as int == sat_cap(
                count_sev(json_view(*doc)->Obj_0, seq![0x6du8, 0x6f, 0x64, 0x65, 0x72, 0x61, 0x74, 0x65]),
            )
            &&& r.low as int == sat_cap(
                count_sev(json_view(*doc)->Obj_0, seq![0x6cu8, 0x6f, 0x77]),
            )
        },
        !(json_view(*doc) is Obj) ==> r.total == 0 && r.critical == 0 && r.high == 0 && r.moderate
            == 0 && r.low == 0,
{
    let fields = match doc {
        Json::Obj(fields) => fields,
        _ => {
            return AuditCounts { total: 0, critical: 0, high: 0, moderate: 0, low: 0 };
        },
    };
    proof {
        assert(obj_view(fields@).skip(0) =~= obj_view(fields@));
    }
    let mut critical_name: Vec<u8> = Vec::new();
    critical_name.push(0x63);
    critical_name.push(0x72);
    critical_name.push(0x69);
    critical_name.push(0x74);
    critical_name.push(0x69);
    critical_name.push(0x63);
    critical_name.push(0x61);
    critical_name.push(0x6c);
    let mut high_name: Vec<u8> = Vec::new();
    high_name.push(0x68);
    high_name.push(0x69);
    high_name.push(0x67);
    high_name.push(0x68);
    let mut moderate_name: Vec<u8> = Vec::new();
    moderate_name.push(0x6d);
    moderate_name.push(0x6f);
    moderate_name.push(0x64);
    moderate_name.push(0x65);
    moderate_name.push(0x72);
    moderate_name.push(0x61);
    moderate_name.push(0x74);
    moderate_name.push(0x65);
    let mut low_name: Vec<u8> = Vec::new();
    low_name.push(0x6c);
    low_name.push(0x6f);
    low_name.push(0x77);
    proof {
        assert(critical_name@ =~= seq![0x63u8, 0x72, 0x69, 0x74, 0x69, 0x63, 0x61, 0x6c]);
        assert(high_name@ =~= seq![0x68u8, 0x69, 0x67, 0x68]);
        assert(moderate_name@ =~= seq![0x6du8, 0x6f, 0x64, 0x65, 0x72, 0x61, 0x74, 0x65]);
        assert(low_name@ =~= seq![0x6cu8, 0x6f, 0x77]);
    }
    AuditCounts {
        total: count_all_exec(fields, 0),
        critical: count_sev_exec(fields, critical_name.as_slice(), 0),
        high: count_sev_exec(fields, high_name.as_slice(), 0),
        moderate: count_sev_exec(fields, moderate_name.as_slice(), 0),
        low: count_sev_exec(fields, low_name.as_slice(), 0),
    }
}

} // verus!

