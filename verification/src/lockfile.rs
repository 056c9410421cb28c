//! The lockfile codec: a deterministic JSON document for the resolved
//! graph, with every mapping's keys in ascending byte order, and the reader
//! that recovers resolved packages from such a document. Drift detection
//! compares the manifest's direct dependencies with the lockfile's.
use vstd::prelude::*;

use crate::bytes::{bytes_eq, clone_bytes, extend_bytes};
use crate::json::{json_view, obj_view, spec_obj_get, Json, JsonV};
use crate::package::{DepEntry, PackageInfo, ResolvedPackage};
use crate::range::VersionRequirement;
use crate::version::{lemma_lex_cmp_flip, lemma_lex_cmp_refl, lemma_lex_cmp_trans, spec_lex_cmp, spec_parse_version, spec_render_version, Version};

verus! {

/// `name`.
pub open spec fn k_name() -> Seq<u8> {
    seq![0x6eu8, 0x61, 0x6d, 0x65]
}

pub fn k_name_bytes() -> (r: Vec<u8>)
    ensures
        r@ == k_name(),
{
    let mut v: Vec<u8> = Vec::new();
    v.push(0x6e);
    v.push(0x61);
    v.push(0x6d);
    v.push(0x65);
    proof {
        assert(v@ =~= k_name());
    }
    v
}

/// `version`.
pub open spec fn k_version() -> Seq<u8> {
    seq![0x76u8, 0x65, 0x72, 0x73, 0x69, 0x6f, 0x6e]
}

pub fn k_version_bytes() -> (r: Vec<u8>)
    ensures
        r@ == k_version(),
{
    let mut v: Vec<u8> = Vec::new();
    v.push(0x76);
    v.push(0x65);
    v.push(0x72);
    v.push(0x73);
    v.push(0x69);
    v.push(0x6f);
    v.push(0x6e);
    proof {
        assert(v@ =~= k_version());
    }
    v
}

/// `lockfileVersion`.
pub open spec fn k_lockfile_version() -> Seq<u8> {
    seq![0x6cu8, 0x6f, 0x63, 0x6b, 0x66, 0x69, 0x6c, 0x65, 0x56, 0x65, 0x72, 0x73, 0x69, 0x6f, 0x6e]
}

pub fn k_lockfile_version_bytes() -> (r: Vec<u8>)
    ensures
        r@ == k_lockfile_version(),
{
    let mut v: Vec<u8> = Vec::new();
    v.push(0x6c);
    v.push(0x6f);
    v.push(0x63);
    v.push(0x6b);
    v.push(0x66);
    v.push(0x69);
    v.push(0x6c);
    v.push(0x65);
    v.push(0x56);
    v.push(0x65);
    v.push(0x72);
    v.push(0x73);
    v.push(0x69);
    v.push(0x6f);
    v.push(0x6e);
    proof {
        assert(v@ =~= k_lockfile_version());
    }
    v
}

/// `requires`.
pub open spec fn k_requires() -> Seq<u8> {
    seq![0x72u8, 0x65, 0x71, 0x75, 0x69, 0x72, 0x65, 0x73]
}

pub fn k_requires_bytes() -> (r: Vec<u8>)
    ensures
        r@ == k_requires(),
{
    let mut v: Vec<u8> = Vec::new();
    v.push(0x72);
    v.push(0x65);
    v.push(0x71);
    v.push(0x75);
    v.push(0x69);
    v.push(0x72);
    v.push(0x65);
    v.push(0x73);
    proof {
        assert(v@ =~= k_requires());
    }
    v
}

/// `dependencies`.
pub open spec fn k_dependencies() -> Seq<u8> {
    seq![0x64u8, 0x65, 0x70, 0x65, 0x6e, 0x64, 0x65, 0x6e, 0x63, 0x69, 0x65, 0x73]
}

pub fn k_dependencies_bytes() -> (r: Vec<u8>)
    ensures
        r@ == k_dependencies(),
{
    let mut v: Vec<u8> = Vec::new();
    v.push(0x64);
    v.push(0x65);
    v.push(0x70);
    v.push(0x65);
    v.push(0x6e);
    v.push(0x64);
    v.push(0x65);
    v.push(0x6e);
    v.push(0x63);
    v.push(0x69);
    v.push(0x65);
    v.push(0x73);
    proof {
        assert(v@ =~= k_dependencies());
    }
    v
}

/// `workspacePaths`.
pub open spec fn k_workspace_paths() -> Seq<u8> {
    seq![0x77u8, 0x6f, 0x72, 0x6b, 0x73, 0x70, 0x61, 0x63, 0x65, 0x50, 0x61, 0x74, 0x68, 0x73]
}

pub fn k_workspace_paths_bytes() -> (r: Vec<u8>)
    ensures
        r@ == k_workspace_paths(),
{
    let mut v: Vec<u8> = Vec::new();
    v.push(0x77);
    v.push(0x6f);
    v.push(0x72);
    v.push(0x6b);
    v.push(0x73);
    v.push(0x70);
    v.push(0x61);
    v.push(0x63);
    v.push(0x65);
    v.push(0x50);
    v.push(0x61);
    v.push(0x74);
    v.push(0x68);
    v.push(0x73);
    proof {
        assert(v@ =~= k_workspace_paths());
    }
    v
}

/// `packages`.
pub open spec fn k_packages() -> Seq<u8> {
    seq![0x70u8, 0x61, 0x63, 0x6b, 0x61, 0x67, 0x65, 0x73]
}

pub fn k_packages_bytes() -> (r: Vec<u8>)
    ensures
        r@ == k_packages(),
{
    let mut v: Vec<u8> = Vec::new();
    v.push(0x70);
    v.push(0x61);
    v.push(0x63);
    v.push(0x6b);
    v.push(0x61);
    v.push(0x67);
    v.push(0x65);
    v.push(0x73);
    proof {
        assert(v@ =~= k_packages());
    }
    v
}

/// `resolved`.
pub open spec fn k_resolved() -> Seq<u8> {
    seq![0x72u8, 0x65, 0x73, 0x6f, 0x6c, 0x76, 0x65, 0x64]
}

pub fn k_resolved_bytes() -> (r: Vec<u8>)
    ensures
        r@ == k_resolved(),
{
    let mut v: Vec<u8> = Vec::new();
    v.push(0x72);
    v.push(0x65);
    v.push(0x73);
    v.push(0x6f);
    v.push(0x6c);
    v.push(0x76);
    v.push(0x65);
    v.push(0x64);
    proof {
        assert(v@ =~= k_resolved());
    }
    v
}

/// `integrity`.
pub open spec fn k_integrity() -> Seq<u8> {
    seq![0x69u8, 0x6e, 0x74, 0x65, 0x67, 0x72, 0x69, 0x74, 0x79]
}

pub fn k_integrity_bytes() -> (r: Vec<u8>)
    ensures
        r@ == k_integrity(),
{
    let mut v: Vec<u8> = Vec::new();
    v.push(0x69);
    v.push(0x6e);
    v.push(0x74);
    v.push(0x65);
    v.push(0x67);
    v.push(0x72);
    v.push(0x69);
    v.push(0x74);
    v.push(0x79);
    proof {
        assert(v@ =~= k_integrity());
    }
    v
}

/// `shasum`.
pub open spec fn k_shasum() -> Seq<u8> {
    seq![0x73u8, 0x68, 0x61, 0x73, 0x75, 0x6d]
}

pub fn k_shasum_bytes() -> (r: Vec<u8>)
    ensures
        r@ == k_shasum(),
{
    let mut v: Vec<u8> = Vec::new();
    v.push(0x73);
    v.push(0x68);
    v.push(0x61);
    v.push(0x73);
    v.push(0x75);
    v.push(0x6d);
    proof {
        assert(v@ =~= k_shasum());
    }
    v
}

/// `node_modules/`.
pub open spec fn k_node_modules() -> Seq<u8> {
    seq![0x6eu8, 0x6f, 0x64, 0x65, 0x5f, 0x6d, 0x6f, 0x64, 0x75, 0x6c, 0x65, 0x73, 0x2f]
}

pub fn k_node_modules_bytes() -> (r: Vec<u8>)
    ensures
        r@ == k_node_modules(),
{
    let mut v: Vec<u8> = Vec::new();
    v.push(0x6e);
    v.push(0x6f);
    v.push(0x64);
    v.push(0x65);
    v.push(0x5f);
    v.push(0x6d);
    v.push(0x6f);
    v.push(0x64);
    v.push(0x75);
    v.push(0x6c);
    v.push(0x65);
    v.push(0x73);
    v.push(0x2f);
    proof {
        assert(v@ =~= k_node_modules());
    }
    v
}

// ------------------------------------------------------------------
// Key-sorted objects
// ------------------------------------------------------------------
/// Field keys ascend in byte order.
pub open spec fn sorted_fields(fs: Seq<(Vec<u8>, Json)>) -> bool {
    forall|i: int, j: int|
        0 <= i < j < fs.len() ==> spec_lex_cmp((#[trigger] fs[i]).0@, (#[trigger] fs[j]).0@) <= 0
}

/// `x` occurs in `base`.
pub open spec fn field_in(x: (Vec<u8>, Json), base: Seq<(Vec<u8>, Json)>) -> bool {
    exists|q: int| 0 <= q < base.len() && #[trigger] base[q] == x
}

/// Every element of `a` is an element of `base`.
#[verifier::opaque]
pub open spec fn fields_from(a: Seq<(Vec<u8>, Json)>, base: Seq<(Vec<u8>, Json)>) -> bool {
    forall|p: int| 0 <= p < a.len() ==> field_in(#[trigger] a[p], base)
}

/// Every element of `base` occurs in `a`.
#[verifier::opaque]
pub open spec fn fields_cover(a: Seq<(Vec<u8>, Json)>, base: Seq<(Vec<u8>, Json)>) -> bool {
    forall|q: int| 0 <= q < base.len() ==> field_in(#[trigger] base[q], a)
}

proof fn lemma_fields_init(out0: Seq<(Vec<u8>, Json)>, rem0: Seq<(Vec<u8>, Json)>, orig: Seq<(Vec<u8>, Json)>)
    requires
        out0.len() == 0,
        rem0 == orig,
    ensures
        fields_cover(out0 + rem0, orig),
        fields_from(out0, orig),
        fields_from(rem0, orig),
{
    reveal(fields_cover);
    reveal(fields_from);
    assert(out0 + rem0 =~= orig);
    assert forall|q: int| 0 <= q < orig.len() implies field_in(#[trigger] orig[q], out0 + rem0) by {
        assert((out0 + rem0)[q] == orig[q]);
    }
    assert forall|p: int| 0 <= p < rem0.len() implies field_in(#[trigger] rem0[p], orig) by {
        assert(orig[p] == rem0[p]);
    }
}

/// Moving a minimum-key element from `rem0` to the end of `out0` preserves
/// the selection-sort invariants.
#[verifier::rlimit(100)]
#[verifier::spinoff_prover]
proof fn lemma_fields_step(
    out0: Seq<(Vec<u8>, Json)>,
    rem0: Seq<(Vec<u8>, Json)>,
    orig: Seq<(Vec<u8>, Json)>,
    m: int,
    out2: Seq<(Vec<u8>, Json)>,
    rem2: Seq<(Vec<u8>, Json)>,
)
    requires
        0 <= m < rem0.len(),
        out2 == out0.push(rem0[m]),
        rem2 == rem0.remove(m),
        out0.len() + rem0.len() == orig.len(),
        fields_cover(out0 + rem0, orig),
        fields_from(out0, orig),
        fields_from(rem0, orig),
        sorted_fields(out0),
        forall|a: int, b: int|
            0 <= a < out0.len() && 0 <= b < rem0.len() ==> spec_lex_cmp(
                (#[trigger] out0[a]).0@,
                (#[trigger] rem0[b]).0@,
            ) <= 0,
        forall|t: int|
            0 <= t < rem0.len() ==> spec_lex_cmp(rem0[m].0@, (#[trigger] rem0[t]).0@) <= 0,
    ensures
        out2.len() + rem2.len() == orig.len(),
        fields_cover(out2 + rem2, orig),
        fields_from(out2, orig),
        fields_from(rem2, orig),
        sorted_fields(out2),
        forall|a: int, b: int|
            0 <= a < out2.len() && 0 <= b < rem2.len() ==> spec_lex_cmp(
                (#[trigger] out2[a]).0@,
                (#[trigger] rem2[b]).0@,
            ) <= 0,
{
    let c = out0 + rem0;
    let c2 = out2 + rem2;
    let ol = out0.len() as int;
    assert(c2.len() == c.len());
    assert(forall|p: int| 0 <= p < ol ==> #[trigger] c2[p] == c[p]);
    assert(c2[ol] == c[ol + m]);
    assert(forall|p: int| ol < p <= ol + m ==> #[trigger] c2[p] == c[p - 1]);
    assert(forall|p: int| ol + m < p < c.len() ==> #[trigger] c2[p] == c[p]);
    reveal(fields_cover);
    reveal(fields_from);
    assert forall|q: int| 0 <= q < orig.len() implies field_in(#[trigger] orig[q], c2) by {
        assert(field_in(orig[q], c));
        let p = choose|p: int| 0 <= p < c.len() && #[trigger] c[p] == orig[q];
        let p2: int = if p < ol {
            p
        } else if p == ol + m {
            ol
        } else if p < ol + m {
            p + 1
        } else {
            p
        };
        assert(c2[p2] == c[p]);
    }
    assert forall|p: int| 0 <= p < out2.len() implies field_in(#[trigger] out2[p], orig) by {
        if p < ol {
            assert(out2[p] == out0[p]);
            assert(field_in(out0[p], orig));
        } else {
            assert(out2[p] == rem0[m]);
            assert(field_in(rem0[m], orig));
        }
    }
    assert forall|p: int| 0 <= p < rem2.len() implies field_in(#[trigger] rem2[p], orig) by {
        if p < m {
            assert(rem2[p] == rem0[p]);
            assert(field_in(rem0[p], orig));
        } else {
            assert(rem2[p] == rem0[p + 1]);
            assert(field_in(rem0[p + 1], orig));
        }
    }
    assert(sorted_fields(out2)) by {
        assert forall|a: int, b: int| 0 <= a < b < out2.len() implies spec_lex_cmp(
            (#[trigger] out2[a]).0@,
            (#[trigger] out2[b]).0@,
        ) <= 0 by {
            if b == out2.len() - 1 {
                assert(out2[a] == out0[a]);
                assert(out2[b] == rem0[m]);
            } else {
                assert(out2[a] == out0[a]);
                assert(out2[b] == out0[b]);
            }
        }
    }
    assert forall|a: int, b: int|
        0 <= a < out2.len() && 0 <= b < rem2.len() implies spec_lex_cmp(
        (#[trigger] out2[a]).0@,
        (#[trigger] rem2[b]).0@,
    ) <= 0 by {
        let rb = if b < m {
            rem0[b]
        } else {
            rem0[b + 1]
        };
        assert(rem2[b] == rb);
        if a < ol {
            assert(out2[a] == out0[a]);
            assert(spec_lex_cmp(out0[a].0@, rb.0@) <= 0);
        } else {
            assert(out2[a] == rem0[m]);
            assert(spec_lex_cmp(rem0[m].0@, rb.0@) <= 0);
        }
    }
}

/// Sorts object fields by key, ascending; the fields themselves are moved,
/// not rebuilt.
#[verifier::rlimit(50)]
pub fn sort_fields(fields: Vec<(Vec<u8>, Json)>) -> (r: Vec<(Vec<u8>, Json)>)
    ensures
        sorted_fields(r@),
        r@.len() == fields@.len(),
        forall|i: int| 0 <= i < r@.len() ==> field_in(#[trigger] r@[i], fields@),
        forall|j: int| 0 <= j < fields@.len() ==> field_in(#[trigger] fields@[j], r@),
{
    let ghost orig = fields@;
    let mut rem = fields;
    let mut out: Vec<(Vec<u8>, Json)> = Vec::new();
    proof {
        lemma_fields_init(out@, rem@, orig);
    }
    while rem.len() > 0
        invariant
            out@.len() + rem@.len() == orig.len(),
            fields_cover(out@ + rem@, orig),
            fields_from(out@, orig),
            fields_from(rem@, orig),
            sorted_fields(out@),
            forall|a: int, b: int|
                0 <= a < out@.len() && 0 <= b < rem@.len() ==> spec_lex_cmp(
                    (#[trigger] out@[a]).0@,
                    (#[trigger] rem@[b]).0@,
                ) <= 0,
        decreases rem@.len(),
    {
        let mut mi: usize = 0;
        let mut k: usize = 1;
        proof {
            lemma_lex_cmp_refl(rem@[0].0@);
        }
        while k < rem.len()
            invariant
                rem@.len() > 0,
                (mi as int) < k,
                1 <= k <= rem@.len(),
                forall|t: int|
                    0 <= t < k ==> spec_lex_cmp(rem@[mi as int].0@, (#[trigger] rem@[t]).0@) <= 0,
            decreases rem@.len() - k,
        {
            let c = crate::version::lex_cmp(rem[k].0.as_slice(), rem[mi].0.as_slice());
            if c < 0 {
                proof {
                    lemma_lex_cmp_flip(rem@[k as int].0@, rem@[mi as int].0@);
                    assert forall|t: int| 0 <= t < k + 1 implies spec_lex_cmp(
                        rem@[k as int].0@,
                        (#[trigger] rem@[t]).0@,
                    ) <= 0 by {
                        if t < k {
                            lemma_lex_cmp_trans(rem@[k as int].0@, rem@[mi as int].0@, rem@[t].0@);
                        } else {
                            lemma_lex_cmp_refl(rem@[k as int].0@);
                        }
                    }
                }
                mi = k;
            } else {
                proof {
                    lemma_lex_cmp_flip(rem@[k as int].0@, rem@[mi as int].0@);
                }
            }
            k = k + 1;
        }
        let ghost out0 = out@;
        let ghost rem0 = rem@;
        let e = rem.remove(mi);
        out.push(e);
        proof {
            assert(rem@ =~= rem0.remove(mi as int));
            assert(out@ =~= out0.push(rem0[mi as int]));
            lemma_fields_step(out0, rem0, orig, mi as int, out@, rem@);
        }
    }
    proof {
        reveal(fields_from);
        reveal(fields_cover);
        assert(out@ + rem@ =~= out@);
        assert forall|i: int| 0 <= i < out@.len() implies field_in(#[trigger] out@[i], orig) by {}
        assert forall|j: int| 0 <= j < orig.len() implies field_in(#[trigger] orig[j], out@) by {
            assert(field_in(orig[j], out@ + rem@));
        }
    }
    out
}





// ------------------------------------------------------------------
// Writing
// ------------------------------------------------------------------
/// `(name, requirement text)` of each edge, regular then peer then
/// optional: the order the writer merges them in.
pub open spec fn dep_texts(l: Seq<DepEntry>) -> Seq<(Seq<u8>, Seq<u8>)> {
    l.map_values(|d: DepEntry| (d.name@, d.req.text@))
}

pub open spec fn merged_dep_texts(info: PackageInfo) -> Seq<(Seq<u8>, Seq<u8>)> {
    dep_texts(info.dependencies@) + dep_texts(info.peer_dependencies@) + dep_texts(
        info.optional_dependencies@,
    )
}

/// `kv` appears among the fields, at the view level.
pub open spec fn field_view_in(kv: (Seq<u8>, JsonV), fs: Seq<(Vec<u8>, Json)>) -> bool {
    exists|i: int|
        0 <= i < fs.len() && ((#[trigger] fs[i]).0@, json_view(fs[i].1)) == kv
}

/// The field `x` carries one of the pairs of `m`, as a string value.
pub open spec fn pair_view_of(x: (Vec<u8>, Json), m: Seq<(Seq<u8>, Seq<u8>)>) -> bool {
    exists|j: int|
        0 <= j < m.len() && ((#[trigger] m[j]).0, JsonV::Str(m[j].1)) == (x.0@, json_view(x.1))
}

/// A sorted JSON object carrying exactly the pairs of `m` as strings.
pub open spec fn obj_matches_pairs(fs: Seq<(Vec<u8>, Json)>, m: Seq<(Seq<u8>, Seq<u8>)>) -> bool {
    &&& sorted_fields(fs)
    &&& fs.len() == m.len()
    &&& forall|i: int|
        0 <= i < m.len() ==> field_view_in(((#[trigger] m[i]).0, JsonV::Str(m[i].1)), fs)
    &&& forall|i: int| 0 <= i < fs.len() ==> pair_view_of(#[trigger] fs[i], m)
}

/// Builds the sorted string-map object for a pair list.
pub fn pairs_obj(pairs: &Vec<(Vec<u8>, Vec<u8>)>) -> (r: Vec<(Vec<u8>, Json)>)
    ensures
        obj_matches_pairs(r@, pairs@.map_values(|p: (Vec<u8>, Vec<u8>)| (p.0@, p.1@))),
{
    let ghost m = pairs@.map_values(|p: (Vec<u8>, Vec<u8>)| (p.0@, p.1@));
    let mut raw: Vec<(Vec<u8>, Json)> = Vec::new();
    let mut i: usize = 0;
    while i < pairs.len()
        invariant
            0 <= i <= pairs@.len(),
            m == pairs@.map_values(|p: (Vec<u8>, Vec<u8>)| (p.0@, p.1@)),
            m.len() == pairs@.len(),
            raw@.len() == i,
            forall|k: int|
                0 <= k < i ==> ((#[trigger] raw@[k]).0@, json_view(raw@[k].1)) == (
                    m[k].0,
                    JsonV::Str(m[k].1),
                ),
        decreases pairs@.len() - i,
    {
        let key = clone_bytes(pairs[i].0.as_slice());
        let val = Json::Str(clone_bytes(pairs[i].1.as_slice()));
        raw.push((key, val));
        i = i + 1;
    }
    let ghost raw_snap = raw@;
    let sorted = sort_fields(raw);
    proof {
        lemma_sorted_pairs_transfer(sorted@, raw_snap, m);
    }
    sorted
}

/// Membership facts survive sorting, at the view level.
#[verifier::rlimit(100)]
#[verifier::spinoff_prover]
proof fn lemma_sorted_pairs_transfer(
    sorted: Seq<(Vec<u8>, Json)>,
    raw: Seq<(Vec<u8>, Json)>,
    m: Seq<(Seq<u8>, Seq<u8>)>,
)
    requires
        sorted.len() == raw.len(),
        raw.len() == m.len(),
        forall|k: int|
            0 <= k < raw.len() ==> ((#[trigger] raw[k]).0@, json_view(raw[k].1)) == (
                m[k].0,
                JsonV::Str(m[k].1),
            ),
        forall|i: int| 0 <= i < sorted.len() ==> field_in(#[trigger] sorted[i], raw),
        forall|j: int| 0 <= j < raw.len() ==> field_in(#[trigger] raw[j], sorted),
    ensures
        forall|i: int|
            0 <= i < m.len() ==> field_view_in(((#[trigger] m[i]).0, JsonV::Str(m[i].1)), sorted),
        forall|i: int| 0 <= i < sorted.len() ==> pair_view_of(#[trigger] sorted[i], m),
{
    assert forall|i: int| 0 <= i < m.len() implies field_view_in(
        ((#[trigger] m[i]).0, JsonV::Str(m[i].1)),
        sorted,
    ) by {
        assert(field_in(raw[i], sorted));
        let p = choose|p: int| 0 <= p < sorted.len() && #[trigger] sorted[p] == raw[i];
        assert((sorted[p].0@, json_view(sorted[p].1)) == (raw[i].0@, json_view(raw[i].1)));
        assert((raw[i].0@, json_view(raw[i].1)) == (m[i].0, JsonV::Str(m[i].1)));
        assert((sorted[p].0@, json_view(sorted[p].1)) == (m[i].0, JsonV::Str(m[i].1)));
    }
    assert forall|i: int| 0 <= i < sorted.len() implies pair_view_of(#[trigger] sorted[i], m) by {
        assert(field_in(sorted[i], raw));
        let q = choose|q: int| 0 <= q < raw.len() && #[trigger] raw[q] == sorted[i];
        assert(pair_view_of(raw[q], m)) by {
            assert((raw[q].0@, json_view(raw[q].1)) == (m[q].0, JsonV::Str(m[q].1)));
            assert(((m[q]).0, JsonV::Str(m[q].1)) == (raw[q].0@, json_view(raw[q].1)));
        }
        assert(pair_view_of(sorted[i], m));
    }
}

/// Builds the sorted merged dependency object of one package.
pub fn merged_deps_obj(info: &PackageInfo) -> (r: Vec<(Vec<u8>, Json)>)
    ensures
        obj_matches_pairs(r@, merged_dep_texts(*info)),
{
    let ghost m = merged_dep_texts(*info);
    let mut raw: Vec<(Vec<u8>, Json)> = Vec::new();
    let mut i: usize = 0;
    while i < info.dependencies.len()
        invariant
            0 <= i <= info.dependencies@.len(),
            m == merged_dep_texts(*info),
            raw@.len() == i,
            forall|k: int|
                0 <= k < raw@.len() ==> ((#[trigger] raw@[k]).0@, json_view(raw@[k].1)) == (
                    m[k].0,
                    JsonV::Str(m[k].1),
                ),
        decreases info.dependencies@.len() - i,
    {
        let e = &info.dependencies[i];
        raw.push((clone_bytes(e.name.as_slice()), Json::Str(clone_bytes(e.req.text.as_slice()))));
        proof {
            assert(m[i as int] == (info.dependencies@[i as int].name@,
            info.dependencies@[i as int].req.text@));
        }
        i = i + 1;
    }
    let mut j: usize = 0;
    while j < info.peer_dependencies.len()
        invariant
            0 <= j <= info.peer_dependencies@.len(),
            m == merged_dep_texts(*info),
            raw@.len() == info.dependencies@.len() + j,
            raw@.len() <= m.len(),
            forall|k: int|
                0 <= k < raw@.len() ==> ((#[trigger] raw@[k]).0@, json_view(raw@[k].1)) == (
                    m[k].0,
                    JsonV::Str(m[k].1),
                ),
        decreases info.peer_dependencies@.len() - j,
    {
        let e = &info.peer_dependencies[j];
        raw.push((clone_bytes(e.name.as_slice()), Json::Str(clone_bytes(e.req.text.as_slice()))));
        proof {
            let k = info.dependencies@.len() + j;
            assert(m[k as int] == (info.peer_dependencies@[j as int].name@,
            info.peer_dependencies@[j as int].req.text@));
        }
        j = j + 1;
    }
    let mut t: usize = 0;
    while t < info.optional_dependencies.len()
        invariant
            0 <= t <= info.optional_dependencies@.len(),
            m == merged_dep_texts(*info),
            raw@.len() == info.dependencies@.len() + info.peer_dependencies@.len() + t,
            raw@.len() <= m.len(),
            forall|k: int|
                0 <= k < raw@.len() ==> ((#[trigger] raw@[k]).0@, json_view(raw@[k].1)) == (
                    m[k].0,
                    JsonV::Str(m[k].1),
                ),
        decreases info.optional_dependencies@.len() - t,
    {
        let e = &info.optional_dependencies[t];
        raw.push((clone_bytes(e.name.as_slice()), Json::Str(clone_bytes(e.req.text.as_slice()))));
        proof {
            let k = info.dependencies@.len() + info.peer_dependencies@.len() + t;
            assert(m[k as int] == (info.optional_dependencies@[t as int].name@,
            info.optional_dependencies@[t as int].req.text@));
        }
        t = t + 1;
    }
    let ghost raw_snap = raw@;
    let sorted = sort_fields(raw);
    proof {
        lemma_sorted_pairs_transfer(sorted@, raw_snap, m);
    }
    sorted
}

/// The `packages` entry of one resolved package: `version`, `resolved`,
/// `integrity` when known, the merged `dependencies`, `shasum` when known.
#[verifier::rlimit(100)]
#[verifier::spinoff_prover]
pub fn package_entry_doc(info: &PackageInfo) -> (r: Json)
    ensures
        package_entry_view_ok(json_view(r), *info),
{
    let mut fields: Vec<(Vec<u8>, Json)> = Vec::new();
    let vtext = crate::version::render_version(&info.version);
    fields.push((k_version_bytes(), Json::Str(vtext)));
    fields.push((k_resolved_bytes(), Json::Str(clone_bytes(info.tarball_url.as_slice()))));
    match &info.integrity {
        Some(s) => {
            fields.push((k_integrity_bytes(), Json::Str(clone_bytes(s.as_slice()))));
        },
        None => {},
    }
    let deps = merged_deps_obj(info);
    let ghost deps_snap = deps@;
    fields.push((k_dependencies_bytes(), Json::Obj(deps)));
    match &info.shasum {
        Some(s) => {
            fields.push((k_shasum_bytes(), Json::Str(clone_bytes(s.as_slice()))));
        },
        None => {},
    }
    let ghost ff = fields@;
    let r = Json::Obj(fields);
    proof {
        assert(r->Obj_0@ == ff);
        let fsv = obj_view(ff);
        assert(json_view(r) == JsonV::Obj(fsv));
        crate::json::lemma_obj_view_index(ff);
        lemma_obj_matches_view(deps_snap, merged_dep_texts(*info));
        assert(ff[0].0@ == k_version());
        assert(fsv[0].0 == k_version());
        assert(ff[1].0@ == k_resolved());
        assert(fsv[1].0 == k_resolved());
        if info.integrity is Some {
            assert(ff[2].0@ == k_integrity());
            assert(fsv[2].0 == k_integrity());
            assert(ff[3].0@ == k_dependencies());
            assert(fsv[3].0 == k_dependencies());
            assert(json_view(ff[3].1) == JsonV::Obj(obj_view(deps_snap)));
            assert(fsv[3].1 == JsonV::Obj(obj_view(deps_snap)));
            lemma_get_by_unique_key(fsv, k_version(), 0);
            lemma_get_by_unique_key(fsv, k_resolved(), 1);
            lemma_get_by_unique_key(fsv, k_integrity(), 2);
            lemma_get_by_unique_key(fsv, k_dependencies(), 3);
            if info.shasum is Some {
                assert(ff[4].0@ == k_shasum());
                assert(fsv[4].0 == k_shasum());
                lemma_get_by_unique_key(fsv, k_shasum(), 4);
            } else {
                lemma_get_absent(fsv, k_shasum());
            }
        } else {
            assert(ff[2].0@ == k_dependencies());
            assert(fsv[2].0 == k_dependencies());
            assert(json_view(ff[2].1) == JsonV::Obj(obj_view(deps_snap)));
            assert(fsv[2].1 == JsonV::Obj(obj_view(deps_snap)));
            lemma_get_by_unique_key(fsv, k_version(), 0);
            lemma_get_by_unique_key(fsv, k_resolved(), 1);
            lemma_get_by_unique_key(fsv, k_dependencies(), 2);
            lemma_get_absent(fsv, k_integrity());
            if info.shasum is Some {
                assert(ff[3].0@ == k_shasum());
                assert(fsv[3].0 == k_shasum());
                lemma_get_by_unique_key(fsv, k_shasum(), 3);
            } else {
                lemma_get_absent(fsv, k_shasum());
            }
        }
    }
    r
}

/// `spec_obj_get` finds the field at `k` when no earlier field has its key.
pub proof fn lemma_get_by_unique_key(fs: Seq<(Seq<u8>, JsonV)>, key: Seq<u8>, k: int)
    requires
        0 <= k < fs.len(),
        fs[k].0 == key,
        forall|i: int| 0 <= i < k ==> (#[trigger] fs[i]).0 != key,
    ensures
        spec_obj_get(fs, key) == Some(fs[k].1),
    decreases k,
{
    if k > 0 {
        assert(fs.drop_first()[k - 1] == fs[k]);
        assert forall|i: int| 0 <= i < k - 1 implies (#[trigger] fs.drop_first()[i]).0 != key by {
            assert(fs.drop_first()[i] == fs[i + 1]);
        }
        lemma_get_by_unique_key(fs.drop_first(), key, k - 1);
    }
}

/// `spec_obj_get` misses when no field has the key.
pub proof fn lemma_get_absent(fs: Seq<(Seq<u8>, JsonV)>, key: Seq<u8>)
    requires
        forall|i: int| 0 <= i < fs.len() ==> (#[trigger] fs[i]).0 != key,
    ensures
        spec_obj_get(fs, key) is None,
    decreases fs.len(),
{
    if fs.len() > 0 {
        assert forall|i: int| 0 <= i < fs.drop_first().len() implies (
        #[trigger] fs.drop_first()[i]).0 != key by {
            assert(fs.drop_first()[i] == fs[i + 1]);
        }
        lemma_get_absent(fs.drop_first(), key);
    }
}

/// `kv` appears among view-level fields.
pub open spec fn view_field_in(kv: (Seq<u8>, JsonV), fs: Seq<(Seq<u8>, JsonV)>) -> bool {
    exists|k: int| 0 <= k < fs.len() && #[trigger] fs[k] == kv
}

/// The view-level field `x` carries one of the pairs of `m`.
pub open spec fn view_pair_of(x: (Seq<u8>, JsonV), m: Seq<(Seq<u8>, Seq<u8>)>) -> bool {
    exists|j: int| 0 <= j < m.len() && ((#[trigger] m[j]).0, JsonV::Str(m[j].1)) == x
}

/// `obj_matches_pairs` carried over to the view of the fields.
pub open spec fn obj_matches_pairs_view(
    fs: Seq<(Seq<u8>, JsonV)>,
    m: Seq<(Seq<u8>, Seq<u8>)>,
) -> bool {
    &&& fs.len() == m.len()
    &&& forall|i: int, j: int|
        0 <= i < j < fs.len() ==> spec_lex_cmp((#[trigger] fs[i]).0, (#[trigger] fs[j]).0) <= 0
    &&& forall|i: int|
        0 <= i < m.len() ==> view_field_in(((#[trigger] m[i]).0, JsonV::Str(m[i].1)), fs)
    &&& forall|k: int| 0 <= k < fs.len() ==> view_pair_of(#[trigger] fs[k], m)
}

#[verifier::rlimit(100)]
#[verifier::spinoff_prover]
proof fn lemma_obj_matches_view(fs: Seq<(Vec<u8>, Json)>, m: Seq<(Seq<u8>, Seq<u8>)>)
    requires
        obj_matches_pairs(fs, m),
    ensures
        obj_matches_pairs_view(obj_view(fs), m),
{
    crate::json::lemma_obj_view_index(fs);
    let ov = obj_view(fs);
    assert forall|i: int, j: int| 0 <= i < j < ov.len() implies spec_lex_cmp(
        (#[trigger] ov[i]).0,
        (#[trigger] ov[j]).0,
    ) <= 0 by {
        assert(ov[i].0 == fs[i].0@);
        assert(ov[j].0 == fs[j].0@);
    }
    assert forall|i: int| 0 <= i < m.len() implies view_field_in(
        ((#[trigger] m[i]).0, JsonV::Str(m[i].1)),
        ov,
    ) by {
        assert(field_view_in((m[i].0, JsonV::Str(m[i].1)), fs));
        let k = choose|k: int|
            0 <= k < fs.len() && ((#[trigger] fs[k]).0@, json_view(fs[k].1)) == (
                m[i].0,
                JsonV::Str(m[i].1),
            );
        assert(ov[k] == (m[i].0, JsonV::Str(m[i].1)));
    }
    assert forall|k: int| 0 <= k < ov.len() implies view_pair_of(#[trigger] ov[k], m) by {
        assert(pair_view_of(fs[k], m));
        let j = choose|j: int|
            0 <= j < m.len() && ((#[trigger] m[j]).0, JsonV::Str(m[j].1)) == (
                fs[k].0@,
                json_view(fs[k].1),
            );
        assert(ov[k] == (fs[k].0@, json_view(fs[k].1)));
        assert((m[j].0, JsonV::Str(m[j].1)) == ov[k]);
    }
}




// ------------------------------------------------------------------
// The whole document
// ------------------------------------------------------------------
/// What the writer reads from the manifest: the project's identity, its
/// direct dependencies, and any registered workspaces.
pub struct RootMeta {
    pub name: Vec<u8>,
    pub version: Vec<u8>,
    pub dependencies: Vec<(Vec<u8>, Vec<u8>)>,
    pub workspace_paths: Vec<(Vec<u8>, Vec<u8>)>,
}

pub open spec fn pairs_view(l: Seq<(Vec<u8>, Vec<u8>)>) -> Seq<(Seq<u8>, Seq<u8>)> {
    l.map_values(|p: (Vec<u8>, Vec<u8>)| (p.0@, p.1@))
}

/// The root entry under the empty key: the project version and its direct
/// dependencies.
#[verifier::rlimit(50)]
pub fn root_entry_doc(root: &RootMeta) -> (r: Json)
    ensures
        root_entry_view_ok(json_view(r), *root),
{
    let mut fields: Vec<(Vec<u8>, Json)> = Vec::new();
    fields.push((k_version_bytes(), Json::Str(clone_bytes(root.version.as_slice()))));
    let deps = pairs_obj(&root.dependencies);
    let ghost deps_snap = deps@;
    fields.push((k_dependencies_bytes(), Json::Obj(deps)));
    let ghost ff = fields@;
    let r = Json::Obj(fields);
    proof {
        assert(r->Obj_0@ == ff);
        let fsv = obj_view(ff);
        assert(json_view(r) == JsonV::Obj(fsv));
        crate::json::lemma_obj_view_index(ff);
        lemma_obj_matches_view(deps_snap, pairs_view(root.dependencies@));
        assert(ff[0].0@ == k_version());
        assert(fsv[0].0 == k_version());
        assert(ff[1].0@ == k_dependencies());
        assert(fsv[1].0 == k_dependencies());
        assert(json_view(ff[1].1) == JsonV::Obj(obj_view(deps_snap)));
        assert(fsv[1].1 == JsonV::Obj(obj_view(deps_snap)));
        lemma_get_by_unique_key(fsv, k_version(), 0);
        lemma_get_by_unique_key(fsv, k_dependencies(), 1);
    }
    r
}

/// The shape `package_entry_doc` writes for one package: every field of
/// the entry pinned to the package record.
pub open spec fn package_entry_view_ok(ev: JsonV, info: PackageInfo) -> bool {
    ev matches JsonV::Obj(fs) && {
        &&& spec_obj_get(fs, k_version()) == Some(JsonV::Str(spec_render_version(info.version@)))
        &&& spec_obj_get(fs, k_resolved()) == Some(JsonV::Str(info.tarball_url@))
        &&& (match info.integrity {
            Some(s) => spec_obj_get(fs, k_integrity()) == Some(JsonV::Str(s@)),
            None => spec_obj_get(fs, k_integrity()) is None,
        })
        &&& (match info.shasum {
            Some(s) => spec_obj_get(fs, k_shasum()) == Some(JsonV::Str(s@)),
            None => spec_obj_get(fs, k_shasum()) is None,
        })
        &&& (spec_obj_get(fs, k_dependencies()) matches Some(JsonV::Obj(df))
            && obj_matches_pairs_view(df, merged_dep_texts(info)))
    }
}

/// The shape `root_entry_doc` writes for the root entry.
pub open spec fn root_entry_view_ok(ev: JsonV, root: RootMeta) -> bool {
    ev matches JsonV::Obj(fs) && {
        &&& spec_obj_get(fs, k_version()) == Some(JsonV::Str(root.version@))
        &&& (spec_obj_get(fs, k_dependencies()) matches Some(JsonV::Obj(df))
            && obj_matches_pairs_view(df, pairs_view(root.dependencies@)))
    }
}

/// A `packages` field for each resolved package sits under
/// `node_modules/<name>` and carries that package's full entry; the root
/// entry under the empty key.
pub open spec fn pkg_field_for(f: (Seq<u8>, JsonV), p: ResolvedPackage) -> bool {
    f.0 == k_node_modules() + p.info.name@ && package_entry_view_ok(f.1, p.info)
}

/// The object fields under `key`, when the value there is an object.
pub open spec fn get_obj_fields(top: Seq<(Seq<u8>, JsonV)>, key: Seq<u8>) -> Option<
    Seq<(Seq<u8>, JsonV)>,
> {
    match spec_obj_get(top, key) {
        Some(JsonV::Obj(f)) => Some(f),
        Some(JsonV::Null) => None,
        Some(JsonV::Bool(_)) => None,
        Some(JsonV::Num(_)) => None,
        Some(JsonV::Str(_)) => None,
        Some(JsonV::Arr(_)) => None,
        None => None,
    }
}

/// What the writer guarantees of the produced document.
pub open spec fn lockfile_doc_matches(
    v: JsonV,
    root: RootMeta,
    packages: Seq<ResolvedPackage>,
) -> bool {
    &&& v is Obj
    &&& spec_obj_get(v->Obj_0, k_name()) == Some(JsonV::Str(root.name@))
    &&& spec_obj_get(v->Obj_0, k_version()) == Some(JsonV::Str(root.version@))
    &&& spec_obj_get(v->Obj_0, k_lockfile_version()) == Some(JsonV::Num(seq![0x31u8]))
    &&& spec_obj_get(v->Obj_0, k_requires()) == Some(JsonV::Bool(true))
    &&& get_obj_fields(v->Obj_0, k_dependencies()) is Some
    &&& obj_matches_pairs_view(
        get_obj_fields(v->Obj_0, k_dependencies()).unwrap(),
        pairs_view(root.dependencies@),
    )
    &&& get_obj_fields(v->Obj_0, k_workspace_paths()) is Some
    &&& obj_matches_pairs_view(
        get_obj_fields(v->Obj_0, k_workspace_paths()).unwrap(),
        pairs_view(root.workspace_paths@),
    )
    &&& get_obj_fields(v->Obj_0, k_packages()) is Some
    &&& pk_fields_ok(get_obj_fields(v->Obj_0, k_packages()).unwrap(), root, packages)
}

/// The `packages` object: one sorted field per package, its value the
/// package's full entry, plus the root entry under the empty key.
pub open spec fn pk_fields_ok(
    pk: Seq<(Seq<u8>, JsonV)>,
    root: RootMeta,
    packages: Seq<ResolvedPackage>,
) -> bool {
    &&& pk.len() == packages.len() + 1
    &&& (forall|i: int, j: int|
        0 <= i < j < pk.len() ==> spec_lex_cmp((#[trigger] pk[i]).0, (#[trigger] pk[j]).0) <= 0)
    &&& (exists|j: int|
        0 <= j < pk.len() && (#[trigger] pk[j]).0 == Seq::<u8>::empty() && root_entry_view_ok(
            pk[j].1,
            root,
        ))
    &&& (forall|i: int|
        0 <= i < packages.len() ==> exists|j: int|
            0 <= j < pk.len() && pkg_field_for(#[trigger] pk[j], #[trigger] packages[i]))
}

/// The complete lockfile document. Top keys come in the schema's order;
/// every mapping inside is sorted. The document is a function of its
/// arguments, so writing an unchanged graph rewrites identical bytes.
#[verifier::rlimit(100)]
#[verifier::spinoff_prover]
pub fn lockfile_doc(root: &RootMeta, packages: &Vec<ResolvedPackage>) -> (r: Json)
    ensures
        lockfile_doc_matches(json_view(r), *root, packages@),
{
    let mut fields: Vec<(Vec<u8>, Json)> = Vec::new();
    fields.push((k_name_bytes(), Json::Str(clone_bytes(root.name.as_slice()))));
    fields.push((k_version_bytes(), Json::Str(clone_bytes(root.version.as_slice()))));
    let mut one: Vec<u8> = Vec::new();
    one.push(0x31);
    fields.push((k_lockfile_version_bytes(), Json::Num(one)));
    fields.push((k_requires_bytes(), Json::Bool(true)));
    let deps = pairs_obj(&root.dependencies);
    let ghost deps_snap = deps@;
    fields.push((k_dependencies_bytes(), Json::Obj(deps)));
    let wsp = pairs_obj(&root.workspace_paths);
    let ghost wsp_snap = wsp@;
    fields.push((k_workspace_paths_bytes(), Json::Obj(wsp)));
    let mut pk_fields: Vec<(Vec<u8>, Json)> = Vec::new();
    pk_fields.push((Vec::new(), root_entry_doc(root)));
    let mut i: usize = 0;
    while i < packages.len()
        invariant
            0 <= i <= packages@.len(),
            pk_fields@.len() == i + 1,
            pk_fields@[0].0@ == Seq::<u8>::empty(),
            root_entry_view_ok(json_view(pk_fields@[0].1), *root),
            forall|k: int|
                0 <= k < i ==> (#[trigger] pk_fields@[k + 1]).0@ == k_node_modules()
                    + packages@[k].info.name@ && package_entry_view_ok(
                    json_view(pk_fields@[k + 1].1),
                    packages@[k].info,
                ),
        decreases packages@.len() - i,
    {
        let mut key = k_node_modules_bytes();
        extend_bytes(&mut key, packages[i].info.name.as_slice());
        let entry = package_entry_doc(&packages[i].info);
        pk_fields.push((key, entry));
        i = i + 1;
    }
    let ghost pk_raw = pk_fields@;
    let pk_sorted = sort_fields(pk_fields);
    let ghost pk_snap = pk_sorted@;
    fields.push((k_packages_bytes(), Json::Obj(pk_sorted)));
    let ghost ff = fields@;
    let r = Json::Obj(fields);
    proof {
        assert(r->Obj_0@ == ff);
        let fsv = obj_view(ff);
        assert(json_view(r) == JsonV::Obj(fsv));
        crate::json::lemma_obj_view_index(ff);
        lemma_obj_matches_view(deps_snap, pairs_view(root.dependencies@));
        lemma_obj_matches_view(wsp_snap, pairs_view(root.workspace_paths@));
        assert(ff[0].0@ == k_name());
        assert(fsv[0].0 == k_name());
        assert(json_view(ff[0].1) == JsonV::Str(root.name@));
        assert(fsv[0].1 == JsonV::Str(root.name@));
        assert(ff[1].0@ == k_version());
        assert(fsv[1].0 == k_version());
        assert(json_view(ff[1].1) == JsonV::Str(root.version@));
        assert(fsv[1].1 == JsonV::Str(root.version@));
        assert(ff[2].0@ == k_lockfile_version());
        assert(fsv[2].0 == k_lockfile_version());
        assert(json_view(ff[2].1) == JsonV::Num(seq![0x31u8]));
        assert(fsv[2].1 == JsonV::Num(seq![0x31u8]));
        assert(ff[3].0@ == k_requires());
        assert(fsv[3].0 == k_requires());
        assert(json_view(ff[3].1) == JsonV::Bool(true));
        assert(fsv[3].1 == JsonV::Bool(true));
        assert(ff[4].0@ == k_dependencies());
        assert(fsv[4].0 == k_dependencies());
        assert(json_view(ff[4].1) == JsonV::Obj(obj_view(deps_snap)));
        assert(fsv[4].1 == JsonV::Obj(obj_view(deps_snap)));
        assert(ff[5].0@ == k_workspace_paths());
        assert(fsv[5].0 == k_workspace_paths());
        assert(json_view(ff[5].1) == JsonV::Obj(obj_view(wsp_snap)));
        assert(fsv[5].1 == JsonV::Obj(obj_view(wsp_snap)));
        assert(ff[6].0@ == k_packages());
        assert(fsv[6].0 == k_packages());
        assert(json_view(ff[6].1) == JsonV::Obj(obj_view(pk_snap)));
        assert(fsv[6].1 == JsonV::Obj(obj_view(pk_snap)));
        assert(k_requires()[2] != k_resolved()[2]);
        assert(k_requires()[0] != k_packages()[0]);
        lemma_get_by_unique_key(fsv, k_name(), 0);
        lemma_get_by_unique_key(fsv, k_version(), 1);
        lemma_get_by_unique_key(fsv, k_lockfile_version(), 2);
        lemma_get_by_unique_key(fsv, k_requires(), 3);
        lemma_get_by_unique_key(fsv, k_dependencies(), 4);
        lemma_get_by_unique_key(fsv, k_workspace_paths(), 5);
        lemma_get_by_unique_key(fsv, k_packages(), 6);
        let pkv = obj_view(pk_snap);
        crate::json::lemma_obj_view_index(pk_snap);
        assert(pkv.len() == packages@.len() + 1);
        assert forall|a: int, b: int| 0 <= a < b < pkv.len() implies spec_lex_cmp(
            (#[trigger] pkv[a]).0,
            (#[trigger] pkv[b]).0,
        ) <= 0 by {
            assert(pkv[a].0 == pk_snap[a].0@);
            assert(pkv[b].0 == pk_snap[b].0@);
        }
        assert forall|ix: int| 0 <= ix < packages@.len() implies exists|j: int|
            0 <= j < pkv.len() && pkg_field_for(#[trigger] pkv[j], #[trigger] packages@[ix]) by {
            assert(field_in(pk_raw[ix + 1], pk_snap));
            let j = choose|j: int| 0 <= j < pk_snap.len() && #[trigger] pk_snap[j] == pk_raw[ix + 1];
            assert(pkv[j].0 == pk_snap[j].0@);
            assert(pkv[j].0 == k_node_modules() + packages@[ix].info.name@);
            assert(pkv[j].1 == json_view(pk_snap[j].1));
            assert(package_entry_view_ok(pkv[j].1, packages@[ix].info));
        }
        assert(field_in(pk_raw[0], pk_snap));
        let j0 = choose|j: int| 0 <= j < pk_snap.len() && #[trigger] pk_snap[j] == pk_raw[0];
        assert(pkv[j0].0 == pk_snap[j0].0@);
        assert(pkv[j0].0 =~= Seq::<u8>::empty());
        assert(pkv[j0].1 == json_view(pk_snap[j0].1));
        assert(root_entry_view_ok(pkv[j0].1, *root));
        assert(spec_obj_get(fsv, k_name()) == Some(JsonV::Str(root.name@)));
        assert(spec_obj_get(fsv, k_version()) == Some(JsonV::Str(root.version@)));
        assert(spec_obj_get(fsv, k_lockfile_version()) == Some(JsonV::Num(seq![0x31u8])));
        assert(spec_obj_get(fsv, k_requires()) == Some(JsonV::Bool(true)));
        assert(spec_obj_get(fsv, k_dependencies()) == Some(JsonV::Obj(obj_view(deps_snap))));
        assert(obj_matches_pairs_view(obj_view(deps_snap), pairs_view(root.dependencies@)));
        assert(spec_obj_get(fsv, k_workspace_paths()) == Some(JsonV::Obj(obj_view(wsp_snap))));
        assert(obj_matches_pairs_view(obj_view(wsp_snap), pairs_view(root.workspace_paths@)));
        assert(spec_obj_get(fsv, k_packages()) == Some(JsonV::Obj(pkv)));
        assert(pkv.len() == packages@.len() + 1);
        assert(forall|a: int, b: int|
            0 <= a < b < pkv.len() ==> spec_lex_cmp((#[trigger] pkv[a]).0, (#[trigger] pkv[b]).0)
                <= 0);
        assert(exists|j: int|
            0 <= j < pkv.len() && (#[trigger] pkv[j]).0 == Seq::<u8>::empty()
                && root_entry_view_ok(pkv[j].1, *root));
        assert(forall|ix: int|
            0 <= ix < packages@.len() ==> exists|j: int|
                0 <= j < pkv.len() && pkg_field_for(#[trigger] pkv[j], #[trigger] packages@[ix]));
        assert(pk_fields_ok(pkv, *root, packages@));
        assert(get_obj_fields(fsv, k_packages()) == Some(pkv));
        assert(get_obj_fields(fsv, k_dependencies()) == Some(obj_view(deps_snap)));
        assert(get_obj_fields(fsv, k_workspace_paths()) == Some(obj_view(wsp_snap)));
        assert(lockfile_doc_matches(JsonV::Obj(fsv), *root, packages@));
    }
    r
}

// ------------------------------------------------------------------
// Reading
// ------------------------------------------------------------------
/// How many `node_modules/` components a path key holds: the entry's depth.
pub open spec fn nm_count(key: Seq<u8>) -> int
    decreases key.len(),
{
    if key.len() < 13 {
        0
    } else if key.take(13) == k_node_modules() {
        1 + nm_count(key.skip(13))
    } else {
        nm_count(key.drop_first())
    }
}

/// What follows the last `node_modules/`: the entry's package name.
pub open spec fn after_last_nm(key: Seq<u8>) -> Seq<u8>
    decreases key.len(),
{
    if key.len() < 13 {
        key
    } else if key.take(13) == k_node_modules() {
        if nm_count(key.skip(13)) == 0 {
            key.skip(13)
        } else {
            after_last_nm(key.skip(13))
        }
    } else {
        if nm_count(key) == 0 {
            key
        } else {
            after_last_nm(key.drop_first())
        }
    }
}

/// Depth and package name of a `packages` path key.
pub fn nm_stats(key: &[u8]) -> (r: (usize, Vec<u8>))
    ensures
        r.0 == nm_count(key@),
        r.1@ == after_last_nm(key@),
        r.0 <= key@.len(),
    decreases key@.len(),
{
    let n = key.len();
    if n < 13 {
        return (0, clone_bytes(key));
    }
    let head = vstd::slice::slice_subrange(key, 0, 13);
    let pat = k_node_modules_bytes();
    proof {
        assert(head@ =~= key@.take(13));
    }
    if bytes_eq(head, pat.as_slice()) {
        let rest = vstd::slice::slice_subrange(key, 13, n);
        proof {
            assert(rest@ =~= key@.skip(13));
        }
        let (c, last) = nm_stats(rest);
        proof {
            if c == 0 {
                lemma_after_last_whole(rest@);
            }
        }
        (c + 1, last)
    } else {
        let rest = vstd::slice::slice_subrange(key, 1, n);
        proof {
            assert(rest@ =~= key@.drop_first());
        }
        let (c, last) = nm_stats(rest);
        if c == 0 {
            (0, clone_bytes(key))
        } else {
            (c, last)
        }
    }
}

/// The component count is never negative.
pub proof fn lemma_nm_count_nonneg(key: Seq<u8>)
    ensures
        nm_count(key) >= 0,
    decreases key.len(),
{
    if key.len() >= 13 {
        if key.take(13) == k_node_modules() {
            lemma_nm_count_nonneg(key.skip(13));
        } else {
            lemma_nm_count_nonneg(key.drop_first());
        }
    }
}

/// A key without any `node_modules/` component names itself.
proof fn lemma_after_last_whole(key: Seq<u8>)
    requires
        nm_count(key) == 0,
    ensures
        after_last_nm(key) == key,
    decreases key.len(),
{
    if key.len() >= 13 {
        if key.take(13) == k_node_modules() {
            lemma_nm_count_nonneg(key.skip(13));
        }
    }
}


/// The string under `key`, when the value there is a string.
pub open spec fn get_str(fs: Seq<(Seq<u8>, JsonV)>, key: Seq<u8>) -> Option<Seq<u8>> {
    match spec_obj_get(fs, key) {
        Some(JsonV::Str(s)) => Some(s),
        Some(JsonV::Null) => None,
        Some(JsonV::Bool(_)) => None,
        Some(JsonV::Num(_)) => None,
        Some(JsonV::Obj(_)) => None,
        Some(JsonV::Arr(_)) => None,
        None => None,
    }
}

/// Every value of a dependency map is a string.
pub open spec fn dep_fields_wf(df: Seq<(Seq<u8>, JsonV)>) -> bool {
    forall|k: int| 0 <= k < df.len() ==> (#[trigger] df[k]).1 is Str
}

/// A `packages` entry the reader accepts: an object whose `version` is a
/// well-formed version string; `resolved`, `integrity` and `shasum` are
/// strings when present; `dependencies` is a string map when present.
#[verifier::opaque]
pub open spec fn entry_wf(ev: JsonV) -> bool {
    &&& ev is Obj
    &&& get_str(ev->Obj_0, k_version()) is Some
    &&& spec_parse_version(get_str(ev->Obj_0, k_version()).unwrap()) is Some
    &&& (spec_obj_get(ev->Obj_0, k_resolved()) is None || get_str(ev->Obj_0, k_resolved())
        is Some)
    &&& (spec_obj_get(ev->Obj_0, k_integrity()) is None || get_str(ev->Obj_0, k_integrity())
        is Some)
    &&& (spec_obj_get(ev->Obj_0, k_shasum()) is None || get_str(ev->Obj_0, k_shasum()) is Some)
    &&& (spec_obj_get(ev->Obj_0, k_dependencies()) is None || (get_obj_fields(
        ev->Obj_0,
        k_dependencies(),
    ) is Some && dep_fields_wf(get_obj_fields(ev->Obj_0, k_dependencies()).unwrap())))
}

/// The root entry under the empty key: its dependency map, when present,
/// is a string map.
#[verifier::opaque]
pub open spec fn root_entry_wf(ev: JsonV) -> bool {
    &&& ev is Obj
    &&& (spec_obj_get(ev->Obj_0, k_dependencies()) is None || (get_obj_fields(
        ev->Obj_0,
        k_dependencies(),
    ) is Some && dep_fields_wf(get_obj_fields(ev->Obj_0, k_dependencies()).unwrap())))
}

/// Every `packages` field is acceptable.
pub open spec fn pk_entries_wf(pk: Seq<(Seq<u8>, JsonV)>) -> bool {
    forall|j: int|
        0 <= j < pk.len() ==> if (#[trigger] pk[j]).0 == Seq::<u8>::empty() {
            root_entry_wf(pk[j].1)
        } else {
            entry_wf(pk[j].1)
        }
}

/// A lockfile document the reader accepts.
pub open spec fn lockfile_doc_wf(v: JsonV) -> bool {
    &&& v is Obj
    &&& get_obj_fields(v->Obj_0, k_packages()) is Some
    &&& pk_entries_wf(get_obj_fields(v->Obj_0, k_packages()).unwrap())
}

/// The decoded dependency edges of one entry: names in the map's order,
/// each requirement read from its text with the degrade-to-any rule.
pub open spec fn deps_decoded(df: Seq<(Seq<u8>, JsonV)>, ds: Seq<DepEntry>) -> bool {
    &&& ds.len() == df.len()
    &&& forall|k: int| 0 <= k < df.len() ==> (#[trigger] ds[k]).name@ == df[k].0
    &&& forall|k: int|
        0 <= k < df.len() ==> (#[trigger] df[k]).1 is Str && ds[k].req@
            == crate::range::spec_req_or_any(df[k].1->Str_0)
}

/// The decoded root dependency pairs.
pub open spec fn root_deps_decoded(df: Seq<(Seq<u8>, JsonV)>, pairs: Seq<(Vec<u8>, Vec<u8>)>) -> bool {
    &&& pairs.len() == df.len()
    &&& forall|k: int| 0 <= k < df.len() ==> (#[trigger] pairs[k]).0@ == df[k].0
    &&& forall|k: int|
        0 <= k < df.len() ==> (#[trigger] df[k]).1 is Str && pairs[k].1@ == df[k].1->Str_0
}

/// What the reader recovers from one non-root entry. The name is what
/// follows the last `node_modules/` of the path key, the depth is the
/// number of such components; peer and optional edges are not recovered.
#[verifier::opaque]
pub open spec fn entry_matches_v(key: Seq<u8>, ev: JsonV, p: ResolvedPackage) -> bool {
    &&& entry_wf(ev)
    &&& p.info.name@ == after_last_nm(key)
    &&& p.depth == nm_count(key)
    &&& !p.optional
    &&& !p.info.is_workspace
    &&& Some(p.info.version@) == spec_parse_version(get_str(ev->Obj_0, k_version()).unwrap())
    &&& (match get_str(ev->Obj_0, k_resolved()) {
        Some(u) => p.info.tarball_url@ == u,
        None => p.info.tarball_url@.len() == 0,
    })
    &&& (match get_str(ev->Obj_0, k_integrity()) {
        Some(s) => p.info.integrity is Some && p.info.integrity.unwrap()@ == s,
        None => p.info.integrity is None,
    })
    &&& (match get_str(ev->Obj_0, k_shasum()) {
        Some(s) => p.info.shasum is Some && p.info.shasum.unwrap()@ == s,
        None => p.info.shasum is None,
    })
    &&& (match get_obj_fields(ev->Obj_0, k_dependencies()) {
        Some(df) => deps_decoded(df, p.info.dependencies@),
        None => p.info.dependencies@.len() == 0,
    })
    &&& p.info.peer_dependencies@.len() == 0
    &&& p.info.optional_dependencies@.len() == 0
}

/// Decodes a dependency object into edges.
pub fn decode_deps(fields: &Vec<(Vec<u8>, Json)>) -> (r: Option<Vec<DepEntry>>)
    ensures
        match r {
            Some(ds) => deps_decoded(obj_view(fields@), ds@),
            None => !dep_fields_wf(obj_view(fields@)),
        },
{
    proof {
        crate::json::lemma_obj_view_index(fields@);
    }
    let ghost df = obj_view(fields@);
    let mut out: Vec<DepEntry> = Vec::new();
    let mut i: usize = 0;
    while i < fields.len()
        invariant
            0 <= i <= fields@.len(),
            df == obj_view(fields@),
            df.len() == fields@.len(),
            forall|k: int|
                0 <= k < fields@.len() ==> df[k] == ((#[trigger] fields@[k]).0@, json_view(
                    fields@[k].1,
                )),
            out@.len() == i,
            forall|k: int| 0 <= k < i ==> (#[trigger] out@[k]).name@ == df[k].0,
            forall|k: int|
                0 <= k < i ==> (#[trigger] df[k]).1 is Str && out@[k].req@
                    == crate::range::spec_req_or_any(df[k].1->Str_0),
        decreases fields@.len() - i,
    {
        match &fields[i].1 {
            Json::Str(t) => {
                let req = crate::range::req_or_any(t.as_slice());
                out.push(DepEntry { name: clone_bytes(fields[i].0.as_slice()), req });
            },
            _ => {
                proof {
                    assert(!(df[i as int].1 is Str));
                }
                return None;
            },
        }
        i = i + 1;
    }
    Some(out)
}

/// Decodes a root dependency object into pairs.
fn decode_root_deps(fields: &Vec<(Vec<u8>, Json)>) -> (r: Option<Vec<(Vec<u8>, Vec<u8>)>>)
    ensures
        match r {
            Some(ps) => root_deps_decoded(obj_view(fields@), ps@),
            None => !dep_fields_wf(obj_view(fields@)),
        },
{
    proof {
        crate::json::lemma_obj_view_index(fields@);
    }
    let ghost df = obj_view(fields@);
    let mut out: Vec<(Vec<u8>, Vec<u8>)> = Vec::new();
    let mut i: usize = 0;
    while i < fields.len()
        invariant
            0 <= i <= fields@.len(),
            df == obj_view(fields@),
            df.len() == fields@.len(),
            forall|k: int|
                0 <= k < fields@.len() ==> df[k] == ((#[trigger] fields@[k]).0@, json_view(
                    fields@[k].1,
                )),
            out@.len() == i,
            forall|k: int| 0 <= k < i ==> (#[trigger] out@[k]).0@ == df[k].0,
            forall|k: int|
                0 <= k < i ==> (#[trigger] df[k]).1 is Str && out@[k].1@ == df[k].1->Str_0,
        decreases fields@.len() - i,
    {
        match &fields[i].1 {
            Json::Str(t) => {
                out.push((clone_bytes(fields[i].0.as_slice()), clone_bytes(t.as_slice())));
            },
            _ => {
                proof {
                    assert(!(df[i as int].1 is Str));
                }
                return None;
            },
        }
        i = i + 1;
    }
    Some(out)
}

/// Reads one non-root `packages` entry.
#[verifier::rlimit(100)]
#[verifier::spinoff_prover]
fn read_entry(key: &[u8], val: &Json) -> (r: Option<ResolvedPackage>)
    ensures
        match r {
            Some(p) => entry_matches_v(key@, json_view(*val), p) && entry_wf(json_view(*val)),
            None => !entry_wf(json_view(*val)),
        },
{
    proof {
        reveal(entry_wf);
        reveal(entry_matches_v);
    }
    let fields = match val {
        Json::Obj(fields) => fields,
        _ => {
            return None;
        },
    };
    let ghost ev = json_view(*val);
    proof {
        assert(ev->Obj_0 == obj_view(fields@));
    }
    let kv = k_version_bytes();
    let version = match crate::json::obj_get(fields, kv.as_slice()) {
        Some(Json::Str(vt)) => {
            match crate::version::parse_version(vt.as_slice()) {
                Some(v) => v,
                None => {
                    return None;
                },
            }
        },
        Some(_) => {
            return None;
        },
        None => {
            return None;
        },
    };
    let (depth, name) = nm_stats(key);
    let mut info = crate::package::PackageInfo::bare(name, version);
    let kr = k_resolved_bytes();
    match crate::json::obj_get(fields, kr.as_slice()) {
        Some(Json::Str(u)) => {
            info.tarball_url = clone_bytes(u.as_slice());
        },
        Some(_) => {
            return None;
        },
        None => {},
    }
    let ki = k_integrity_bytes();
    match crate::json::obj_get(fields, ki.as_slice()) {
        Some(Json::Str(s)) => {
            info.integrity = Some(clone_bytes(s.as_slice()));
        },
        Some(_) => {
            return None;
        },
        None => {},
    }
    let ks = k_shasum_bytes();
    match crate::json::obj_get(fields, ks.as_slice()) {
        Some(Json::Str(s)) => {
            info.shasum = Some(clone_bytes(s.as_slice()));
        },
        Some(_) => {
            return None;
        },
        None => {},
    }
    let kd = k_dependencies_bytes();
    match crate::json::obj_get(fields, kd.as_slice()) {
        Some(Json::Obj(dfields)) => {
            match decode_deps(dfields) {
                Some(ds) => {
                    info.dependencies = ds;
                },
                None => {
                    return None;
                },
            }
        },
        Some(_) => {
            return None;
        },
        None => {},
    }
    Some(crate::package::ResolvedPackage { info, depth, optional: false })
}

/// `p` was read off one of the first `i` fields.
pub open spec fn pkg_from_entries(
    pk: Seq<(Seq<u8>, JsonV)>,
    p: ResolvedPackage,
    i: int,
) -> bool {
    exists|j: int|
        0 <= j < i && (#[trigger] pk[j]).0 != Seq::<u8>::empty() && entry_matches_v(
            pk[j].0,
            pk[j].1,
            p,
        )
}

/// Some recovered package decodes the entry `(key, ev)`.
pub open spec fn entry_recovered(key: Seq<u8>, ev: JsonV, pkgs: Seq<ResolvedPackage>) -> bool {
    exists|t: int| 0 <= t < pkgs.len() && #[trigger] entry_matches_v(key, ev, pkgs[t])
}

/// Every recovered package so far corresponds to a non-root entry among
/// the first `i` fields.
#[verifier::opaque]
pub open spec fn fwd_ok(pk: Seq<(Seq<u8>, JsonV)>, pkgs: Seq<ResolvedPackage>, i: int) -> bool {
    forall|t: int| 0 <= t < pkgs.len() ==> pkg_from_entries(pk, #[trigger] pkgs[t], i)
}

/// Every non-root entry among the first `i` fields was recovered.
#[verifier::opaque]
pub open spec fn rev_ok(pk: Seq<(Seq<u8>, JsonV)>, pkgs: Seq<ResolvedPackage>, i: int) -> bool {
    forall|j: int|
        0 <= j < i && (#[trigger] pk[j]).0 != Seq::<u8>::empty() ==> entry_recovered(
            pk[j].0,
            pk[j].1,
            pkgs,
        )
}

#[verifier::rlimit(100)]
#[verifier::spinoff_prover]
proof fn lemma_step_push(
    pk: Seq<(Seq<u8>, JsonV)>,
    pkgs: Seq<ResolvedPackage>,
    p: ResolvedPackage,
    i: int,
)
    requires
        0 <= i < pk.len(),
        pk[i].0 != Seq::<u8>::empty(),
        entry_matches_v(pk[i].0, pk[i].1, p),
        fwd_ok(pk, pkgs, i),
        rev_ok(pk, pkgs, i),
    ensures
        fwd_ok(pk, pkgs.push(p), i + 1),
        rev_ok(pk, pkgs.push(p), i + 1),
{
    reveal(fwd_ok);
    reveal(rev_ok);
    let pkgs2 = pkgs.push(p);
    assert forall|t: int| 0 <= t < pkgs2.len() implies pkg_from_entries(
        pk,
        #[trigger] pkgs2[t],
        i + 1,
    ) by {
        if t < pkgs.len() {
            assert(pkgs2[t] == pkgs[t]);
            assert(pkg_from_entries(pk, pkgs[t], i));
            let j0 = choose|j: int|
                0 <= j < i && (#[trigger] pk[j]).0 != Seq::<u8>::empty() && entry_matches_v(
                    pk[j].0,
                    pk[j].1,
                    pkgs[t],
                );
            assert(entry_matches_v(pk[j0].0, pk[j0].1, pkgs2[t]));
        } else {
            assert(pkgs2[t] == p);
            assert(entry_matches_v(pk[i].0, pk[i].1, pkgs2[t]));
        }
    }
    assert forall|j: int|
        0 <= j < i + 1 && (#[trigger] pk[j]).0 != Seq::<u8>::empty() implies entry_recovered(
        pk[j].0,
        pk[j].1,
        pkgs2,
    ) by {
        if j < i {
            assert(entry_recovered(pk[j].0, pk[j].1, pkgs));
            let t0 = choose|t: int|
                0 <= t < pkgs.len() && #[trigger] entry_matches_v(pk[j].0, pk[j].1, pkgs[t]);
            assert(pkgs2[t0] == pkgs[t0]);
            assert(entry_matches_v(pk[j].0, pk[j].1, pkgs2[t0]));
        } else {
            assert(pkgs2[pkgs.len() as int] == p);
            assert(entry_matches_v(pk[j].0, pk[j].1, pkgs2[pkgs.len() as int]));
        }
    }
}

#[verifier::rlimit(100)]
#[verifier::spinoff_prover]
proof fn lemma_step_skip(pk: Seq<(Seq<u8>, JsonV)>, pkgs: Seq<ResolvedPackage>, i: int)
    requires
        0 <= i < pk.len(),
        pk[i].0 == Seq::<u8>::empty(),
        fwd_ok(pk, pkgs, i),
        rev_ok(pk, pkgs, i),
    ensures
        fwd_ok(pk, pkgs, i + 1),
        rev_ok(pk, pkgs, i + 1),
{
    reveal(fwd_ok);
    reveal(rev_ok);
    assert forall|t: int| 0 <= t < pkgs.len() implies pkg_from_entries(
        pk,
        #[trigger] pkgs[t],
        i + 1,
    ) by {
        assert(pkg_from_entries(pk, pkgs[t], i));
        let j0 = choose|j: int|
            0 <= j < i && (#[trigger] pk[j]).0 != Seq::<u8>::empty() && entry_matches_v(
                pk[j].0,
                pk[j].1,
                pkgs[t],
            );
        assert(0 <= j0 < i + 1 && pk[j0].0 != Seq::<u8>::empty() && entry_matches_v(
            pk[j0].0,
            pk[j0].1,
            pkgs[t],
        ));
    }
}

proof fn lemma_start_empty(pk: Seq<(Seq<u8>, JsonV)>, pkgs: Seq<ResolvedPackage>)
    requires
        pkgs.len() == 0,
    ensures
        fwd_ok(pk, pkgs, 0),
        rev_ok(pk, pkgs, 0),
{
    reveal(fwd_ok);
    reveal(rev_ok);
}

/// What a lockfile holds for the resolver and the installer.
pub struct LockfileData {
    pub root_dependencies: Vec<(Vec<u8>, Vec<u8>)>,
    pub packages: Vec<ResolvedPackage>,
}

/// The reader's guarantee: every recovered package corresponds to a
/// non-root entry, every non-root entry is recovered, and the root
/// dependency map is decoded when the root entry carries one.
pub open spec fn read_matches(v: JsonV, root_deps: Seq<(Vec<u8>, Vec<u8>)>, pkgs: Seq<ResolvedPackage>) -> bool {
    &&& lockfile_doc_wf(v)
    &&& {
        let pk = get_obj_fields(v->Obj_0, k_packages()).unwrap();
        &&& fwd_ok(pk, pkgs, pk.len() as int)
        &&& rev_ok(pk, pkgs, pk.len() as int)
        &&& (match spec_obj_get(pk, Seq::<u8>::empty()) {
            Some(rv) => match get_obj_fields(rv->Obj_0, k_dependencies()) {
                Some(rdf) => root_deps_decoded(rdf, root_deps),
                None => root_deps.len() == 0,
            },
            None => root_deps.len() == 0,
        })
    }
}

/// Reads a lockfile document: `None` exactly on a document the reader
/// does not accept.
#[verifier::rlimit(100)]
#[verifier::spinoff_prover]
pub fn read_lockfile_doc(doc: &Json) -> (r: Option<LockfileData>)
    ensures
        match r {
            Some(d) => read_matches(json_view(*doc), d.root_dependencies@, d.packages@),
            None => !lockfile_doc_wf(json_view(*doc)),
        },
{
    let top = match doc {
        Json::Obj(fields) => fields,
        _ => {
            return None;
        },
    };
    let ghost v = json_view(*doc);
    proof {
        assert(v->Obj_0 == obj_view(top@));
    }
    let kp = k_packages_bytes();
    let pk_fields = match crate::json::obj_get(top, kp.as_slice()) {
        Some(Json::Obj(fs)) => fs,
        Some(_) => {
            return None;
        },
        None => {
            return None;
        },
    };
    let ghost pk = obj_view(pk_fields@);
    proof {
        assert(get_obj_fields(v->Obj_0, k_packages()) == Some(pk));
        crate::json::lemma_obj_view_index(pk_fields@);
    }
    let mut packages: Vec<ResolvedPackage> = Vec::new();
    let mut root_dependencies: Vec<(Vec<u8>, Vec<u8>)> = Vec::new();
    let mut saw_root = false;
    let mut i: usize = 0;
    proof {
        lemma_start_empty(pk, packages@);
    }
    while i < pk_fields.len()
        invariant
            0 <= i <= pk_fields@.len(),
            v == json_view(*doc),
            v is Obj,
            get_obj_fields(v->Obj_0, k_packages()) == Some(pk),
            pk == obj_view(pk_fields@),
            pk.len() == pk_fields@.len(),
            forall|k: int|
                0 <= k < pk_fields@.len() ==> pk[k] == ((#[trigger] pk_fields@[k]).0@, json_view(
                    pk_fields@[k].1,
                )),
            forall|k: int|
                0 <= k < i ==> (if (#[trigger] pk[k]).0 == Seq::<u8>::empty() {
                    root_entry_wf(pk[k].1)
                } else {
                    entry_wf(pk[k].1)
                }),
            fwd_ok(pk, packages@, i as int),
            rev_ok(pk, packages@, i as int),
            !saw_root ==> root_dependencies@.len() == 0,
            !saw_root ==> forall|j: int|
                0 <= j < i ==> (#[trigger] pk[j]).0 != Seq::<u8>::empty(),
            saw_root ==> exists|j: int|
                0 <= j < i && (#[trigger] pk[j]).0 == Seq::<u8>::empty(),
            saw_root ==> (match spec_obj_get(pk, Seq::<u8>::empty()) {
                Some(rv) => match get_obj_fields(rv->Obj_0, k_dependencies()) {
                    Some(rdf) => root_deps_decoded(rdf, root_dependencies@),
                    None => root_dependencies@.len() == 0,
                },
                None => false,
            }),
        decreases pk_fields@.len() - i,
    {
        let key = &pk_fields[i].0;
        if key.len() == 0 {
            proof {
                reveal(root_entry_wf);
                assert(pk[i as int].0 =~= Seq::<u8>::empty());
            }
            let rfields = match &pk_fields[i].1 {
                Json::Obj(fs) => fs,
                _ => {
                    proof {
                        reveal(root_entry_wf);
                        assert(!root_entry_wf(pk[i as int].1));
                        assert(!pk_entries_wf(pk));
                    }
                    return None;
                },
            };
            proof {
                if !saw_root {
                    lemma_get_first_empty(pk, i as int);
                }
            }
            let kd = k_dependencies_bytes();
            match crate::json::obj_get(rfields, kd.as_slice()) {
                Some(Json::Obj(dfields)) => {
                    match decode_root_deps(dfields) {
                        Some(ps) => {
                            if !saw_root {
                                root_dependencies = ps;
                            }
                        },
                        None => {
                            proof {
                                reveal(root_entry_wf);
                                assert(!root_entry_wf(pk[i as int].1));
                                assert(!pk_entries_wf(pk));
                            }
                            return None;
                        },
                    }
                },
                Some(_) => {
                    proof {
                        reveal(root_entry_wf);
                        assert(!root_entry_wf(pk[i as int].1));
                        assert(!pk_entries_wf(pk));
                    }
                    return None;
                },
                None => {},
            }
            proof {
                reveal(root_entry_wf);
                assert(root_entry_wf(pk[i as int].1));
                lemma_step_skip(pk, packages@, i as int);
            }
            saw_root = true;
        } else {
            proof {
                assert(pk[i as int].0 != Seq::<u8>::empty());
            }
            match read_entry(key.as_slice(), &pk_fields[i].1) {
                Some(p) => {
                    let ghost pkgs_old = packages@;
                    let ghost pv = p;
                    packages.push(p);
                    proof {
                        assert(pk[i as int].0 == pk_fields@[i as int].0@);
                        assert(pk[i as int].1 == json_view(pk_fields@[i as int].1));
                        lemma_step_push(pk, pkgs_old, pv, i as int);
                        assert(packages@ == pkgs_old.push(pv));
                    }
                },
                None => {
                    proof {
                        assert(!entry_wf(pk[i as int].1));
                        assert(!pk_entries_wf(pk));
                    }
                    return None;
                },
            }
        }
        i = i + 1;
    }
    proof {
        if !saw_root {
            lemma_get_absent_value(pk, Seq::<u8>::empty());
        }
    }
    Some(LockfileData { root_dependencies, packages })
}

/// When the first field under the empty key sits at `i`, lookup finds it.
proof fn lemma_get_first_empty(pk: Seq<(Seq<u8>, JsonV)>, i: int)
    requires
        0 <= i < pk.len(),
        pk[i].0 == Seq::<u8>::empty(),
        forall|j: int| 0 <= j < i ==> (#[trigger] pk[j]).0 != Seq::<u8>::empty(),
    ensures
        spec_obj_get(pk, Seq::<u8>::empty()) == Some(pk[i].1),
{
    lemma_get_by_unique_key(pk, Seq::<u8>::empty(), i);
}

/// With no field under the key, lookup misses.
proof fn lemma_get_absent_value(pk: Seq<(Seq<u8>, JsonV)>, key: Seq<u8>)
    requires
        forall|j: int| 0 <= j < pk.len() ==> (#[trigger] pk[j]).0 != key,
    ensures
        spec_obj_get(pk, key) is None,
{
    lemma_get_absent(pk, key);
}

// ------------------------------------------------------------------
// Drift detection
// ------------------------------------------------------------------
/// First-match lookup in a name-to-text list.
pub open spec fn spec_lookup(m: Seq<(Vec<u8>, Vec<u8>)>, k: Seq<u8>) -> Option<Seq<u8>>
    decreases m.len(),
{
    if m.len() == 0 {
        None
    } else if m[0].0@ == k {
        Some(m[0].1@)
    } else {
        spec_lookup(m.drop_first(), k)
    }
}

/// Two dependency maps agree on every key either holds.
pub open spec fn maps_equal(a: Seq<(Vec<u8>, Vec<u8>)>, b: Seq<(Vec<u8>, Vec<u8>)>) -> bool {
    &&& forall|i: int|
        0 <= i < a.len() ==> spec_lookup(a, (#[trigger] a[i]).0@) == spec_lookup(b, a[i].0@)
    &&& forall|i: int|
        0 <= i < b.len() ==> spec_lookup(a, (#[trigger] b[i]).0@) == spec_lookup(b, b[i].0@)
}

fn lookup(m: &Vec<(Vec<u8>, Vec<u8>)>, k: &[u8]) -> (r: Option<Vec<u8>>)
    ensures
        match r {
            Some(v) => spec_lookup(m@, k@) == Some(v@),
            None => spec_lookup(m@, k@) is None,
        },
{
    let mut i: usize = 0;
    proof {
        assert(m@.skip(0) =~= m@);
    }
    while i < m.len()
        invariant
            0 <= i <= m@.len(),
            spec_lookup(m@, k@) == spec_lookup(m@.skip(i as int), k@),
        decreases m@.len() - i,
    {
        proof {
            assert(m@.skip(i as int)[0] == m@[i as int]);
            assert(m@.skip(i as int).drop_first() =~= m@.skip(i as int + 1));
        }
        if bytes_eq(m[i].0.as_slice(), k) {
            return Some(clone_bytes(m[i].1.as_slice()));
        }
        i = i + 1;
    }
    proof {
        assert(m@.skip(m@.len() as int) =~= Seq::<(Vec<u8>, Vec<u8>)>::empty());
    }
    None
}

/// The `ci` pre-flight check: true exactly when the manifest's direct
/// dependency map and the lockfile's root dependency map agree; on false
/// the reproducible install aborts without touching disk.
pub fn dependency_maps_agree(a: &Vec<(Vec<u8>, Vec<u8>)>, b: &Vec<(Vec<u8>, Vec<u8>)>) -> (r:
    bool)
    ensures
        r == maps_equal(a@, b@),
{
    let mut i: usize = 0;
    while i < a.len()
        invariant
            0 <= i <= a@.len(),
            forall|k: int|
                0 <= k < i ==> spec_lookup(a@, (#[trigger] a@[k]).0@) == spec_lookup(
                    b@,
                    a@[k].0@,
                ),
        decreases a@.len() - i,
    {
        let la = lookup(a, a[i].0.as_slice());
        let lb = lookup(b, a[i].0.as_slice());
        let same = match (&la, &lb) {
            (Some(x), Some(y)) => bytes_eq(x.as_slice(), y.as_slice()),
            (None, None) => true,
            _ => false,
        };
        if !same {
            return false;
        }
        i = i + 1;
    }
    let mut j: usize = 0;
    while j < b.len()
        invariant
            0 <= j <= b@.len(),
            forall|k: int|
                0 <= k < a@.len() ==> spec_lookup(a@, (#[trigger] a@[k]).0@) == spec_lookup(
                    b@,
                    a@[k].0@,
                ),
            forall|k: int|
                0 <= k < j ==> spec_lookup(a@, (#[trigger] b@[k]).0@) == spec_lookup(
                    b@,
                    b@[k].0@,
                ),
        decreases b@.len() - j,
    {
        let la = lookup(a, b[j].0.as_slice());
        let lb = lookup(b, b[j].0.as_slice());
        let same = match (&la, &lb) {
            (Some(x), Some(y)) => bytes_eq(x.as_slice(), y.as_slice()),
            (None, None) => true,
            _ => false,
        };
        if !same {
            return false;
        }
        j = j + 1;
    }
    true
}

} // verus!



