//! Laws the components obey, stated and proved over the same spec
//! functions their contracts use.
use vstd::prelude::*;

use crate::json::JsonV;
use crate::manifest::{
    is_dep_map_key, name_listed, spec_edit_field, spec_removed_total, spec_retain,
};
use crate::range::{
    or0, spec_alts_match, spec_between, spec_clause_matches, spec_conj_matches, spec_desugar,
    spec_fill, spec_parse_range, ClauseV, OpKind, PartialV,
};
use crate::version::{spec_version_cmp, VersionV};

verus! {

/// The empty requirement text and `*` both parse to the single empty
/// conjunction, and that requirement accepts every version.
pub proof fn lemma_empty_requirement_is_any(v: VersionV)
    ensures
        spec_parse_range(Seq::<u8>::empty()) == Some(seq![Seq::<ClauseV>::empty()]),
        spec_parse_range(seq![0x2au8]) == Some(seq![Seq::<ClauseV>::empty()]),
        spec_alts_match(seq![Seq::<ClauseV>::empty()], v),
{
    let e = Seq::<u8>::empty();
    assert(crate::bytes::spec_find2(e, 0x7c, 0x7c) is None);
    assert(crate::bytes::spec_split2(e, 0x7c, 0x7c) == seq![e]);
    assert(crate::bytes::spec_trim(e) == e);
    assert(crate::range::spec_parse_conj(e) == Some(Seq::<ClauseV>::empty()));
    assert(seq![e].drop_first() =~= Seq::<Seq<u8>>::empty());
    assert(seq![e][0] == e);
    assert(crate::range::spec_alts(Seq::<Seq<u8>>::empty()) == Some(
        Seq::<Seq<ClauseV>>::empty(),
    ));
    assert(crate::range::spec_alts(seq![e]) == Some(
        seq![Seq::<ClauseV>::empty()] + Seq::<Seq<ClauseV>>::empty(),
    ));
    assert(seq![Seq::<ClauseV>::empty()] + Seq::<Seq<ClauseV>>::empty() =~= seq![
        Seq::<ClauseV>::empty(),
    ]);
    let s = seq![0x2au8];
    assert(s.drop_first() =~= Seq::<u8>::empty());
    assert(s[0] == 0x2au8);
    assert(seq![s][0] == s);
    assert(seq![s].drop_first() =~= Seq::<Seq<u8>>::empty());
    assert(crate::bytes::spec_find(Seq::<u8>::empty(), 0x20) is None);
    assert(crate::bytes::spec_find(Seq::<u8>::empty(), 0x2b) is None);
    assert(crate::bytes::spec_find(Seq::<u8>::empty(), 0x2d) is None);
    assert(crate::bytes::spec_find(Seq::<u8>::empty(), 0x2e) is None);
    assert(crate::bytes::spec_find2(s, 0x7c, 0x7c) is None);
    assert(crate::bytes::spec_split2(s, 0x7c, 0x7c) == seq![s]);
    assert(!crate::bytes::is_space(s[0]));
    assert(crate::bytes::spec_trim(s) == s);
    assert(crate::bytes::spec_find3(s, 0x20, 0x2d, 0x20) is None);
    assert(crate::bytes::spec_find(s, 0x20) is None);
    assert(crate::bytes::spec_split(s, 0x20) == seq![s]);
    assert(crate::bytes::spec_nonempty(seq![s]) == seq![s] + crate::bytes::spec_nonempty(
        Seq::<Seq<u8>>::empty(),
    ));
    assert(seq![s] + crate::bytes::spec_nonempty(Seq::<Seq<u8>>::empty()) =~= seq![s]);
    assert(crate::range::spec_tok_op(s).0 == OpKind::Plain);
    assert(crate::range::spec_tok_op(s).1 == s);
    assert(crate::bytes::spec_find(s, 0x2b) is None);
    assert(crate::bytes::spec_find(s, 0x2d) is None);
    assert(crate::bytes::spec_split(s, 0x2e) == seq![s]);
    assert(crate::range::spec_wildcard(s));
    assert(crate::range::spec_parse_partial(s) == Some(
        PartialV { major: None, minor: None, patch: None, pre: Seq::empty() },
    ));
    let pv = PartialV { major: None, minor: None, patch: None, pre: Seq::empty() };
    assert(spec_desugar(OpKind::Plain, pv) == Some(Seq::<ClauseV>::empty()));
    assert(seq![s].skip(1) =~= Seq::<Seq<u8>>::empty());
    assert(seq![s].drop_first() =~= Seq::<Seq<u8>>::empty());
    assert(crate::range::spec_clauses_of_tokens(seq![s]) == Some(
        Seq::<ClauseV>::empty() + Seq::<ClauseV>::empty(),
    ));
    assert(Seq::<ClauseV>::empty() + Seq::<ClauseV>::empty() =~= Seq::<ClauseV>::empty());
    assert(crate::range::spec_parse_conj(s) == Some(Seq::<ClauseV>::empty()));
    assert(crate::range::spec_alts(seq![s]) == Some(
        seq![Seq::<ClauseV>::empty()] + Seq::<Seq<ClauseV>>::empty(),
    ));
    assert(spec_conj_matches(seq![Seq::<ClauseV>::empty()][0], v));
    assert(spec_alts_match(seq![Seq::<ClauseV>::empty()], v));
}

/// A caret on a pre-1.0 version with a non-zero minor tightens to that
/// minor: the desugared clauses accept exactly the versions from the
/// written one (inclusive) up to the next minor (exclusive).
pub proof fn lemma_caret_pre_one_tightens_to_minor(p: PartialV, w: VersionV)
    requires
        p.major == Some(0int),
        p.minor is Some,
        or0(p.minor) > 0,
        or0(p.minor) < u64::MAX,
        p.patch is Some,
    ensures
        spec_desugar(OpKind::Caret, p) == Some(
            spec_between(spec_fill(p), VersionV::plain(0, or0(p.minor) + 1, 0)),
        ),
        spec_conj_matches(spec_desugar(OpKind::Caret, p).unwrap(), w) <==> (spec_version_cmp(
            w,
            spec_fill(p),
        ) >= 0 && spec_version_cmp(w, VersionV::plain(0, or0(p.minor) + 1, 0)) < 0),
{
    let cs = spec_between(spec_fill(p), VersionV::plain(0, or0(p.minor) + 1, 0));
    assert(cs.len() == 2);
    assert(cs[0] == ClauseV { op: crate::range::CmpOp::AtLeast, ver: spec_fill(p) });
    assert(cs[1] == ClauseV {
        op: crate::range::CmpOp::Below,
        ver: VersionV::plain(0, or0(p.minor) + 1, 0),
    });
    if spec_conj_matches(cs, w) {
        assert(spec_clause_matches(cs[0], w));
        assert(spec_clause_matches(cs[1], w));
    }
    if spec_version_cmp(w, spec_fill(p)) >= 0 && spec_version_cmp(
        w,
        VersionV::plain(0, or0(p.minor) + 1, 0),
    ) < 0 {
        assert forall|i: int| 0 <= i < cs.len() implies spec_clause_matches(
            #[trigger] cs[i],
            w,
        ) by {
            if i == 0 {
            } else {
            }
        }
    }
}

/// Retention keeps everything when none of the names occurs.
pub proof fn lemma_retain_absent(fields: Seq<(Seq<u8>, JsonV)>, names: Seq<Vec<u8>>)
    requires
        forall|j: int| 0 <= j < fields.len() ==> !name_listed(names, (#[trigger] fields[j]).0),
    ensures
        spec_retain(fields, names) == fields,
    decreases fields.len(),
{
    if fields.len() > 0 {
        assert(!name_listed(names, fields[0].0));
        assert forall|j: int| 0 <= j < fields.drop_first().len() implies !name_listed(
            names,
            (#[trigger] fields.drop_first()[j]).0,
        ) by {
            assert(fields.drop_first()[j] == fields[j + 1]);
        }
        lemma_retain_absent(fields.drop_first(), names);
        assert(spec_retain(fields, names) =~= fields);
    }
}

/// Uninstalling names that no dependency map mentions removes nothing and
/// leaves every field of the manifest as it was.
pub proof fn lemma_uninstall_missing_is_noop(top: Seq<(Seq<u8>, JsonV)>, names: Seq<Vec<u8>>)
    requires
        forall|k: int, j: int|
            0 <= k < top.len() && is_dep_map_key((#[trigger] top[k]).0) && top[k].1 is Obj && 0
                <= j < top[k].1->Obj_0.len() ==> !name_listed(
                names,
                (#[trigger] top[k].1->Obj_0[j]).0,
            ),
    ensures
        spec_removed_total(top, names) == 0,
        top.map_values(|kv: (Seq<u8>, JsonV)| spec_edit_field(kv, names)) == top,
    decreases top.len(),
{
    if top.len() > 0 {
        if is_dep_map_key(top[0].0) && top[0].1 is Obj {
            assert forall|j: int| 0 <= j < top[0].1->Obj_0.len() implies !name_listed(
                names,
                (#[trigger] top[0].1->Obj_0[j]).0,
            ) by {}
            lemma_retain_absent(top[0].1->Obj_0, names);
            assert(spec_edit_field(top[0], names).1 == JsonV::Obj(top[0].1->Obj_0));
            assert(JsonV::Obj(top[0].1->Obj_0) == top[0].1);
        }
        assert forall|k: int, j: int|
            0 <= k < top.drop_first().len() && is_dep_map_key(
                (#[trigger] top.drop_first()[k]).0,
            ) && top.drop_first()[k].1 is Obj && 0 <= j
                < top.drop_first()[k].1->Obj_0.len() implies !name_listed(
            names,
            (#[trigger] top.drop_first()[k].1->Obj_0[j]).0,
        ) by {
            assert(top.drop_first()[k] == top[k + 1]);
        }
        lemma_uninstall_missing_is_noop(top.drop_first(), names);
        assert forall|k: int| 0 <= k < top.len() implies spec_edit_field(
            #[trigger] top[k],
            names,
        ) == top[k] by {
            if k >= 1 {
                assert(top.drop_first()[k - 1] == top[k]);
                assert(top.drop_first().map_values(
                    |kv: (Seq<u8>, JsonV)| spec_edit_field(kv, names),
                )[k - 1] == spec_edit_field(top.drop_first()[k - 1], names));
                assert(top.drop_first().map_values(
                    |kv: (Seq<u8>, JsonV)| spec_edit_field(kv, names),
                )[k - 1] == top.drop_first()[k - 1]);
            } else {
                if is_dep_map_key(top[0].0) && top[0].1 is Obj {
                } else {
                    assert(spec_edit_field(top[0], names) == top[0]);
                }
            }
        }
        assert(top.map_values(|kv: (Seq<u8>, JsonV)| spec_edit_field(kv, names)) =~= top);
    } else {
        assert(top.map_values(|kv: (Seq<u8>, JsonV)| spec_edit_field(kv, names)) =~= top);
    }
}

} // verus!
