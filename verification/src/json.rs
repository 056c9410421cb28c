//! The JSON document model the manifest and lockfile codecs work on, and a
//! byte-stable pretty printer for it: two-space indentation, keys in the
//! order the document holds them, `"` and `\` and control characters
//! escaped. Numbers keep their written form.
use vstd::prelude::*;

use crate::bytes::hex_digit;

verus! {

/// A JSON value; object fields keep their order, numbers their lexeme.
pub enum Json {
    Null,
    Bool(bool),
    Num(Vec<u8>),
    Str(Vec<u8>),
    Arr(Vec<Json>),
    Obj(Vec<(Vec<u8>, Json)>),
}

pub enum JsonV {
    Null,
    Bool(bool),
    Num(Seq<u8>),
    Str(Seq<u8>),
    Arr(Seq<JsonV>),
    Obj(Seq<(Seq<u8>, JsonV)>),
}

pub open spec fn json_view(j: Json) -> JsonV
    decreases j,
{
    match j {
        Json::Null => JsonV::Null,
        Json::Bool(b) => JsonV::Bool(b),
        Json::Num(s) => JsonV::Num(s@),
        Json::Str(s) => JsonV::Str(s@),
        Json::Arr(items) => JsonV::Arr(arr_view(items@)),
        Json::Obj(fields) => JsonV::Obj(obj_view(fields@)),
    }
}

pub open spec fn arr_view(items: Seq<Json>) -> Seq<JsonV>
    decreases items,
{
    if items.len() == 0 {
        Seq::empty()
    } else {
        seq![json_view(items[0])] + arr_view(items.drop_first())
    }
}

pub open spec fn obj_view(fields: Seq<(Vec<u8>, Json)>) -> Seq<(Seq<u8>, JsonV)>
    decreases fields,
{
    if fields.len() == 0 {
        Seq::empty()
    } else {
        seq![(fields[0].0@, json_view(fields[0].1))] + obj_view(fields.drop_first())
    }
}

impl View for Json {
    type V = JsonV;

    open spec fn view(&self) -> JsonV {
        json_view(*self)
    }
}

pub proof fn lemma_arr_view_index(items: Seq<Json>)
    ensures
        arr_view(items).len() == items.len(),
        forall|i: int|
            0 <= i < items.len() ==> arr_view(items)[i] == json_view(#[trigger] items[i]),
    decreases items,
{
    if items.len() > 0 {
        lemma_arr_view_index(items.drop_first());
        assert forall|i: int| 0 <= i < items.len() implies arr_view(items)[i] == json_view(
            #[trigger] items[i],
        ) by {
            if i >= 1 {
                assert(items.drop_first()[i - 1] == items[i]);
            }
        }
    }
}

pub proof fn lemma_obj_view_index(fields: Seq<(Vec<u8>, Json)>)
    ensures
        obj_view(fields).len() == fields.len(),
        forall|i: int|
            0 <= i < fields.len() ==> obj_view(fields)[i] == ((#[trigger] fields[i]).0@,
            json_view(fields[i].1)),
    decreases fields,
{
    if fields.len() > 0 {
        lemma_obj_view_index(fields.drop_first());
        assert forall|i: int| 0 <= i < fields.len() implies obj_view(fields)[i] == ((
        #[trigger] fields[i]).0@, json_view(fields[i].1)) by {
            if i >= 1 {
                assert(fields.drop_first()[i - 1] == fields[i]);
            }
        }
    }
}

// ------------------------------------------------------------------
// Field lookup
// ------------------------------------------------------------------
/// The value of the first field named `key`.
pub open spec fn spec_obj_get(fields: Seq<(Seq<u8>, JsonV)>, key: Seq<u8>) -> Option<JsonV>
    decreases fields,
{
    if fields.len() == 0 {
        None
    } else if fields[0].0 == key {
        Some(fields[0].1)
    } else {
        spec_obj_get(fields.drop_first(), key)
    }
}

pub fn obj_get<'a>(fields: &'a Vec<(Vec<u8>, Json)>, key: &[u8]) -> (r: Option<&'a Json>)
    ensures
        match r {
            Some(j) => spec_obj_get(obj_view(fields@), key@) == Some(json_view(*j)),
            None => spec_obj_get(obj_view(fields@), key@) is None,
        },
{
    proof {
        lemma_obj_view_index(fields@);
        assert(obj_view(fields@).skip(0) =~= obj_view(fields@));
    }
    let mut i: usize = 0;
    while i < fields.len()
        invariant
            0 <= i <= fields@.len(),
            obj_view(fields@).len() == fields@.len(),
            forall|k: int|
                0 <= k < fields@.len() ==> obj_view(fields@)[k] == ((#[trigger] fields@[k]).0@,
                json_view(fields@[k].1)),
            forall|k: int| 0 <= k < i ==> (#[trigger] fields@[k]).0@ != key@,
            spec_obj_get(obj_view(fields@), key@) == spec_obj_get(
                obj_view(fields@).skip(i as int),
                key@,
            ),
        decreases fields@.len() - i,
    {
        proof {
            let ov = obj_view(fields@);
            assert(ov.skip(i as int)[0] == ov[i as int]);
            assert(ov.skip(i as int).drop_first() =~= ov.skip(i as int + 1));
        }
        if crate::bytes::bytes_eq(fields[i].0.as_slice(), key) {
            return Some(&fields[i].1);
        }
        i = i + 1;
    }
    proof {
        assert(obj_view(fields@).skip(fields@.len() as int) =~= Seq::<(Seq<u8>, JsonV)>::empty());
    }
    None
}

// ------------------------------------------------------------------
// Printing, spec level
// ------------------------------------------------------------------
/// What one byte of a string prints as.
pub open spec fn esc_byte(b: u8) -> Seq<u8> {
    if b == 0x22 {
        seq![0x5cu8, 0x22]
    } else if b == 0x5c {
        seq![0x5cu8, 0x5c]
    } else if b < 0x20 {
        seq![0x5cu8, 0x75, 0x30, 0x30, hex_digit(b as int / 16), hex_digit(b as int % 16)]
    } else {
        seq![b]
    }
}

pub open spec fn sp_escape(s: Seq<u8>) -> Seq<u8>
    decreases s.len(),
{
    if s.len() == 0 {
        Seq::empty()
    } else {
        esc_byte(s[0]) + sp_escape(s.drop_first())
    }
}

/// A quoted, escaped string literal.
pub open spec fn sp_quote(s: Seq<u8>) -> Seq<u8> {
    seq![0x22u8] + sp_escape(s) + seq![0x22u8]
}

/// `n` spaces.
pub open spec fn sp_indent(n: int) -> Seq<u8>
    decreases n,
{
    if n <= 0 {
        Seq::empty()
    } else {
        sp_indent(n - 1).push(0x20)
    }
}

/// The pretty-printed form at indentation `ind`: `null`, `true`, `false`,
/// the number's lexeme, a quoted string, or a bracketed block whose items
/// sit on their own lines two spaces deeper.
pub open spec fn sp_json(v: JsonV, ind: int) -> Seq<u8>
    decreases v, 1int,
{
    match v {
        JsonV::Null => seq![0x6eu8, 0x75, 0x6c, 0x6c],
        JsonV::Bool(b) => if b {
            seq![0x74u8, 0x72, 0x75, 0x65]
        } else {
            seq![0x66u8, 0x61, 0x6c, 0x73, 0x65]
        },
        JsonV::Num(s) => s,
        JsonV::Str(s) => sp_quote(s),
        JsonV::Arr(items) => if items.len() == 0 {
            seq![0x5bu8, 0x5d]
        } else {
            seq![0x5bu8, 0x0a] + sp_arr_items(items, ind + 2) + seq![0x0au8] + sp_indent(ind)
                + seq![0x5du8]
        },
        JsonV::Obj(fields) => if fields.len() == 0 {
            seq![0x7bu8, 0x7d]
        } else {
            seq![0x7bu8, 0x0a] + sp_obj_items(fields, ind + 2) + seq![0x0au8] + sp_indent(ind)
                + seq![0x7du8]
        },
    }
}

/// Array items, one per line, separated by `,\n`.
pub open spec fn sp_arr_items(items: Seq<JsonV>, ind: int) -> Seq<u8>
    decreases items, 0int,
{
    if items.len() == 0 {
        Seq::empty()
    } else if items.len() == 1 {
        sp_indent(ind) + sp_json(items[0], ind)
    } else {
        sp_indent(ind) + sp_json(items[0], ind) + seq![0x2cu8, 0x0a] + sp_arr_items(
            items.drop_first(),
            ind,
        )
    }
}

/// Object fields, one `"key": value` per line, separated by `,\n`.
pub open spec fn sp_obj_items(fields: Seq<(Seq<u8>, JsonV)>, ind: int) -> Seq<u8>
    decreases fields, 0int,
{
    if fields.len() == 0 {
        Seq::empty()
    } else if fields.len() == 1 {
        sp_indent(ind) + sp_quote(fields[0].0) + seq![0x3au8, 0x20] + sp_json(fields[0].1, ind)
    } else {
        sp_indent(ind) + sp_quote(fields[0].0) + seq![0x3au8, 0x20] + sp_json(fields[0].1, ind)
            + seq![0x2cu8, 0x0a] + sp_obj_items(fields.drop_first(), ind)
    }
}

// ------------------------------------------------------------------
// Printing, executable
// ------------------------------------------------------------------
pub open spec fn all_spaces(s: Seq<u8>) -> bool {
    forall|i: int| 0 <= i < s.len() ==> #[trigger] s[i] == 0x20
}

proof fn lemma_all_spaces_is_indent(s: Seq<u8>)
    requires
        all_spaces(s),
    ensures
        s == sp_indent(s.len() as int),
    decreases s.len(),
{
    if s.len() > 0 {
        lemma_all_spaces_is_indent(s.drop_last());
        assert(s =~= s.drop_last().push(s.last()));
        assert(s.last() == 0x20);
    }
}

proof fn lemma_escape_snoc(s: Seq<u8>, i: int)
    requires
        0 <= i < s.len(),
    ensures
        sp_escape(s.take(i + 1)) == sp_escape(s.take(i)) + esc_byte(s[i]),
    decreases i,
{
    let a = s.take(i + 1);
    let b = s.take(i);
    if i == 0 {
        assert(a =~= seq![s[0]]);
        assert(b =~= Seq::<u8>::empty());
        assert(a.drop_first() =~= Seq::<u8>::empty());
        assert(sp_escape(a) =~= sp_escape(b) + esc_byte(s[0]));
    } else {
        lemma_escape_snoc(s.drop_first(), i - 1);
        assert(a.drop_first() =~= s.drop_first().take(i));
        assert(b.drop_first() =~= s.drop_first().take(i - 1));
        assert(a[0] == s[0]);
        assert(b[0] == s[0]);
        assert(s.drop_first()[i - 1] == s[i]);
        assert(sp_escape(a) =~= sp_escape(b) + esc_byte(s[i]));
    }
}

/// Appends the escaped form of `s`.
fn write_escaped(out: &mut Vec<u8>, s: &[u8])
    ensures
        final(out)@ == old(out)@ + sp_escape(s@),
{
    let ghost base = out@;
    let mut i: usize = 0;
    proof {
        assert(s@.take(0) =~= Seq::<u8>::empty());
    }
    while i < s.len()
        invariant
            0 <= i <= s@.len(),
            out@ == base + sp_escape(s@.take(i as int)),
        decreases s@.len() - i,
    {
        let b = s[i];
        let ghost before = out@;
        if b == 0x22 {
            out.push(0x5c);
            out.push(0x22);
        } else if b == 0x5c {
            out.push(0x5c);
            out.push(0x5c);
        } else if b < 0x20 {
            out.push(0x5c);
            out.push(0x75);
            out.push(0x30);
            out.push(0x30);
            let hi = b / 16;
            let lo = b % 16;
            out.push(
                if hi < 10 {
                    0x30 + hi
                } else {
                    0x57 + hi
                },
            );
            out.push(
                if lo < 10 {
                    0x30 + lo
                } else {
                    0x57 + lo
                },
            );
        } else {
            out.push(b);
        }
        proof {
            lemma_escape_snoc(s@, i as int);
            assert(out@ =~= before + esc_byte(s@[i as int]));
            assert(out@ =~= base + sp_escape(s@.take(i as int + 1)));
        }
        i = i + 1;
    }
    proof {
        assert(s@.take(s@.len() as int) =~= s@);
    }
}

/// Appends `"s"` with escapes.
fn write_quoted(out: &mut Vec<u8>, s: &[u8])
    ensures
        final(out)@ == old(out)@ + sp_quote(s@),
{
    out.push(0x22);
    write_escaped(out, s);
    out.push(0x22);
    proof {
        assert(out@ =~= old(out)@ + sp_quote(s@));
    }
}

/// The pretty printer. `indent` is the current indentation, spaces only.
#[verifier::loop_isolation(false)]
#[verifier::rlimit(100)]
#[verifier::spinoff_prover]
fn write_json_at(v: &Json, indent: &Vec<u8>, out: &mut Vec<u8>)
    requires
        all_spaces(indent@),
    ensures
        final(out)@ == old(out)@ + sp_json(json_view(*v), indent@.len() as int),
    decreases *v,
{
    proof {
        lemma_all_spaces_is_indent(indent@);
    }
    match v {
        Json::Null => {
            out.push(0x6e);
            out.push(0x75);
            out.push(0x6c);
            out.push(0x6c);
            proof {
                assert(out@ =~= old(out)@ + sp_json(json_view(*v), indent@.len() as int));
            }
        },
        Json::Bool(b) => {
            if *b {
                out.push(0x74);
                out.push(0x72);
                out.push(0x75);
                out.push(0x65);
            } else {
                out.push(0x66);
                out.push(0x61);
                out.push(0x6c);
                out.push(0x73);
                out.push(0x65);
            }
            proof {
                assert(out@ =~= old(out)@ + sp_json(json_view(*v), indent@.len() as int));
            }
        },
        Json::Num(s) => {
            crate::bytes::extend_bytes(out, s.as_slice());
        },
        Json::Str(s) => {
            write_quoted(out, s.as_slice());
        },
        Json::Arr(items) => {
            proof {
                lemma_arr_view_index(items@);
            }
            if items.len() == 0 {
                out.push(0x5b);
                out.push(0x5d);
                proof {
                    assert(out@ =~= old(out)@ + sp_json(json_view(*v), indent@.len() as int));
                }
            } else {
                out.push(0x5b);
                out.push(0x0a);
                let mut inner = crate::bytes::clone_bytes(indent.as_slice());
                inner.push(0x20);
                inner.push(0x20);
                proof {
                    assert(all_spaces(inner@)) by {
                        assert(forall|k: int|
                            0 <= k < indent@.len() ==> inner@[k] == #[trigger] indent@[k]);
                    }
                }
                let ghost iv = arr_view(items@);
                let ghost ind2 = inner@.len() as int;
                let ghost base2 = out@;
                let mut i: usize = 0;
                while i < items.len()
                    invariant
                        0 < items@.len(),
                        i <= items@.len(),
                        iv == arr_view(items@),
                        iv.len() == items@.len(),
                        forall|k: int|
                            0 <= k < items@.len() ==> iv[k] == json_view(#[trigger] items@[k]),
                        all_spaces(inner@),
                        inner@.len() == ind2,
                        i == 0 ==> out@ == base2,
                        i > 0 ==> out@ == base2 + sp_arr_items(iv.take(i as int), ind2),
                    decreases items@.len() - i,
                {
                    if i > 0 {
                        out.push(0x2c);
                        out.push(0x0a);
                    }
                    let ghost mark = out@;
                    crate::bytes::extend_bytes(out, inner.as_slice());
                    proof {
                        lemma_all_spaces_is_indent(inner@);
                        assert(decreases_to!(*v => v->Arr_0));
                        assert(v->Arr_0 == *items);
                        assert(decreases_to!(*items => items@));
                        assert(decreases_to!(items@ => items@[i as int]));
                        assert(decreases_to!(*v => items@[i as int]));
                    }
                    write_json_at(&items[i], &inner, out);
                    proof {
                        assert(out@ =~= mark + sp_indent(ind2) + sp_json(iv[i as int], ind2));
                        if i == 0 {
                            assert(iv.take(1) =~= seq![iv[0]]);
                            assert(sp_arr_items(iv.take(1), ind2) == sp_indent(ind2) + sp_json(
                                iv[0],
                                ind2,
                            ));
                            assert(out@ =~= base2 + sp_arr_items(iv.take(1), ind2));
                        } else {
                            lemma_arr_items_snoc(iv, i as int, ind2);
                            assert(out@ =~= base2 + sp_arr_items(iv.take(i as int + 1), ind2));
                        }
                    }
                    i = i + 1;
                }
                out.push(0x0a);
                crate::bytes::extend_bytes(out, indent.as_slice());
                out.push(0x5d);
                proof {
                    assert(iv.take(iv.len() as int) =~= iv);
                    assert(out@ =~= old(out)@ + sp_json(json_view(*v), indent@.len() as int));
                }
            }
        },
        Json::Obj(fields) => {
            proof {
                lemma_obj_view_index(fields@);
            }
            if fields.len() == 0 {
                out.push(0x7b);
                out.push(0x7d);
                proof {
                    assert(out@ =~= old(out)@ + sp_json(json_view(*v), indent@.len() as int));
                }
            } else {
                out.push(0x7b);
                out.push(0x0a);
                let mut inner = crate::bytes::clone_bytes(indent.as_slice());
                inner.push(0x20);
                inner.push(0x20);
                proof {
                    assert(all_spaces(inner@)) by {
                        assert(forall|k: int|
                            0 <= k < indent@.len() ==> inner@[k] == #[trigger] indent@[k]);
                    }
                }
                let ghost fv = obj_view(fields@);
                let ghost ind2 = inner@.len() as int;
                let ghost base2 = out@;
                let mut i: usize = 0;
                while i < fields.len()
                    invariant
                        0 < fields@.len(),
                        i <= fields@.len(),
                        fv == obj_view(fields@),
                        fv.len() == fields@.len(),
                        forall|k: int|
                            0 <= k < fields@.len() ==> fv[k] == ((#[trigger] fields@[k]).0@,
                            json_view(fields@[k].1)),
                        all_spaces(inner@),
                        inner@.len() == ind2,
                        i == 0 ==> out@ == base2,
                        i > 0 ==> out@ == base2 + sp_obj_items(fv.take(i as int), ind2),
                    decreases fields@.len() - i,
                {
                    if i > 0 {
                        out.push(0x2c);
                        out.push(0x0a);
                    }
                    let ghost mark = out@;
                    crate::bytes::extend_bytes(out, inner.as_slice());
                    write_quoted(out, fields[i].0.as_slice());
                    out.push(0x3a);
                    out.push(0x20);
                    proof {
                        lemma_all_spaces_is_indent(inner@);
                        assert(out@ =~= mark + sp_indent(ind2) + sp_quote(fv[i as int].0) + seq![
                            0x3au8,
                            0x20,
                        ]);
                    }
                    let ghost mark2 = out@;
                    proof {
                        assert(decreases_to!(*v => v->Obj_0));
                        assert(v->Obj_0 == *fields);
                        assert(decreases_to!(*fields => fields@));
                        assert(decreases_to!(fields@ => fields@[i as int]));
                        assert(decreases_to!(fields@[i as int] => fields@[i as int].1));
                        assert(decreases_to!(*v => fields@[i as int].1));
                    }
                    write_json_at(&fields[i].1, &inner, out);
                    proof {
                        assert(out@ =~= mark + sp_indent(ind2) + sp_quote(fv[i as int].0) + seq![
                            0x3au8,
                            0x20,
                        ] + sp_json(fv[i as int].1, ind2));
                        if i == 0 {
                            assert(fv.take(1) =~= seq![fv[0]]);
                            assert(sp_obj_items(fv.take(1), ind2) == sp_indent(ind2) + sp_quote(
                                fv[0].0,
                            ) + seq![0x3au8, 0x20] + sp_json(fv[0].1, ind2));
                            assert(out@ =~= base2 + sp_obj_items(fv.take(1), ind2));
                        } else {
                            lemma_obj_items_snoc(fv, i as int, ind2);
                            assert(out@ =~= base2 + sp_obj_items(fv.take(i as int + 1), ind2));
                        }
                    }
                    i = i + 1;
                }
                out.push(0x0a);
                crate::bytes::extend_bytes(out, indent.as_slice());
                out.push(0x7d);
                proof {
                    assert(fv.take(fv.len() as int) =~= fv);
                    assert(out@ =~= old(out)@ + sp_json(json_view(*v), indent@.len() as int));
                }
            }
        },
    }
}

proof fn lemma_arr_items_snoc(items: Seq<JsonV>, i: int, ind: int)
    requires
        1 <= i < items.len(),
    ensures
        sp_arr_items(items.take(i + 1), ind) == sp_arr_items(items.take(i), ind) + seq![
            0x2cu8,
            0x0a,
        ] + sp_indent(ind) + sp_json(items[i], ind),
    decreases i,
{
    let a = items.take(i + 1);
    let b = items.take(i);
    if i == 1 {
        assert(a.len() == 2);
        assert(a[0] == items[0]);
        assert(a.drop_first() =~= seq![items[1]]);
        assert(a.drop_first().len() == 1);
        assert(a.drop_first()[0] == items[1]);
        assert(b =~= seq![items[0]]);
        assert(sp_arr_items(a.drop_first(), ind) == sp_indent(ind) + sp_json(items[1], ind));
        assert(sp_arr_items(b, ind) == sp_indent(ind) + sp_json(items[0], ind));
        assert(sp_arr_items(a, ind) =~= sp_arr_items(b, ind) + seq![0x2cu8, 0x0a] + sp_indent(ind)
            + sp_json(items[1], ind));
    } else {
        lemma_arr_items_snoc(items.drop_first(), i - 1, ind);
        assert(a.drop_first() =~= items.drop_first().take(i));
        assert(b.drop_first() =~= items.drop_first().take(i - 1));
        assert(a[0] == items[0]);
        assert(b[0] == items[0]);
        assert(items.drop_first()[i - 1] == items[i]);
        assert(sp_arr_items(a, ind) =~= sp_arr_items(b, ind) + seq![0x2cu8, 0x0a] + sp_indent(ind)
            + sp_json(items[i], ind));
    }
}

proof fn lemma_obj_items_snoc(fields: Seq<(Seq<u8>, JsonV)>, i: int, ind: int)
    requires
        1 <= i < fields.len(),
    ensures
        sp_obj_items(fields.take(i + 1), ind) == sp_obj_items(fields.take(i), ind) + seq![
            0x2cu8,
            0x0a,
        ] + sp_indent(ind) + sp_quote(fields[i].0) + seq![0x3au8, 0x20] + sp_json(
            fields[i].1,
            ind,
        ),
    decreases i,
{
    let a = fields.take(i + 1);
    let b = fields.take(i);
    if i == 1 {
        assert(a.len() == 2);
        assert(a[0] == fields[0]);
        assert(a.drop_first() =~= seq![fields[1]]);
        assert(a.drop_first().len() == 1);
        assert(a.drop_first()[0] == fields[1]);
        assert(b =~= seq![fields[0]]);
        assert(sp_obj_items(a.drop_first(), ind) == sp_indent(ind) + sp_quote(fields[1].0) + seq![
            0x3au8,
            0x20,
        ] + sp_json(fields[1].1, ind));
        assert(sp_obj_items(b, ind) == sp_indent(ind) + sp_quote(fields[0].0) + seq![0x3au8, 0x20]
            + sp_json(fields[0].1, ind));
        assert(sp_obj_items(a, ind) =~= sp_obj_items(b, ind) + seq![0x2cu8, 0x0a] + sp_indent(ind)
            + sp_quote(fields[1].0) + seq![0x3au8, 0x20] + sp_json(fields[1].1, ind));
    } else {
        lemma_obj_items_snoc(fields.drop_first(), i - 1, ind);
        assert(a.drop_first() =~= fields.drop_first().take(i));
        assert(b.drop_first() =~= fields.drop_first().take(i - 1));
        assert(a[0] == fields[0]);
        assert(b[0] == fields[0]);
        assert(fields.drop_first()[i - 1] == fields[i]);
        assert(sp_obj_items(a, ind) =~= sp_obj_items(b, ind) + seq![0x2cu8, 0x0a] + sp_indent(ind)
            + sp_quote(fields[i].0) + seq![0x3au8, 0x20] + sp_json(fields[i].1, ind));
    }
}

/// Pretty-prints a document: a deterministic function of the document, so
/// printing an unchanged document gives identical bytes.
pub fn print_json(v: &Json) -> (r: Vec<u8>)
    ensures
        r@ == sp_json(json_view(*v), 0),
{
    let indent: Vec<u8> = Vec::new();
    let mut out: Vec<u8> = Vec::new();
    write_json_at(v, &indent, &mut out);
    proof {
        assert(out@ =~= sp_json(json_view(*v), 0));
    }
    out
}

} // verus!
