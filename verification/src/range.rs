//! NPM-style version requirements: a disjunction (`||`) of conjunctions of
//! primitive comparator clauses. Caret, tilde, wildcard, hyphen and partial
//! forms are desugared at parse time into exact/bound clauses over concrete
//! versions; matching is then pure comparison in the semver order.
use vstd::prelude::*;

use crate::bytes::{
    find_byte, find_triple, nonempty_pieces, spec_find, spec_find3, spec_nonempty, spec_split,
    spec_split2, spec_trim, split_byte, split_on_pair, trim,
};
use crate::version::{
    parse_component, parse_pre_list, spec_num, spec_pre_ids, spec_version_cmp, version_cmp,
    PreId, PreIdV, Version, VersionV,
};

verus! {

/// A primitive comparator.
#[derive(Clone, Copy, PartialEq, Eq, Structural)]
pub enum CmpOp {
    Exact,
    Above,
    AtLeast,
    Below,
    AtMost,
}

/// The operator written in front of a token, before desugaring.
#[derive(Clone, Copy, PartialEq, Eq, Structural)]
pub enum OpKind {
    Plain,
    Exact,
    Above,
    AtLeast,
    Below,
    AtMost,
    Caret,
    Tilde,
}

pub struct Clause {
    pub op: CmpOp,
    pub ver: Version,
}

pub struct ClauseV {
    pub op: CmpOp,
    pub ver: VersionV,
}

impl View for Clause {
    type V = ClauseV;

    open spec fn view(&self) -> ClauseV {
        ClauseV { op: self.op, ver: self.ver@ }
    }
}

pub open spec fn clauses_view(cs: Seq<Clause>) -> Seq<ClauseV> {
    cs.map_values(|c: Clause| c@)
}

pub open spec fn alts_view(a: Seq<Vec<Clause>>) -> Seq<Seq<ClauseV>> {
    a.map_values(|c: Vec<Clause>| clauses_view(c@))
}

/// A possibly partial version written in a requirement: `None` stands for a
/// missing or wildcard position.
pub struct Partial {
    pub major: Option<u64>,
    pub minor: Option<u64>,
    pub patch: Option<u64>,
    pub pre: Vec<PreId>,
}

pub struct PartialV {
    pub major: Option<int>,
    pub minor: Option<int>,
    pub patch: Option<int>,
    pub pre: Seq<PreIdV>,
}

impl View for Partial {
    type V = PartialV;

    open spec fn view(&self) -> PartialV {
        PartialV {
            major: match self.major {
                Some(v) => Some(v as int),
                None => None,
            },
            minor: match self.minor {
                Some(v) => Some(v as int),
                None => None,
            },
            patch: match self.patch {
                Some(v) => Some(v as int),
                None => None,
            },
            pre: self.pre@.map_values(|p: PreId| p@),
        }
    }
}

/// A parsed requirement; `text` preserves the original written form.
pub struct VersionRequirement {
    pub text: Vec<u8>,
    pub alts: Vec<Vec<Clause>>,
}

pub struct RequirementV {
    pub text: Seq<u8>,
    pub alts: Seq<Seq<ClauseV>>,
}

impl View for VersionRequirement {
    type V = RequirementV;

    open spec fn view(&self) -> RequirementV {
        RequirementV { text: self.text@, alts: alts_view(self.alts@) }
    }
}

/// A requirement clause failed to parse.
#[derive(Clone, Copy, Debug, PartialEq, Eq, Structural)]
pub struct ParseError {}

// ------------------------------------------------------------------
// Grammar, spec level
// ------------------------------------------------------------------
/// `x`, `X` or `*`.
pub open spec fn spec_wildcard(p: Seq<u8>) -> bool {
    p.len() == 1 && (p[0] == 0x78 || p[0] == 0x58 || p[0] == 0x2a)
}

/// One version position in a requirement: a wildcard or a number.
pub open spec fn spec_part_comp(p: Seq<u8>) -> Option<Option<int>> {
    if spec_wildcard(p) {
        Some(None)
    } else {
        match spec_num(p) {
            Some(n) => Some(Some(n)),
            None => None,
        }
    }
}

/// A version token of a requirement: up to three dotted positions, each a
/// number or wildcard; a pre-release list is allowed only after a full
/// numeric triple. Anything after `+` is build metadata and is ignored.
pub open spec fn spec_parse_partial(tok: Seq<u8>) -> Option<PartialV> {
    let no_build = match spec_find(tok, 0x2b) {
        Some(i) => tok.subrange(0, i),
        None => tok,
    };
    match spec_find(no_build, 0x2d) {
        Some(i) => {
            let nums = spec_split(no_build.subrange(0, i), 0x2e);
            let pre_res = spec_pre_ids(
                spec_split(no_build.subrange(i + 1, no_build.len() as int), 0x2e),
            );
            if nums.len() == 3 && spec_num(nums[0]) is Some && spec_num(nums[1]) is Some
                && spec_num(nums[2]) is Some && pre_res is Some && pre_res.unwrap().len() > 0 {
                Some(
                    PartialV {
                        major: Some(spec_num(nums[0]).unwrap()),
                        minor: Some(spec_num(nums[1]).unwrap()),
                        patch: Some(spec_num(nums[2]).unwrap()),
                        pre: pre_res.unwrap(),
                    },
                )
            } else {
                None
            }
        },
        None => {
            let pieces = spec_split(no_build, 0x2e);
            if pieces.len() == 1 && spec_part_comp(pieces[0]) is Some {
                Some(
                    PartialV {
                        major: spec_part_comp(pieces[0]).unwrap(),
                        minor: None,
                        patch: None,
                        pre: Seq::empty(),
                    },
                )
            } else if pieces.len() == 2 && spec_part_comp(pieces[0]) is Some && spec_part_comp(
                pieces[1],
            ) is Some {
                Some(
                    PartialV {
                        major: spec_part_comp(pieces[0]).unwrap(),
                        minor: spec_part_comp(pieces[1]).unwrap(),
                        patch: None,
                        pre: Seq::empty(),
                    },
                )
            } else if pieces.len() == 3 && spec_part_comp(pieces[0]) is Some && spec_part_comp(
                pieces[1],
            ) is Some && spec_part_comp(pieces[2]) is Some {
                Some(
                    PartialV {
                        major: spec_part_comp(pieces[0]).unwrap(),
                        minor: spec_part_comp(pieces[1]).unwrap(),
                        patch: spec_part_comp(pieces[2]).unwrap(),
                        pre: Seq::empty(),
                    },
                )
            } else {
                None
            }
        },
    }
}

pub open spec fn or0(o: Option<int>) -> int {
    match o {
        Some(v) => v,
        None => 0,
    }
}

/// Missing positions filled with zeroes, pre-release kept.
pub open spec fn spec_fill(p: PartialV) -> VersionV {
    VersionV {
        major: or0(p.major),
        minor: or0(p.minor),
        patch: or0(p.patch),
        pre: p.pre,
        build: Seq::empty(),
    }
}

/// The half-open interval `[lo, hi)` as two clauses.
pub open spec fn spec_between(lo: VersionV, hi: VersionV) -> Seq<ClauseV> {
    seq![ClauseV { op: CmpOp::AtLeast, ver: lo }, ClauseV { op: CmpOp::Below, ver: hi }]
}

pub open spec fn op_cmp(k: OpKind) -> CmpOp {
    if k == OpKind::Above {
        CmpOp::Above
    } else if k == OpKind::AtLeast {
        CmpOp::AtLeast
    } else if k == OpKind::Below {
        CmpOp::Below
    } else if k == OpKind::AtMost {
        CmpOp::AtMost
    } else {
        CmpOp::Exact
    }
}

/// Desugars one operator applied to one partial version, per the range
/// rules: wildcard major means "any"; a missing minor or patch widens a
/// plain token to the corresponding interval; caret keeps the leftmost
/// non-zero position; tilde allows patch changes when the minor is written
/// and minor changes otherwise; comparison operators fill zeroes. A bump
/// that cannot be represented is a parse failure.
pub open spec fn spec_desugar(k: OpKind, p: PartialV) -> Option<Seq<ClauseV>> {
    match p.major {
        None => Some(Seq::empty()),
        Some(maj) => {
            if k == OpKind::Plain || k == OpKind::Exact {
                if p.minor is None {
                    if maj < u64::MAX {
                        Some(spec_between(spec_fill(p), VersionV::plain(maj + 1, 0, 0)))
                    } else {
                        None
                    }
                } else if p.patch is None {
                    if or0(p.minor) < u64::MAX {
                        Some(
                            spec_between(
                                spec_fill(p),
                                VersionV::plain(maj, or0(p.minor) + 1, 0),
                            ),
                        )
                    } else {
                        None
                    }
                } else {
                    Some(seq![ClauseV { op: CmpOp::Exact, ver: spec_fill(p) }])
                }
            } else if k == OpKind::Caret {
                if maj > 0 {
                    if maj < u64::MAX {
                        Some(spec_between(spec_fill(p), VersionV::plain(maj + 1, 0, 0)))
                    } else {
                        None
                    }
                } else if p.minor is None {
                    Some(spec_between(spec_fill(p), VersionV::plain(1, 0, 0)))
                } else if or0(p.minor) > 0 {
                    if or0(p.minor) < u64::MAX {
                        Some(
                            spec_between(spec_fill(p), VersionV::plain(0, or0(p.minor) + 1, 0)),
                        )
                    } else {
                        None
                    }
                } else if p.patch is None {
                    Some(spec_between(spec_fill(p), VersionV::plain(0, 1, 0)))
                } else {
                    if or0(p.patch) < u64::MAX {
                        Some(
                            spec_between(spec_fill(p), VersionV::plain(0, 0, or0(p.patch) + 1)),
                        )
                    } else {
                        None
                    }
                }
            } else if k == OpKind::Tilde {
                if p.minor is None {
                    if maj < u64::MAX {
                        Some(spec_between(spec_fill(p), VersionV::plain(maj + 1, 0, 0)))
                    } else {
                        None
                    }
                } else {
                    if or0(p.minor) < u64::MAX {
                        Some(
                            spec_between(
                                spec_fill(p),
                                VersionV::plain(maj, or0(p.minor) + 1, 0),
                            ),
                        )
                    } else {
                        None
                    }
                }
            } else {
                Some(seq![ClauseV { op: op_cmp(k), ver: spec_fill(p) }])
            }
        },
    }
}

/// The operator prefix of a token and what follows it.
pub open spec fn spec_tok_op(t: Seq<u8>) -> (OpKind, Seq<u8>) {
    if t.len() >= 2 && t[0] == 0x3e && t[1] == 0x3d {
        (OpKind::AtLeast, t.skip(2))
    } else if t.len() >= 2 && t[0] == 0x3c && t[1] == 0x3d {
        (OpKind::AtMost, t.skip(2))
    } else if t.len() >= 1 && t[0] == 0x3e {
        (OpKind::Above, t.skip(1))
    } else if t.len() >= 1 && t[0] == 0x3c {
        (OpKind::Below, t.skip(1))
    } else if t.len() >= 1 && t[0] == 0x3d {
        (OpKind::Exact, t.skip(1))
    } else if t.len() >= 1 && t[0] == 0x5e {
        (OpKind::Caret, t.skip(1))
    } else if t.len() >= 1 && t[0] == 0x7e {
        (OpKind::Tilde, t.skip(1))
    } else {
        (OpKind::Plain, t)
    }
}

/// Clauses of a whitespace-separated token list. An operator written as a
/// token of its own applies to the following token.
pub open spec fn spec_clauses_of_tokens(toks: Seq<Seq<u8>>) -> Option<Seq<ClauseV>>
    decreases toks.len(),
{
    if toks.len() == 0 {
        Some(Seq::empty())
    } else {
        let k = spec_tok_op(toks[0]).0;
        let rest = spec_tok_op(toks[0]).1;
        if k != OpKind::Plain && rest.len() == 0 {
            if toks.len() >= 2 {
                match spec_parse_partial(toks[1]) {
                    None => None,
                    Some(pv) => match spec_desugar(k, pv) {
                        None => None,
                        Some(cs) => match spec_clauses_of_tokens(toks.skip(2)) {
                            None => None,
                            Some(more) => Some(cs + more),
                        },
                    },
                }
            } else {
                None
            }
        } else {
            match spec_parse_partial(rest) {
                None => None,
                Some(pv) => match spec_desugar(k, pv) {
                    None => None,
                    Some(cs) => match spec_clauses_of_tokens(toks.drop_first()) {
                        None => None,
                        Some(more) => Some(cs + more),
                    },
                },
            }
        }
    }
}

/// The hyphen range `lo - hi`: at least `lo`, at most `hi`; a wildcard on
/// either side drops that bound.
pub open spec fn spec_hyphen_conj(lo: PartialV, hi: PartialV) -> Seq<ClauseV> {
    (match lo.major {
        Some(_) => seq![ClauseV { op: CmpOp::AtLeast, ver: spec_fill(lo) }],
        None => Seq::<ClauseV>::empty(),
    }) + (match hi.major {
        Some(_) => seq![ClauseV { op: CmpOp::AtMost, ver: spec_fill(hi) }],
        None => Seq::<ClauseV>::empty(),
    })
}

/// One `||`-separated alternative.
pub open spec fn spec_parse_conj(part: Seq<u8>) -> Option<Seq<ClauseV>> {
    let p = spec_trim(part);
    if p.len() == 0 {
        Some(Seq::empty())
    } else {
        match spec_find3(p, 0x20, 0x2d, 0x20) {
            Some(i) => {
                let lo = spec_trim(p.subrange(0, i));
                let hi = spec_trim(p.subrange(i + 3, p.len() as int));
                if spec_parse_partial(lo) is Some && spec_parse_partial(hi) is Some {
                    Some(
                        spec_hyphen_conj(
                            spec_parse_partial(lo).unwrap(),
                            spec_parse_partial(hi).unwrap(),
                        ),
                    )
                } else {
                    None
                }
            },
            None => spec_clauses_of_tokens(spec_nonempty(spec_split(p, 0x20))),
        }
    }
}

pub open spec fn spec_alts(parts: Seq<Seq<u8>>) -> Option<Seq<Seq<ClauseV>>>
    decreases parts.len(),
{
    if parts.len() == 0 {
        Some(Seq::empty())
    } else {
        match spec_parse_conj(parts[0]) {
            None => None,
            Some(c) => match spec_alts(parts.drop_first()) {
                None => None,
                Some(rest) => Some(seq![c] + rest),
            },
        }
    }
}

/// The whole requirement grammar.
pub open spec fn spec_parse_range(t: Seq<u8>) -> Option<Seq<Seq<ClauseV>>> {
    spec_alts(spec_split2(t, 0x7c, 0x7c))
}

// ------------------------------------------------------------------
// Matching, spec level
// ------------------------------------------------------------------
pub open spec fn spec_clause_matches(c: ClauseV, v: VersionV) -> bool {
    match c.op {
        CmpOp::Exact => spec_version_cmp(v, c.ver) == 0,
        CmpOp::Above => spec_version_cmp(v, c.ver) > 0,
        CmpOp::AtLeast => spec_version_cmp(v, c.ver) >= 0,
        CmpOp::Below => spec_version_cmp(v, c.ver) < 0,
        CmpOp::AtMost => spec_version_cmp(v, c.ver) <= 0,
    }
}

pub open spec fn spec_conj_matches(cs: Seq<ClauseV>, v: VersionV) -> bool {
    forall|i: int| 0 <= i < cs.len() ==> spec_clause_matches(#[trigger] cs[i], v)
}

/// True when some alternative's clauses all hold of `v`.
pub open spec fn spec_alts_match(alts: Seq<Seq<ClauseV>>, v: VersionV) -> bool {
    exists|i: int| 0 <= i < alts.len() && spec_conj_matches(#[trigger] alts[i], v)
}

// ------------------------------------------------------------------
// Executable parser
// ------------------------------------------------------------------
fn parse_part_comp(p: &[u8]) -> (r: Option<Option<u64>>)
    ensures
        match r {
            Some(Some(v)) => spec_part_comp(p@) == Some(Some(v as int)),
            Some(None) => spec_part_comp(p@) == Some(None::<int>),
            None => spec_part_comp(p@) is None,
        },
{
    if p.len() == 1 && (p[0] == 0x78 || p[0] == 0x58 || p[0] == 0x2a) {
        Some(None)
    } else {
        match parse_component(p) {
            Some(v) => Some(Some(v)),
            None => None,
        }
    }
}

/// Parses one version token of a requirement.
pub fn parse_partial(tok: &[u8]) -> (r: Option<Partial>)
    ensures
        match r {
            Some(pv) => spec_parse_partial(tok@) == Some(pv@),
            None => spec_parse_partial(tok@) is None,
        },
{
    proof {
        crate::bytes::lemma_spec_find(tok@, 0x2b);
    }
    let n = tok.len();
    let no_build: &[u8] = match find_byte(tok, 0x2b) {
        Some(i) => vstd::slice::slice_subrange(tok, 0, i),
        None => tok,
    };
    proof {
        crate::bytes::lemma_spec_find(no_build@, 0x2d);
    }
    let m = no_build.len();
    match find_byte(no_build, 0x2d) {
        Some(i) => {
            let core = vstd::slice::slice_subrange(no_build, 0, i);
            let pre_part = vstd::slice::slice_subrange(no_build, i + 1, m);
            let nums = split_byte(core, 0x2e);
            proof {
                crate::bytes::lemma_spec_split_len(core@, 0x2e);
            }
            if nums.len() != 3 {
                return None;
            }
            let major = match parse_component(nums[0].as_slice()) {
                Some(v) => v,
                None => {
                    return None;
                },
            };
            let minor = match parse_component(nums[1].as_slice()) {
                Some(v) => v,
                None => {
                    return None;
                },
            };
            let patch = match parse_component(nums[2].as_slice()) {
                Some(v) => v,
                None => {
                    return None;
                },
            };
            match parse_pre_list(pre_part) {
                Some(ids) => {
                    if ids.len() == 0 {
                        return None;
                    }
                    let out = Partial {
                        major: Some(major),
                        minor: Some(minor),
                        patch: Some(patch),
                        pre: ids,
                    };
                    proof {
                        let spec_p = spec_parse_partial(tok@).unwrap();
                        assert(out@.pre =~= spec_p.pre);
                    }
                    Some(out)
                },
                None => None,
            }
        },
        None => {
            let pieces = split_byte(no_build, 0x2e);
            proof {
                crate::bytes::lemma_spec_split_len(no_build@, 0x2e);
            }
            if pieces.len() > 3 {
                return None;
            }
            let c0 = match parse_part_comp(pieces[0].as_slice()) {
                Some(c) => c,
                None => {
                    return None;
                },
            };
            if pieces.len() == 1 {
                let out = Partial { major: c0, minor: None, patch: None, pre: Vec::new() };
                proof {
                    assert(out@.pre =~= Seq::<PreIdV>::empty());
                }
                return Some(out);
            }
            let c1 = match parse_part_comp(pieces[1].as_slice()) {
                Some(c) => c,
                None => {
                    return None;
                },
            };
            if pieces.len() == 2 {
                let out = Partial { major: c0, minor: c1, patch: None, pre: Vec::new() };
                proof {
                    assert(out@.pre =~= Seq::<PreIdV>::empty());
                }
                return Some(out);
            }
            let c2 = match parse_part_comp(pieces[2].as_slice()) {
                Some(c) => c,
                None => {
                    return None;
                },
            };
            let out = Partial { major: c0, minor: c1, patch: c2, pre: Vec::new() };
            proof {
                assert(out@.pre =~= Seq::<PreIdV>::empty());
            }
            Some(out)
        },
    }
}

fn fill_partial(p: Partial) -> (r: Version)
    ensures
        r@ == spec_fill(p@),
{
    let major = match p.major {
        Some(v) => v,
        None => 0,
    };
    let minor = match p.minor {
        Some(v) => v,
        None => 0,
    };
    let patch = match p.patch {
        Some(v) => v,
        None => 0,
    };
    let r = Version { major, minor, patch, pre: p.pre, build: Vec::new() };
    proof {
        assert(r@.build =~= Seq::<Seq<u8>>::empty());
    }
    r
}

fn plain_version(major: u64, minor: u64, patch: u64) -> (r: Version)
    ensures
        r@ == VersionV::plain(major as int, minor as int, patch as int),
{
    let r = Version { major, minor, patch, pre: Vec::new(), build: Vec::new() };
    proof {
        assert(r@.pre =~= Seq::<PreIdV>::empty());
        assert(r@.build =~= Seq::<Seq<u8>>::empty());
    }
    r
}

fn between(lo: Version, hi: Version) -> (r: Vec<Clause>)
    ensures
        clauses_view(r@) == spec_between(lo@, hi@),
{
    let mut out: Vec<Clause> = Vec::new();
    out.push(Clause { op: CmpOp::AtLeast, ver: lo });
    out.push(Clause { op: CmpOp::Below, ver: hi });
    proof {
        assert(clauses_view(out@) =~= spec_between(out@[0].ver@, out@[1].ver@));
    }
    out
}

/// Desugars one operator and partial version into clauses.
pub fn desugar(k: OpKind, p: Partial) -> (r: Option<Vec<Clause>>)
    ensures
        match r {
            Some(cs) => spec_desugar(k, p@) == Some(clauses_view(cs@)),
            None => spec_desugar(k, p@) is None,
        },
{
    let maj = match p.major {
        Some(v) => v,
        None => {
            let out: Vec<Clause> = Vec::new();
            proof {
                assert(clauses_view(out@) =~= Seq::<ClauseV>::empty());
            }
            return Some(out);
        },
    };
    match k {
        OpKind::Plain | OpKind::Exact => {
            if p.minor.is_none() {
                if maj < u64::MAX {
                    Some(between(fill_partial(p), plain_version(maj + 1, 0, 0)))
                } else {
                    None
                }
            } else if p.patch.is_none() {
                let min = match p.minor {
                    Some(v) => v,
                    None => 0,
                };
                if min < u64::MAX {
                    Some(between(fill_partial(p), plain_version(maj, min + 1, 0)))
                } else {
                    None
                }
            } else {
                let mut out: Vec<Clause> = Vec::new();
                out.push(Clause { op: CmpOp::Exact, ver: fill_partial(p) });
                proof {
                    assert(clauses_view(out@) =~= seq![out@[0]@]);
                }
                Some(out)
            }
        },
        OpKind::Caret => {
            if maj > 0 {
                if maj < u64::MAX {
                    Some(between(fill_partial(p), plain_version(maj + 1, 0, 0)))
                } else {
                    None
                }
            } else if p.minor.is_none() {
                Some(between(fill_partial(p), plain_version(1, 0, 0)))
            } else {
                let min = match p.minor {
                    Some(v) => v,
                    None => 0,
                };
                if min > 0 {
                    if min < u64::MAX {
                        Some(between(fill_partial(p), plain_version(0, min + 1, 0)))
                    } else {
                        None
                    }
                } else if p.patch.is_none() {
                    Some(between(fill_partial(p), plain_version(0, 1, 0)))
                } else {
                    let pat = match p.patch {
                        Some(v) => v,
                        None => 0,
                    };
                    if pat < u64::MAX {
                        Some(between(fill_partial(p), plain_version(0, 0, pat + 1)))
                    } else {
                        None
                    }
                }
            }
        },
        OpKind::Tilde => {
            if p.minor.is_none() {
                if maj < u64::MAX {
                    Some(between(fill_partial(p), plain_version(maj + 1, 0, 0)))
                } else {
                    None
                }
            } else {
                let min = match p.minor {
                    Some(v) => v,
                    None => 0,
                };
                if min < u64::MAX {
                    Some(between(fill_partial(p), plain_version(maj, min + 1, 0)))
                } else {
                    None
                }
            }
        },
        OpKind::Above | OpKind::AtLeast | OpKind::Below | OpKind::AtMost => {
            let op = match k {
                OpKind::Above => CmpOp::Above,
                OpKind::AtLeast => CmpOp::AtLeast,
                OpKind::Below => CmpOp::Below,
                _ => CmpOp::AtMost,
            };
            let mut out: Vec<Clause> = Vec::new();
            out.push(Clause { op, ver: fill_partial(p) });
            proof {
                assert(clauses_view(out@) =~= seq![out@[0]@]);
            }
            Some(out)
        },
    }
}

/// Splits the operator prefix off a token.
fn op_of_token<'a>(t: &'a [u8]) -> (r: (OpKind, &'a [u8]))
    ensures
        r.0 == spec_tok_op(t@).0,
        r.1@ == spec_tok_op(t@).1,
{
    let n = t.len();
    if t.len() >= 2 && t[0] == 0x3e && t[1] == 0x3d {
        let rest = vstd::slice::slice_subrange(t, 2, n);
        proof {
            assert(rest@ =~= t@.skip(2));
        }
        (OpKind::AtLeast, rest)
    } else if t.len() >= 2 && t[0] == 0x3c && t[1] == 0x3d {
        let rest = vstd::slice::slice_subrange(t, 2, n);
        proof {
            assert(rest@ =~= t@.skip(2));
        }
        (OpKind::AtMost, rest)
    } else if t.len() >= 1 && t[0] == 0x3e {
        let rest = vstd::slice::slice_subrange(t, 1, n);
        proof {
            assert(rest@ =~= t@.skip(1));
        }
        (OpKind::Above, rest)
    } else if t.len() >= 1 && t[0] == 0x3c {
        let rest = vstd::slice::slice_subrange(t, 1, n);
        proof {
            assert(rest@ =~= t@.skip(1));
        }
        (OpKind::Below, rest)
    } else if t.len() >= 1 && t[0] == 0x3d {
        let rest = vstd::slice::slice_subrange(t, 1, n);
        proof {
            assert(rest@ =~= t@.skip(1));
        }
        (OpKind::Exact, rest)
    } else if t.len() >= 1 && t[0] == 0x5e {
        let rest = vstd::slice::slice_subrange(t, 1, n);
        proof {
            assert(rest@ =~= t@.skip(1));
        }
        (OpKind::Caret, rest)
    } else if t.len() >= 1 && t[0] == 0x7e {
        let rest = vstd::slice::slice_subrange(t, 1, n);
        proof {
            assert(rest@ =~= t@.skip(1));
        }
        (OpKind::Tilde, rest)
    } else {
        (OpKind::Plain, t)
    }
}

spec fn toks_sv(toks: Seq<Vec<u8>>) -> Seq<Seq<u8>> {
    toks.map_values(|t: Vec<u8>| t@)
}

fn clauses_from(toks: &Vec<Vec<u8>>, i: usize) -> (r: Option<Vec<Clause>>)
    requires
        i <= toks@.len(),
    ensures
        match r {
            Some(cs) => spec_clauses_of_tokens(toks_sv(toks@).skip(i as int)) == Some(
                clauses_view(cs@),
            ),
            None => spec_clauses_of_tokens(toks_sv(toks@).skip(i as int)) is None,
        },
    decreases toks@.len() - i,
{
    let ghost sv = toks_sv(toks@).skip(i as int);
    if i == toks.len() {
        proof {
            assert(sv =~= Seq::<Seq<u8>>::empty());
        }
        let out: Vec<Clause> = Vec::new();
        proof {
            assert(clauses_view(out@) =~= Seq::<ClauseV>::empty());
        }
        return Some(out);
    }
    proof {
        assert(sv[0] == toks@[i as int]@);
    }
    let (k, rest) = op_of_token(toks[i].as_slice());
    let alone = (match k {
        OpKind::Plain => false,
        _ => true,
    }) && rest.len() == 0;
    if alone {
        if i + 1 >= toks.len() {
            proof {
                assert(sv.len() < 2);
            }
            return None;
        }
        proof {
            assert(sv[1] == toks@[i as int + 1]@);
        }
        match parse_partial(toks[i + 1].as_slice()) {
            None => None,
            Some(pv) => match desugar(k, pv) {
                None => None,
                Some(mut cs) => {
                    proof {
                        assert(sv.skip(2) =~= toks_sv(toks@).skip(i as int + 2));
                    }
                    match clauses_from(toks, i + 2) {
                        None => None,
                        Some(mut more) => {
                            let ghost cs_snap = cs@;
                            let ghost more_snap = more@;
                            cs.append(&mut more);
                            proof {
                                assert(clauses_view(cs@) =~= clauses_view(cs_snap) + clauses_view(
                                    more_snap,
                                ));
                            }
                            Some(cs)
                        },
                    }
                },
            },
        }
    } else {
        match parse_partial(rest) {
            None => None,
            Some(pv) => match desugar(k, pv) {
                None => None,
                Some(mut cs) => {
                    proof {
                        assert(sv.drop_first() =~= toks_sv(toks@).skip(i as int + 1));
                    }
                    match clauses_from(toks, i + 1) {
                        None => None,
                        Some(mut more) => {
                            let ghost cs_snap = cs@;
                            let ghost more_snap = more@;
                            cs.append(&mut more);
                            proof {
                                assert(clauses_view(cs@) =~= clauses_view(cs_snap) + clauses_view(
                                    more_snap,
                                ));
                            }
                            Some(cs)
                        },
                    }
                },
            },
        }
    }
}

/// Parses one `||`-separated alternative.
pub fn parse_conj(part: &[u8]) -> (r: Option<Vec<Clause>>)
    ensures
        match r {
            Some(cs) => spec_parse_conj(part@) == Some(clauses_view(cs@)),
            None => spec_parse_conj(part@) is None,
        },
{
    let p = trim(part);
    if p.len() == 0 {
        let out: Vec<Clause> = Vec::new();
        proof {
            assert(clauses_view(out@) =~= Seq::<ClauseV>::empty());
        }
        return Some(out);
    }
    let pn = p.len();
    proof {
        crate::bytes::lemma_spec_find3(p@, 0x20, 0x2d, 0x20);
    }
    match find_triple(p.as_slice(), 0x20, 0x2d, 0x20) {
        Some(i) => {
            let lo_t = trim(vstd::slice::slice_subrange(p.as_slice(), 0, i));
            let hi_t = trim(vstd::slice::slice_subrange(p.as_slice(), i + 3, pn));
            match parse_partial(lo_t.as_slice()) {
                None => None,
                Some(lo) => match parse_partial(hi_t.as_slice()) {
                    None => None,
                    Some(hi) => {
                        let ghost lo_v = lo@;
                        let ghost hi_v = hi@;
                        let mut out: Vec<Clause> = Vec::new();
                        let lo_any = lo.major.is_none();
                        if !lo_any {
                            out.push(Clause { op: CmpOp::AtLeast, ver: fill_partial(lo) });
                        }
                        let hi_any = hi.major.is_none();
                        if !hi_any {
                            out.push(Clause { op: CmpOp::AtMost, ver: fill_partial(hi) });
                        }
                        proof {
                            assert(clauses_view(out@) =~= spec_hyphen_conj(lo_v, hi_v));
                        }
                        Some(out)
                    },
                },
            }
        },
        None => {
            let raw = split_byte(p.as_slice(), 0x20);
            let toks = nonempty_pieces(&raw);
            proof {
                assert(toks_sv(toks@).skip(0) =~= toks_sv(toks@));
                assert(raw@.map_values(|t: Vec<u8>| t@) =~= spec_split(p@, 0x20));
                assert(toks_sv(toks@) =~= spec_nonempty(spec_split(p@, 0x20)));
            }
            clauses_from(&toks, 0)
        },
    }
}

pub proof fn lemma_alts_char(parts: Seq<Seq<u8>>)
    ensures
        match spec_alts(parts) {
            Some(alts) => alts.len() == parts.len() && forall|i: int|
                0 <= i < parts.len() ==> spec_parse_conj(#[trigger] parts[i]) == Some(alts[i]),
            None => exists|i: int|
                0 <= i < parts.len() && spec_parse_conj(#[trigger] parts[i]) is None,
        },
    decreases parts.len(),
{
    if parts.len() > 0 {
        lemma_alts_char(parts.drop_first());
        match spec_parse_conj(parts[0]) {
            None => {},
            Some(c) => {
                match spec_alts(parts.drop_first()) {
                    None => {
                        let j = choose|i: int|
                            0 <= i < parts.drop_first().len() && spec_parse_conj(
                                #[trigger] parts.drop_first()[i],
                            ) is None;
                        assert(parts[j + 1] == parts.drop_first()[j]);
                    },
                    Some(rest) => {
                        let alts = spec_alts(parts).unwrap();
                        assert forall|i: int| 0 <= i < parts.len() implies spec_parse_conj(
                            #[trigger] parts[i],
                        ) == Some(alts[i]) by {
                            if i >= 1 {
                                assert(parts[i] == parts.drop_first()[i - 1]);
                                assert(alts[i] == rest[i - 1]);
                            }
                        }
                    },
                }
            },
        }
    }
}

/// Parses a complete requirement, preserving the written text.
pub fn parse_npm_version(text: &[u8]) -> (r: Result<VersionRequirement, ParseError>)
    ensures
        match r {
            Ok(q) => spec_parse_range(text@) == Some(q@.alts) && q@.text == text@,
            Err(_) => spec_parse_range(text@) is None,
        },
{
    let parts = split_on_pair(text, 0x7c, 0x7c);
    let ghost parts_s = spec_split2(text@, 0x7c, 0x7c);
    let mut alts: Vec<Vec<Clause>> = Vec::new();
    let mut i: usize = 0;
    while i < parts.len()
        invariant
            0 <= i <= parts@.len(),
            parts@.len() == parts_s.len(),
            parts_s == spec_split2(text@, 0x7c, 0x7c),
            forall|k: int| 0 <= k < parts@.len() ==> parts@[k]@ == #[trigger] parts_s[k],
            alts@.len() == i,
            forall|k: int|
                0 <= k < i ==> spec_parse_conj(parts_s[k]) == Some(
                    clauses_view(#[trigger] alts@[k]@),
                ),
        decreases parts@.len() - i,
    {
        match parse_conj(parts[i].as_slice()) {
            Some(cs) => {
                alts.push(cs);
            },
            None => {
                proof {
                    lemma_alts_char(parts_s);
                    assert(spec_parse_conj(parts_s[i as int]) is None);
                }
                return Err(ParseError {});
            },
        }
        i = i + 1;
    }
    proof {
        lemma_alts_char(parts_s);
        match spec_alts(parts_s) {
            Some(salts) => {
                assert(alts_view(alts@) =~= salts) by {
                    assert(forall|k: int|
                        0 <= k < salts.len() ==> Some(#[trigger] salts[k]) == spec_parse_conj(
                            parts_s[k],
                        ));
                }
            },
            None => {
                let j = choose|k: int|
                    0 <= k < parts_s.len() && spec_parse_conj(#[trigger] parts_s[k]) is None;
                assert(spec_parse_conj(parts_s[j]) == Some(clauses_view(alts@[j]@)));
            },
        }
    }
    Ok(VersionRequirement { text: crate::bytes::clone_bytes(text), alts })
}

/// What a requirement text denotes after the degrade rule: an unparseable
/// requirement falls back to `*`, the any-requirement; parsing never stops
/// an install.
pub open spec fn spec_req_or_any(t: Seq<u8>) -> RequirementV {
    match spec_parse_range(t) {
        Some(alts) => RequirementV { text: t, alts },
        None => RequirementV { text: seq![0x2au8], alts: seq![Seq::<ClauseV>::empty()] },
    }
}

/// Parses a requirement, substituting the any-requirement on failure.
pub fn req_or_any(text: &[u8]) -> (r: VersionRequirement)
    ensures
        r@ == spec_req_or_any(text@),
{
    match parse_npm_version(text) {
        Ok(q) => q,
        Err(_) => {
            let r = VersionRequirement::any();
            proof {
                assert(r@ =~= spec_req_or_any(text@));
            }
            r
        },
    }
}

// ------------------------------------------------------------------
// Executable matcher
// ------------------------------------------------------------------
fn clause_matches(c: &Clause, v: &Version) -> (r: bool)
    ensures
        r == spec_clause_matches(c@, v@),
{
    let cmp = version_cmp(v, &c.ver);
    match c.op {
        CmpOp::Exact => cmp == 0,
        CmpOp::Above => cmp > 0,
        CmpOp::AtLeast => cmp >= 0,
        CmpOp::Below => cmp < 0,
        CmpOp::AtMost => cmp <= 0,
    }
}

impl VersionRequirement {
    /// True when the version satisfies this requirement.
    pub fn matches(&self, v: &Version) -> (r: bool)
        ensures
            r == spec_alts_match(self@.alts, v@),
    {
        let mut i: usize = 0;
        while i < self.alts.len()
            invariant
                0 <= i <= self.alts@.len(),
                forall|k: int|
                    0 <= k < i ==> !spec_conj_matches(#[trigger] alts_view(self.alts@)[k], v@),
            decreases self.alts@.len() - i,
        {
            let conj = &self.alts[i];
            let mut j: usize = 0;
            let mut all = true;
            while j < conj.len()
                invariant
                    0 <= j <= conj@.len(),
                    all == forall|k: int|
                        0 <= k < j ==> spec_clause_matches(#[trigger] clauses_view(conj@)[k], v@),
                decreases conj@.len() - j,
            {
                let ghost before = all;
                let c_ok = clause_matches(&conj[j], v);
                if !c_ok {
                    all = false;
                }
                proof {
                    assert(clauses_view(conj@)[j as int] == conj@[j as int]@);
                    if before && c_ok {
                        assert forall|k: int| 0 <= k < j + 1 implies spec_clause_matches(
                            #[trigger] clauses_view(conj@)[k],
                            v@,
                        ) by {}
                    } else {
                        if !c_ok {
                            assert(!spec_clause_matches(clauses_view(conj@)[j as int], v@));
                        }
                    }
                }
                j = j + 1;
            }
            if all {
                proof {
                    assert(alts_view(self.alts@)[i as int] == clauses_view(self.alts@[i as int]@));
                    assert(spec_conj_matches(alts_view(self.alts@)[i as int], v@));
                }
                return true;
            }
            proof {
                assert(alts_view(self.alts@)[i as int] == clauses_view(self.alts@[i as int]@));
                let cs = clauses_view(self.alts@[i as int]@);
                let w = choose|k: int| 0 <= k < cs.len() && !spec_clause_matches(#[trigger] cs[k], v@);
            }
            i = i + 1;
        }
        false
    }

    /// The requirement that matches every version, written `*`.
    pub fn any() -> (r: VersionRequirement)
        ensures
            r@.alts == seq![Seq::<ClauseV>::empty()],
            r@.text == seq![0x2au8],
            forall|v: VersionV| spec_alts_match(r@.alts, v),
    {
        let mut text: Vec<u8> = Vec::new();
        text.push(0x2a);
        let mut alts: Vec<Vec<Clause>> = Vec::new();
        alts.push(Vec::new());
        let r = VersionRequirement { text, alts };
        proof {
            assert(r@.text =~= seq![0x2au8]);
            assert(alts_view(r.alts@)[0] =~= Seq::<ClauseV>::empty());
            assert(r@.alts =~= seq![Seq::<ClauseV>::empty()]);
            assert forall|v: VersionV| spec_alts_match(r@.alts, v) by {
                assert(spec_conj_matches(r@.alts[0], v));
            }
        }
        r
    }

    /// The original written form.
    pub fn display(&self) -> (r: Vec<u8>)
        ensures
            r@ == self@.text,
    {
        crate::bytes::clone_bytes(self.text.as_slice())
    }

    /// A structural copy.
    pub fn duplicate(&self) -> (r: VersionRequirement)
        ensures
            r@ == self@,
    {
        let text = crate::bytes::clone_bytes(self.text.as_slice());
        let mut alts: Vec<Vec<Clause>> = Vec::new();
        let mut i: usize = 0;
        while i < self.alts.len()
            invariant
                0 <= i <= self.alts@.len(),
                alts@.len() == i,
                forall|k: int|
                    0 <= k < i ==> clauses_view(#[trigger] alts@[k]@) == clauses_view(
                        self.alts@[k]@,
                    ),
            decreases self.alts@.len() - i,
        {
            let conj = &self.alts[i];
            let mut cs: Vec<Clause> = Vec::new();
            let mut j: usize = 0;
            while j < conj.len()
                invariant
                    0 <= j <= conj@.len(),
                    cs@.len() == j,
                    forall|k: int| 0 <= k < j ==> #[trigger] cs@[k]@ == conj@[k]@,
                decreases conj@.len() - j,
            {
                let c = &conj[j];
                cs.push(Clause { op: c.op, ver: c.ver.duplicate() });
                j = j + 1;
            }
            proof {
                assert(clauses_view(cs@) =~= clauses_view(conj@));
            }
            alts.push(cs);
            i = i + 1;
        }
        let r = VersionRequirement { text, alts };
        proof {
            assert(alts_view(r.alts@) =~= alts_view(self.alts@));
        }
        r
    }
}

} // verus!
