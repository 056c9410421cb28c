//! Concrete semver versions: `major.minor.patch` with optional pre-release
//! and build metadata, their grammar, and the semver 2.0.0 total order on
//! precedence (build metadata is ignored by the order).
use vstd::prelude::*;

use crate::bytes::{
    all_digits, all_ident_bytes, clone_bytes, dec_value, find_byte, is_digit_exec,
    is_ident_byte_exec, is_numeric_ident, parse_u64, spec_find, spec_split, split_byte,
};

verus! {

/// One pre-release identifier: numeric identifiers order numerically and
/// below every alphanumeric identifier.
pub enum PreId {
    Num(u64),
    Alpha(Vec<u8>),
}

pub enum PreIdV {
    Num(int),
    Alpha(Seq<u8>),
}

impl View for PreId {
    type V = PreIdV;

    open spec fn view(&self) -> PreIdV {
        match self {
            PreId::Num(n) => PreIdV::Num(*n as int),
            PreId::Alpha(s) => PreIdV::Alpha(s@),
        }
    }
}

pub struct Version {
    pub major: u64,
    pub minor: u64,
    pub patch: u64,
    pub pre: Vec<PreId>,
    pub build: Vec<Vec<u8>>,
}

pub struct VersionV {
    pub major: int,
    pub minor: int,
    pub patch: int,
    pub pre: Seq<PreIdV>,
    pub build: Seq<Seq<u8>>,
}

impl View for Version {
    type V = VersionV;

    open spec fn view(&self) -> VersionV {
        VersionV {
            major: self.major as int,
            minor: self.minor as int,
            patch: self.patch as int,
            pre: self.pre@.map_values(|p: PreId| p@),
            build: self.build@.map_values(|b: Vec<u8>| b@),
        }
    }
}

impl VersionV {
    /// A plain release version, used by the range desugarings.
    pub open spec fn plain(major: int, minor: int, patch: int) -> VersionV {
        VersionV { major, minor, patch, pre: Seq::empty(), build: Seq::empty() }
    }
}

/// What a single pre-release identifier denotes, if well formed.
pub open spec fn spec_pre_id(p: Seq<u8>) -> Option<PreIdV> {
    if is_numeric_ident(p) && dec_value(p) <= u64::MAX {
        Some(PreIdV::Num(dec_value(p)))
    } else if p.len() > 0 && all_ident_bytes(p) && !all_digits(p) {
        Some(PreIdV::Alpha(p))
    } else {
        None
    }
}

/// All pre-release identifiers of a dot-separated list, if each is well formed.
pub open spec fn spec_pre_ids(pieces: Seq<Seq<u8>>) -> Option<Seq<PreIdV>>
    decreases pieces.len(),
{
    if pieces.len() == 0 {
        Some(Seq::empty())
    } else {
        match spec_pre_id(pieces[0]) {
            None => None,
            Some(id) => match spec_pre_ids(pieces.drop_first()) {
                None => None,
                Some(rest) => Some(seq![id] + rest),
            },
        }
    }
}

/// A build identifier is any non-empty run of identifier characters.
pub open spec fn spec_build_id_ok(p: Seq<u8>) -> bool {
    p.len() > 0 && all_ident_bytes(p)
}

pub open spec fn spec_build_ids(pieces: Seq<Seq<u8>>) -> Option<Seq<Seq<u8>>>
    decreases pieces.len(),
{
    if pieces.len() == 0 {
        Some(Seq::empty())
    } else if !spec_build_id_ok(pieces[0]) {
        None
    } else {
        match spec_build_ids(pieces.drop_first()) {
            None => None,
            Some(rest) => Some(seq![pieces[0]] + rest),
        }
    }
}

/// A `major`/`minor`/`patch` component: digits without a leading zero,
/// denoting a value that fits in a `u64`.
pub open spec fn spec_num(p: Seq<u8>) -> Option<int> {
    if is_numeric_ident(p) && dec_value(p) <= u64::MAX {
        Some(dec_value(p))
    } else {
        None
    }
}

/// The version grammar: `major.minor.patch[-pre][+build]`.
pub open spec fn spec_parse_version(s: Seq<u8>) -> Option<VersionV> {
    let core_pre = match spec_find(s, 0x2b) {
        Some(i) => s.subrange(0, i),
        None => s,
    };
    let build_res = match spec_find(s, 0x2b) {
        Some(i) => spec_build_ids(spec_split(s.subrange(i + 1, s.len() as int), 0x2e)),
        None => Some(Seq::<Seq<u8>>::empty()),
    };
    let core = match spec_find(core_pre, 0x2d) {
        Some(j) => core_pre.subrange(0, j),
        None => core_pre,
    };
    let pre_res = match spec_find(core_pre, 0x2d) {
        Some(j) => spec_pre_ids(
            spec_split(core_pre.subrange(j + 1, core_pre.len() as int), 0x2e),
        ),
        None => Some(Seq::<PreIdV>::empty()),
    };
    let nums = spec_split(core, 0x2e);
    if nums.len() == 3 && spec_num(nums[0]) is Some && spec_num(nums[1]) is Some && spec_num(
        nums[2],
    ) is Some && pre_res is Some && build_res is Some && (spec_find(core_pre, 0x2d) is Some
        ==> pre_res.unwrap().len() > 0) && (spec_find(s, 0x2b) is Some ==> build_res.unwrap().len()
        > 0) {
        Some(
            VersionV {
                major: spec_num(nums[0]).unwrap(),
                minor: spec_num(nums[1]).unwrap(),
                patch: spec_num(nums[2]).unwrap(),
                pre: pre_res.unwrap(),
                build: build_res.unwrap(),
            },
        )
    } else {
        None
    }
}

pub proof fn lemma_pre_ids_char(pieces: Seq<Seq<u8>>)
    ensures
        match spec_pre_ids(pieces) {
            Some(ids) => ids.len() == pieces.len() && forall|i: int|
                0 <= i < pieces.len() ==> spec_pre_id(#[trigger] pieces[i]) == Some(ids[i]),
            None => exists|i: int|
                0 <= i < pieces.len() && spec_pre_id(#[trigger] pieces[i]) is None,
        },
    decreases pieces.len(),
{
    if pieces.len() > 0 {
        lemma_pre_ids_char(pieces.drop_first());
        match spec_pre_id(pieces[0]) {
            None => {},
            Some(id) => {
                match spec_pre_ids(pieces.drop_first()) {
                    None => {
                        let j = choose|i: int|
                            0 <= i < pieces.drop_first().len() && spec_pre_id(
                                #[trigger] pieces.drop_first()[i],
                            ) is None;
                        assert(pieces[j + 1] == pieces.drop_first()[j]);
                    },
                    Some(rest) => {
                        let ids = spec_pre_ids(pieces).unwrap();
                        assert forall|i: int| 0 <= i < pieces.len() implies spec_pre_id(
                            #[trigger] pieces[i],
                        ) == Some(ids[i]) by {
                            if i >= 1 {
                                assert(pieces[i] == pieces.drop_first()[i - 1]);
                                assert(ids[i] == rest[i - 1]);
                            }
                        }
                    },
                }
            },
        }
    }
}

pub proof fn lemma_build_ids_char(pieces: Seq<Seq<u8>>)
    ensures
        match spec_build_ids(pieces) {
            Some(ids) => ids == pieces && forall|i: int|
                0 <= i < pieces.len() ==> spec_build_id_ok(#[trigger] pieces[i]),
            None => exists|i: int|
                0 <= i < pieces.len() && !spec_build_id_ok(#[trigger] pieces[i]),
        },
    decreases pieces.len(),
{
    if pieces.len() > 0 {
        lemma_build_ids_char(pieces.drop_first());
        if spec_build_id_ok(pieces[0]) {
            match spec_build_ids(pieces.drop_first()) {
                None => {
                    let j = choose|i: int|
                        0 <= i < pieces.drop_first().len() && !spec_build_id_ok(
                            #[trigger] pieces.drop_first()[i],
                        );
                    assert(pieces[j + 1] == pieces.drop_first()[j]);
                },
                Some(rest) => {
                    assert(spec_build_ids(pieces).unwrap() =~= pieces);
                    assert forall|i: int| 0 <= i < pieces.len() implies spec_build_id_ok(
                        #[trigger] pieces[i],
                    ) by {
                        if i >= 1 {
                            assert(pieces[i] == pieces.drop_first()[i - 1]);
                        }
                    }
                },
            }
        }
    }
}

/// Classifies one pre-release identifier.
pub fn parse_pre_id(p: &[u8]) -> (r: Option<PreId>)
    ensures
        match r {
            Some(id) => spec_pre_id(p@) == Some(id@),
            None => spec_pre_id(p@) is None,
        },
{
    if p.len() == 0 {
        return None;
    }
    let mut digits = true;
    let mut idents = true;
    let mut i: usize = 0;
    while i < p.len()
        invariant
            0 <= i <= p@.len(),
            digits == all_digits(p@.subrange(0, i as int)),
            idents == all_ident_bytes(p@.subrange(0, i as int)),
        decreases p@.len() - i,
    {
        let b = p[i];
        let ghost pre = p@.subrange(0, i as int);
        let ghost pre2 = p@.subrange(0, i as int + 1);
        proof {
            assert(pre2 =~= pre.push(p@[i as int]));
            assert(forall|k: int| 0 <= k < pre2.len() - 1 ==> pre2[k] == #[trigger] pre[k]);
        }
        if !is_digit_exec(b) {
            digits = false;
        }
        if !is_ident_byte_exec(b) {
            idents = false;
        }
        proof {
            if digits {
                assert(all_digits(pre2)) by {
                    assert(forall|k: int| 0 <= k < pre2.len() - 1 ==> pre2[k] == #[trigger] pre[k]);
                }
            } else {
                if all_digits(pre2) {
                    assert(forall|k: int| 0 <= k < pre.len() ==> pre[k] == #[trigger] pre2[k]);
                    assert(is_digit(pre2[i as int]));
                }
            }
            if idents {
                assert(all_ident_bytes(pre2));
            } else {
                if all_ident_bytes(pre2) {
                    assert(forall|k: int| 0 <= k < pre.len() ==> pre[k] == #[trigger] pre2[k]);
                    assert(is_ident_byte(pre2[i as int]));
                }
            }
        }
        i = i + 1;
    }
    proof {
        assert(p@.subrange(0, p@.len() as int) =~= p@);
    }
    if digits {
        if p.len() > 1 && p[0] == 0x30 {
            proof {
                assert(!is_numeric_ident(p@));
            }
            return None;
        }
        match parse_u64(p) {
            Some(v) => Some(PreId::Num(v)),
            None => None,
        }
    } else if idents {
        Some(PreId::Alpha(clone_bytes(p)))
    } else {
        None
    }
}

use crate::bytes::is_digit;
use crate::bytes::is_ident_byte;

/// Parses a dot-separated pre-release list.
pub fn parse_pre_list(part: &[u8]) -> (r: Option<Vec<PreId>>)
    ensures
        match r {
            Some(ids) => spec_pre_ids(spec_split(part@, 0x2e)) == Some(
                ids@.map_values(|p: PreId| p@),
            ),
            None => spec_pre_ids(spec_split(part@, 0x2e)) is None,
        },
{
    let pieces = split_byte(part, 0x2e);
    proof {
        lemma_pre_ids_char(spec_split(part@, 0x2e));
    }
    let mut out: Vec<PreId> = Vec::new();
    let mut i: usize = 0;
    while i < pieces.len()
        invariant
            0 <= i <= pieces@.len(),
            pieces@.len() == spec_split(part@, 0x2e).len(),
            forall|k: int|
                0 <= k < pieces@.len() ==> pieces@[k]@ == #[trigger] spec_split(part@, 0x2e)[k],
            out@.len() == i,
            forall|k: int|
                0 <= k < i ==> spec_pre_id(spec_split(part@, 0x2e)[k]) == Some(
                    #[trigger] out@[k]@,
                ),
        decreases pieces@.len() - i,
    {
        match parse_pre_id(pieces[i].as_slice()) {
            Some(id) => {
                out.push(id);
            },
            None => {
                proof {
                    lemma_pre_ids_char(spec_split(part@, 0x2e));
                    assert(spec_pre_id(spec_split(part@, 0x2e)[i as int]) is None);
                }
                return None;
            },
        }
        i = i + 1;
    }
    proof {
        let pieces_s = spec_split(part@, 0x2e);
        match spec_pre_ids(pieces_s) {
            Some(ids) => {
                assert(out@.map_values(|p: PreId| p@) =~= ids) by {
                    assert(forall|k: int|
                        0 <= k < ids.len() ==> Some(#[trigger] ids[k]) == spec_pre_id(pieces_s[k]));
                }
            },
            None => {
                let j = choose|k: int|
                    0 <= k < pieces_s.len() && spec_pre_id(#[trigger] pieces_s[k]) is None;
                assert(spec_pre_id(pieces_s[j]) == Some(out@[j]@));
            },
        }
    }
    Some(out)
}

/// Parses a dot-separated build-metadata list.
pub fn parse_build_list(part: &[u8]) -> (r: Option<Vec<Vec<u8>>>)
    ensures
        match r {
            Some(ids) => spec_build_ids(spec_split(part@, 0x2e)) == Some(
                ids@.map_values(|b: Vec<u8>| b@),
            ),
            None => spec_build_ids(spec_split(part@, 0x2e)) is None,
        },
{
    let pieces = split_byte(part, 0x2e);
    proof {
        lemma_build_ids_char(spec_split(part@, 0x2e));
    }
    let mut out: Vec<Vec<u8>> = Vec::new();
    let mut i: usize = 0;
    while i < pieces.len()
        invariant
            0 <= i <= pieces@.len(),
            pieces@.len() == spec_split(part@, 0x2e).len(),
            forall|k: int|
                0 <= k < pieces@.len() ==> pieces@[k]@ == #[trigger] spec_split(part@, 0x2e)[k],
            out@.len() == i,
            forall|k: int| 0 <= k < i ==> #[trigger] out@[k]@ == spec_split(part@, 0x2e)[k],
            forall|k: int| 0 <= k < i ==> spec_build_id_ok(#[trigger] spec_split(part@, 0x2e)[k]),
        decreases pieces@.len() - i,
    {
        let piece = pieces[i].as_slice();
        if piece.len() == 0 {
            proof {
                lemma_build_ids_char(spec_split(part@, 0x2e));
                assert(!spec_build_id_ok(spec_split(part@, 0x2e)[i as int]));
            }
            return None;
        }
        let mut ok = true;
        let mut j: usize = 0;
        while j < piece.len()
            invariant
                0 <= j <= piece@.len(),
                ok == all_ident_bytes(piece@.subrange(0, j as int)),
            decreases piece@.len() - j,
        {
            let ghost pre = piece@.subrange(0, j as int);
            let ghost pre2 = piece@.subrange(0, j as int + 1);
            proof {
                assert(pre2 =~= pre.push(piece@[j as int]));
            }
            if !is_ident_byte_exec(piece[j]) {
                ok = false;
            }
            proof {
                if ok {
                    assert(all_ident_bytes(pre2));
                } else {
                    if all_ident_bytes(pre2) {
                        assert(forall|k: int| 0 <= k < pre.len() ==> pre[k] == #[trigger] pre2[k]);
                        assert(is_ident_byte(pre2[j as int]));
                    }
                }
            }
            j = j + 1;
        }
        proof {
            assert(piece@.subrange(0, piece@.len() as int) =~= piece@);
        }
        if !ok {
            proof {
                lemma_build_ids_char(spec_split(part@, 0x2e));
                assert(!spec_build_id_ok(spec_split(part@, 0x2e)[i as int]));
            }
            return None;
        }
        out.push(clone_bytes(piece));
        i = i + 1;
    }
    proof {
        let pieces_s = spec_split(part@, 0x2e);
        match spec_build_ids(pieces_s) {
            Some(ids) => {
                assert(out@.map_values(|b: Vec<u8>| b@) =~= ids);
            },
            None => {
                let j = choose|k: int|
                    0 <= k < pieces_s.len() && !spec_build_id_ok(#[trigger] pieces_s[k]);
            },
        }
    }
    Some(out)
}

/// Parses one `major`/`minor`/`patch` component.
pub fn parse_component(p: &[u8]) -> (r: Option<u64>)
    ensures
        match r {
            Some(v) => spec_num(p@) == Some(v as int),
            None => spec_num(p@) is None,
        },
{
    if p.len() == 0 {
        return None;
    }
    if p.len() > 1 && p[0] == 0x30 {
        proof {
            assert(!is_numeric_ident(p@));
        }
        return None;
    }
    parse_u64(p)
}

/// Parses a complete version string.
pub fn parse_version(s: &[u8]) -> (r: Option<Version>)
    ensures
        match r {
            Some(v) => spec_parse_version(s@) == Some(v@),
            None => spec_parse_version(s@) is None,
        },
{
    proof {
        crate::bytes::lemma_spec_find(s@, 0x2b);
    }
    let n = s.len();
    let (core_pre, build): (&[u8], Option<Vec<Vec<u8>>>) = match find_byte(s, 0x2b) {
        Some(i) => {
            let head = vstd::slice::slice_subrange(s, 0, i);
            let tail = vstd::slice::slice_subrange(s, i + 1, n);
            match parse_build_list(tail) {
                Some(ids) => {
                    if ids.len() == 0 {
                        return None;
                    }
                    (head, Some(ids))
                },
                None => {
                    return None;
                },
            }
        },
        None => (s, None),
    };
    proof {
        crate::bytes::lemma_spec_find(core_pre@, 0x2d);
    }
    let m = core_pre.len();
    let (core, pre): (&[u8], Option<Vec<PreId>>) = match find_byte(core_pre, 0x2d) {
        Some(j) => {
            let head = vstd::slice::slice_subrange(core_pre, 0, j);
            let tail = vstd::slice::slice_subrange(core_pre, j + 1, m);
            match parse_pre_list(tail) {
                Some(ids) => {
                    if ids.len() == 0 {
                        proof {
                            let pre_s = spec_pre_ids(
                                spec_split(
                                    core_pre@.subrange(j + 1, core_pre@.len() as int),
                                    0x2e,
                                ),
                            );
                            assert(pre_s.unwrap().len() == 0);
                        }
                        return None;
                    }
                    (head, Some(ids))
                },
                None => {
                    return None;
                },
            }
        },
        None => (core_pre, None),
    };
    let nums = split_byte(core, 0x2e);
    proof {
        crate::bytes::lemma_spec_split_len(core@, 0x2e);
    }
    if nums.len() != 3 {
        return None;
    }
    let major = match parse_component(nums[0].as_slice()) {
        Some(v) => v,
        None => {
            return None;
        },
    };
    let minor = match parse_component(nums[1].as_slice()) {
        Some(v) => v,
        None => {
            return None;
        },
    };
    let patch = match parse_component(nums[2].as_slice()) {
        Some(v) => v,
        None => {
            return None;
        },
    };
    let pre_v: Vec<PreId> = match pre {
        Some(ids) => ids,
        None => Vec::new(),
    };
    let build_v: Vec<Vec<u8>> = match build {
        Some(ids) => ids,
        None => Vec::new(),
    };
    let out = Version { major, minor, patch, pre: pre_v, build: build_v };
    proof {
        let spec_v = spec_parse_version(s@).unwrap();
        assert(out@.pre =~= spec_v.pre);
        assert(out@.build =~= spec_v.build);
    }
    Some(out)
}

/// Three-way order on pre-release identifiers: numeric before alphanumeric,
/// numerics by value, alphanumerics in ASCII order.
pub open spec fn spec_pre_id_cmp(a: PreIdV, b: PreIdV) -> int {
    match (a, b) {
        (PreIdV::Num(x), PreIdV::Num(y)) => if x < y {
            -1
        } else if x > y {
            1
        } else {
            0
        },
        (PreIdV::Num(_), PreIdV::Alpha(_)) => -1,
        (PreIdV::Alpha(_), PreIdV::Num(_)) => 1,
        (PreIdV::Alpha(x), PreIdV::Alpha(y)) => spec_lex_cmp(x, y),
    }
}

pub open spec fn spec_lex_cmp(a: Seq<u8>, b: Seq<u8>) -> int
    decreases a.len(),
{
    if a.len() == 0 && b.len() == 0 {
        0
    } else if a.len() == 0 {
        -1
    } else if b.len() == 0 {
        1
    } else if a[0] < b[0] {
        -1
    } else if a[0] > b[0] {
        1
    } else {
        spec_lex_cmp(a.drop_first(), b.drop_first())
    }
}

/// Pre-release lists compare identifier by identifier; a strict prefix
/// orders first.
pub open spec fn spec_pre_cmp(a: Seq<PreIdV>, b: Seq<PreIdV>) -> int
    decreases a.len(),
{
    if a.len() == 0 && b.len() == 0 {
        0
    } else if a.len() == 0 {
        -1
    } else if b.len() == 0 {
        1
    } else if spec_pre_id_cmp(a[0], b[0]) != 0 {
        spec_pre_id_cmp(a[0], b[0])
    } else {
        spec_pre_cmp(a.drop_first(), b.drop_first())
    }
}

/// The semver precedence order. A version with a pre-release list orders
/// before the same release without one; build metadata never matters.
pub open spec fn spec_version_cmp(a: VersionV, b: VersionV) -> int {
    if a.major != b.major {
        if a.major < b.major {
            -1
        } else {
            1
        }
    } else if a.minor != b.minor {
        if a.minor < b.minor {
            -1
        } else {
            1
        }
    } else if a.patch != b.patch {
        if a.patch < b.patch {
            -1
        } else {
            1
        }
    } else if a.pre.len() == 0 && b.pre.len() == 0 {
        0
    } else if a.pre.len() == 0 {
        1
    } else if b.pre.len() == 0 {
        -1
    } else {
        spec_pre_cmp(a.pre, b.pre)
    }
}

pub open spec fn version_le(a: VersionV, b: VersionV) -> bool {
    spec_version_cmp(a, b) <= 0
}

pub open spec fn version_lt(a: VersionV, b: VersionV) -> bool {
    spec_version_cmp(a, b) < 0
}

pub open spec fn version_eq(a: VersionV, b: VersionV) -> bool {
    spec_version_cmp(a, b) == 0
}

fn lex_cmp_from(a: &[u8], b: &[u8], i: usize) -> (r: i8)
    requires
        i <= a@.len(),
        i <= b@.len(),
    ensures
        r as int == spec_lex_cmp(a@.skip(i as int), b@.skip(i as int)),
    decreases a@.len() - i,
{
    let ghost sa = a@.skip(i as int);
    let ghost sb = b@.skip(i as int);
    if i == a.len() && i == b.len() {
        0
    } else if i == a.len() {
        -1
    } else if i == b.len() {
        1
    } else {
        proof {
            assert(sa[0] == a@[i as int]);
            assert(sb[0] == b@[i as int]);
        }
        if a[i] < b[i] {
            -1
        } else if a[i] > b[i] {
            1
        } else {
            proof {
                assert(sa.drop_first() =~= a@.skip(i as int + 1));
                assert(sb.drop_first() =~= b@.skip(i as int + 1));
            }
            lex_cmp_from(a, b, i + 1)
        }
    }
}

pub fn lex_cmp(a: &[u8], b: &[u8]) -> (r: i8)
    ensures
        r as int == spec_lex_cmp(a@, b@),
{
    proof {
        assert(a@.skip(0) =~= a@);
        assert(b@.skip(0) =~= b@);
    }
    lex_cmp_from(a, b, 0)
}

fn pre_id_cmp(a: &PreId, b: &PreId) -> (r: i8)
    ensures
        r as int == spec_pre_id_cmp(a@, b@),
{
    match (a, b) {
        (PreId::Num(x), PreId::Num(y)) => {
            if x < y {
                -1
            } else if x > y {
                1
            } else {
                0
            }
        },
        (PreId::Num(_), PreId::Alpha(_)) => -1,
        (PreId::Alpha(_), PreId::Num(_)) => 1,
        (PreId::Alpha(x), PreId::Alpha(y)) => lex_cmp(x.as_slice(), y.as_slice()),
    }
}

fn pre_cmp_from(a: &Vec<PreId>, b: &Vec<PreId>, i: usize) -> (r: i8)
    requires
        i <= a@.len(),
        i <= b@.len(),
    ensures
        r as int == spec_pre_cmp(
            a@.map_values(|p: PreId| p@).skip(i as int),
            b@.map_values(|p: PreId| p@).skip(i as int),
        ),
    decreases a@.len() - i,
{
    let ghost sa = a@.map_values(|p: PreId| p@).skip(i as int);
    let ghost sb = b@.map_values(|p: PreId| p@).skip(i as int);
    if i == a.len() && i == b.len() {
        0
    } else if i == a.len() {
        -1
    } else if i == b.len() {
        1
    } else {
        proof {
            assert(sa[0] == a@[i as int]@);
            assert(sb[0] == b@[i as int]@);
        }
        let c = pre_id_cmp(&a[i], &b[i]);
        if c != 0 {
            c
        } else {
            proof {
                assert(sa.drop_first() =~= a@.map_values(|p: PreId| p@).skip(i as int + 1));
                assert(sb.drop_first() =~= b@.map_values(|p: PreId| p@).skip(i as int + 1));
            }
            pre_cmp_from(a, b, i + 1)
        }
    }
}

/// Three-way semver precedence comparison.
pub fn version_cmp(a: &Version, b: &Version) -> (r: i8)
    ensures
        r as int == spec_version_cmp(a@, b@),
{
    if a.major != b.major {
        if a.major < b.major {
            -1
        } else {
            1
        }
    } else if a.minor != b.minor {
        if a.minor < b.minor {
            -1
        } else {
            1
        }
    } else if a.patch != b.patch {
        if a.patch < b.patch {
            -1
        } else {
            1
        }
    } else if a.pre.len() == 0 && b.pre.len() == 0 {
        0
    } else if a.pre.len() == 0 {
        proof {
            assert(a@.pre.len() == 0);
            assert(b@.pre.len() != 0);
        }
        1
    } else if b.pre.len() == 0 {
        -1
    } else {
        proof {
            assert(a@.pre.skip(0) =~= a@.pre);
            assert(b@.pre.skip(0) =~= b@.pre);
        }
        pre_cmp_from(&a.pre, &b.pre, 0)
    }
}

impl Version {
    /// A structural copy.
    pub fn duplicate(&self) -> (r: Version)
        ensures
            r@ == self@,
    {
        let mut pre: Vec<PreId> = Vec::new();
        let mut i: usize = 0;
        while i < self.pre.len()
            invariant
                0 <= i <= self.pre@.len(),
                pre@.len() == i,
                forall|k: int| 0 <= k < i ==> #[trigger] pre@[k]@ == self.pre@[k]@,
            decreases self.pre@.len() - i,
        {
            let id = match &self.pre[i] {
                PreId::Num(v) => PreId::Num(*v),
                PreId::Alpha(s) => PreId::Alpha(clone_bytes(s.as_slice())),
            };
            pre.push(id);
            i = i + 1;
        }
        let mut build: Vec<Vec<u8>> = Vec::new();
        let mut j: usize = 0;
        while j < self.build.len()
            invariant
                0 <= j <= self.build@.len(),
                build@.len() == j,
                forall|k: int| 0 <= k < j ==> #[trigger] build@[k]@ == self.build@[k]@,
            decreases self.build@.len() - j,
        {
            build.push(clone_bytes(self.build[j].as_slice()));
            j = j + 1;
        }
        let r = Version { major: self.major, minor: self.minor, patch: self.patch, pre, build };
        proof {
            assert(r@.pre =~= self@.pre);
            assert(r@.build =~= self@.build);
        }
        r
    }
}

/// Decimal digits of a non-negative number, most significant first.
pub open spec fn dec_digits(n: int) -> Seq<u8>
    decreases n,
{
    if n < 10 {
        seq![(0x30 + if n >= 0 { n } else { 0 }) as u8]
    } else {
        dec_digits(n / 10).push((0x30 + n % 10) as u8)
    }
}

pub fn u64_dec(n: u64) -> (r: Vec<u8>)
    ensures
        r@ == dec_digits(n as int),
    decreases n,
{
    if n < 10 {
        let mut v: Vec<u8> = Vec::new();
        v.push(0x30 + n as u8);
        proof {
            assert(v@ =~= dec_digits(n as int));
        }
        v
    } else {
        let mut v = u64_dec(n / 10);
        v.push(0x30 + (n % 10) as u8);
        v
    }
}

/// The canonical text of a version: pre-release and build lists re-joined
/// with their separators.
pub open spec fn spec_render_pre_id(p: PreIdV) -> Seq<u8> {
    match p {
        PreIdV::Num(n) => dec_digits(n),
        PreIdV::Alpha(s) => s,
    }
}

pub open spec fn spec_join_rendered(parts: Seq<Seq<u8>>, sep: u8) -> Seq<u8>
    decreases parts.len(),
{
    if parts.len() == 0 {
        Seq::empty()
    } else if parts.len() == 1 {
        parts[0]
    } else {
        parts[0] + seq![sep] + spec_join_rendered(parts.drop_first(), sep)
    }
}

pub open spec fn spec_render_version(v: VersionV) -> Seq<u8> {
    dec_digits(v.major) + seq![0x2eu8] + dec_digits(v.minor) + seq![0x2eu8] + dec_digits(v.patch)
        + (if v.pre.len() > 0 {
        seq![0x2du8] + spec_join_rendered(v.pre.map_values(|p: PreIdV| spec_render_pre_id(p)), 0x2e)
    } else {
        Seq::empty()
    }) + (if v.build.len() > 0 {
        seq![0x2bu8] + spec_join_rendered(v.build, 0x2e)
    } else {
        Seq::empty()
    })
}

fn render_pre_id(p: &PreId) -> (r: Vec<u8>)
    ensures
        r@ == spec_render_pre_id(p@),
{
    match p {
        PreId::Num(n) => u64_dec(*n),
        PreId::Alpha(s) => clone_bytes(s.as_slice()),
    }
}

/// Renders `major.minor.patch[-pre][+build]`.
pub fn render_version(v: &Version) -> (r: Vec<u8>)
    ensures
        r@ == spec_render_version(v@),
{
    let mut out = u64_dec(v.major);
    out.push(0x2e);
    let minor = u64_dec(v.minor);
    crate::bytes::extend_bytes(&mut out, minor.as_slice());
    out.push(0x2e);
    let patch = u64_dec(v.patch);
    crate::bytes::extend_bytes(&mut out, patch.as_slice());
    proof {
        assert(out@ =~= dec_digits(v@.major) + seq![0x2eu8] + dec_digits(v@.minor) + seq![0x2eu8]
            + dec_digits(v@.patch));
    }
    if v.pre.len() > 0 {
        out.push(0x2d);
        let mut i: usize = 0;
        let ghost rendered = v@.pre.map_values(|p: PreIdV| spec_render_pre_id(p));
        let ghost base = out@;
        while i < v.pre.len()
            invariant
                0 < i <= v.pre@.len() || i == 0,
                i <= v.pre@.len(),
                rendered == v@.pre.map_values(|p: PreIdV| spec_render_pre_id(p)),
                rendered.len() == v.pre@.len(),
                i == 0 ==> out@ == base,
                i > 0 ==> out@ == base + spec_join_rendered(rendered.take(i as int), 0x2e),
            decreases v.pre@.len() - i,
        {
            if i > 0 {
                out.push(0x2e);
            }
            let piece = render_pre_id(&v.pre[i]);
            crate::bytes::extend_bytes(&mut out, piece.as_slice());
            proof {
                assert(rendered[i as int] == spec_render_pre_id(v.pre@[i as int]@));
                if i == 0 {
                    assert(rendered.take(1)[0] == rendered[0]);
                    assert(spec_join_rendered(rendered.take(1), 0x2e) == rendered[0]);
                    assert(out@ =~= base + spec_join_rendered(rendered.take(1), 0x2e));
                } else {
                    lemma_join_rendered_snoc(rendered, i as int, 0x2e);
                    assert(out@ =~= base + spec_join_rendered(rendered.take(i as int + 1), 0x2e));
                }
            }
            i = i + 1;
        }
        proof {
            assert(rendered.take(rendered.len() as int) =~= rendered);
        }
    }
    if v.build.len() > 0 {
        out.push(0x2b);
        let mut i: usize = 0;
        let ghost rendered = v@.build;
        let ghost base = out@;
        while i < v.build.len()
            invariant
                i <= v.build@.len(),
                rendered == v@.build,
                rendered.len() == v.build@.len(),
                i == 0 ==> out@ == base,
                i > 0 ==> out@ == base + spec_join_rendered(rendered.take(i as int), 0x2e),
            decreases v.build@.len() - i,
        {
            if i > 0 {
                out.push(0x2e);
            }
            crate::bytes::extend_bytes(&mut out, v.build[i].as_slice());
            proof {
                assert(rendered[i as int] == v.build@[i as int]@);
                if i == 0 {
                    assert(rendered.take(1)[0] == rendered[0]);
                    assert(spec_join_rendered(rendered.take(1), 0x2e) == rendered[0]);
                    assert(out@ =~= base + spec_join_rendered(rendered.take(1), 0x2e));
                } else {
                    lemma_join_rendered_snoc(rendered, i as int, 0x2e);
                    assert(out@ =~= base + spec_join_rendered(rendered.take(i as int + 1), 0x2e));
                }
            }
            i = i + 1;
        }
        proof {
            assert(rendered.take(rendered.len() as int) =~= rendered);
        }
    }
    proof {
        assert(out@ =~= spec_render_version(v@));
    }
    out
}

/// Appending one more piece extends the joined text by a separator and
/// that piece.
proof fn lemma_join_rendered_snoc(parts: Seq<Seq<u8>>, i: int, sep: u8)
    requires
        1 <= i < parts.len(),
    ensures
        spec_join_rendered(parts.take(i + 1), sep) == spec_join_rendered(parts.take(i), sep)
            + seq![sep] + parts[i],
    decreases i,
{
    let a = parts.take(i + 1);
    let b = parts.take(i);
    if i == 1 {
        assert(a.len() == 2);
        assert(a[0] == parts[0]);
        assert(a.drop_first() =~= seq![parts[1]]);
        assert(spec_join_rendered(a.drop_first(), sep) == parts[1]);
        assert(b =~= seq![parts[0]]);
        assert(spec_join_rendered(a, sep) =~= spec_join_rendered(b, sep) + seq![sep] + parts[1]);
    } else {
        lemma_join_rendered_snoc(parts.drop_first(), i - 1, sep);
        assert(a.drop_first() =~= parts.drop_first().take(i));
        assert(b.drop_first() =~= parts.drop_first().take(i - 1));
        assert(a[0] == parts[0]);
        assert(b[0] == parts[0]);
        assert(parts.drop_first()[i - 1] == parts[i]);
        assert(spec_join_rendered(a, sep) == a[0] + seq![sep] + spec_join_rendered(
            a.drop_first(),
            sep,
        ));
        assert(spec_join_rendered(b, sep) == b[0] + seq![sep] + spec_join_rendered(
            b.drop_first(),
            sep,
        ));
        assert(spec_join_rendered(a, sep) =~= spec_join_rendered(b, sep) + seq![sep] + parts[i]);
    }
}


// ------------------------------------------------------------------
// The precedence order is total
// ------------------------------------------------------------------
/// Every key compares equal to itself.
pub proof fn lemma_lex_cmp_refl(a: Seq<u8>)
    ensures
        spec_lex_cmp(a, a) == 0,
    decreases a.len(),
{
    if a.len() > 0 {
        lemma_lex_cmp_refl(a.drop_first());
    }
}

/// The byte order is antisymmetric as a three-way comparison.
pub proof fn lemma_lex_cmp_flip(a: Seq<u8>, b: Seq<u8>)
    ensures
        spec_lex_cmp(a, b) == -spec_lex_cmp(b, a),
    decreases a.len() + b.len(),
{
    if a.len() > 0 && b.len() > 0 && a[0] == b[0] {
        lemma_lex_cmp_flip(a.drop_first(), b.drop_first());
    }
}

/// The byte order is transitive.
pub proof fn lemma_lex_cmp_trans(a: Seq<u8>, b: Seq<u8>, c: Seq<u8>)
    requires
        spec_lex_cmp(a, b) <= 0,
        spec_lex_cmp(b, c) <= 0,
    ensures
        spec_lex_cmp(a, c) <= 0,
    decreases a.len() + b.len() + c.len(),
{
    if a.len() > 0 && b.len() > 0 && c.len() > 0 && a[0] == b[0] && b[0] == c[0] {
        lemma_lex_cmp_trans(a.drop_first(), b.drop_first(), c.drop_first());
    }
}

/// Byte strings that compare equal are equal.
pub proof fn lemma_lex_cmp_eq(a: Seq<u8>, b: Seq<u8>)
    requires
        spec_lex_cmp(a, b) == 0,
    ensures
        a == b,
    decreases a.len(),
{
    if a.len() > 0 && b.len() > 0 && a[0] == b[0] {
        lemma_lex_cmp_eq(a.drop_first(), b.drop_first());
        assert(a =~= seq![a[0]] + a.drop_first());
        assert(b =~= seq![b[0]] + b.drop_first());
    }
}

/// Pre-release identifiers that compare equal are equal.
pub proof fn lemma_pre_id_cmp_eq(a: PreIdV, b: PreIdV)
    requires
        spec_pre_id_cmp(a, b) == 0,
    ensures
        a == b,
{
    match (a, b) {
        (PreIdV::Alpha(x), PreIdV::Alpha(y)) => {
            lemma_lex_cmp_eq(x, y);
        },
        _ => {},
    }
}

/// The identifier order is transitive.
pub proof fn lemma_pre_id_cmp_trans(a: PreIdV, b: PreIdV, c: PreIdV)
    requires
        spec_pre_id_cmp(a, b) <= 0,
        spec_pre_id_cmp(b, c) <= 0,
    ensures
        spec_pre_id_cmp(a, c) <= 0,
{
    match (a, b, c) {
        (PreIdV::Alpha(x), PreIdV::Alpha(y), PreIdV::Alpha(z)) => {
            lemma_lex_cmp_trans(x, y, z);
        },
        _ => {},
    }
}

/// Pre-release lists that compare equal are equal.
pub proof fn lemma_pre_cmp_eq(a: Seq<PreIdV>, b: Seq<PreIdV>)
    requires
        spec_pre_cmp(a, b) == 0,
    ensures
        a == b,
    decreases a.len(),
{
    if a.len() > 0 && b.len() > 0 {
        if spec_pre_id_cmp(a[0], b[0]) == 0 {
            lemma_pre_id_cmp_eq(a[0], b[0]);
            lemma_pre_cmp_eq(a.drop_first(), b.drop_first());
            assert(a =~= seq![a[0]] + a.drop_first());
            assert(b =~= seq![b[0]] + b.drop_first());
        }
    }
}

/// The pre-release list order is transitive.
pub proof fn lemma_pre_cmp_trans(a: Seq<PreIdV>, b: Seq<PreIdV>, c: Seq<PreIdV>)
    requires
        spec_pre_cmp(a, b) <= 0,
        spec_pre_cmp(b, c) <= 0,
    ensures
        spec_pre_cmp(a, c) <= 0,
    decreases a.len() + b.len() + c.len(),
{
    if a.len() == 0 {
        if c.len() == 0 {
        } else {
        }
    } else if b.len() == 0 {
    } else if c.len() == 0 {
        if spec_pre_id_cmp(b[0], c[0]) == 0 {
        }
    } else {
        let ab = spec_pre_id_cmp(a[0], b[0]);
        let bc = spec_pre_id_cmp(b[0], c[0]);
        if ab == 0 && bc == 0 {
            lemma_pre_id_cmp_eq(a[0], b[0]);
            lemma_pre_id_cmp_eq(b[0], c[0]);
            lemma_pre_cmp_trans(a.drop_first(), b.drop_first(), c.drop_first());
            lemma_pre_id_cmp_refl_local(a[0]);
        } else if ab == 0 {
            lemma_pre_id_cmp_eq(a[0], b[0]);
        } else if bc == 0 {
            lemma_pre_id_cmp_eq(b[0], c[0]);
        } else {
            lemma_pre_id_cmp_trans(a[0], b[0], c[0]);
            if spec_pre_id_cmp(a[0], c[0]) == 0 {
                lemma_pre_id_cmp_eq(a[0], c[0]);
                lemma_pre_id_cmp_flip_local(a[0], b[0]);
                lemma_pre_id_cmp_flip_local(b[0], c[0]);
                lemma_pre_id_cmp_eq(c[0], b[0]);
            }
        }
    }
}

proof fn lemma_pre_id_cmp_refl_local(a: PreIdV)
    ensures
        spec_pre_id_cmp(a, a) == 0,
{
    match a {
        PreIdV::Alpha(x) => {
            lemma_lex_cmp_refl(x);
        },
        _ => {},
    }
}

proof fn lemma_pre_id_cmp_flip_local(a: PreIdV, b: PreIdV)
    ensures
        spec_pre_id_cmp(a, b) == -spec_pre_id_cmp(b, a),
{
    match (a, b) {
        (PreIdV::Alpha(x), PreIdV::Alpha(y)) => {
            lemma_lex_cmp_flip(x, y);
        },
        _ => {},
    }
}

/// Versions compare equal to themselves.
pub proof fn lemma_version_cmp_refl(a: VersionV)
    ensures
        spec_version_cmp(a, a) == 0,
    decreases a.pre.len(),
{
    if a.pre.len() > 0 {
        lemma_pre_cmp_refl(a.pre);
    }
}

proof fn lemma_pre_cmp_refl(a: Seq<PreIdV>)
    ensures
        spec_pre_cmp(a, a) == 0,
    decreases a.len(),
{
    if a.len() > 0 {
        lemma_pre_id_cmp_refl_local(a[0]);
        lemma_pre_cmp_refl(a.drop_first());
    }
}

/// The precedence order is transitive.
pub proof fn lemma_version_cmp_trans(a: VersionV, b: VersionV, c: VersionV)
    requires
        spec_version_cmp(a, b) <= 0,
        spec_version_cmp(b, c) <= 0,
    ensures
        spec_version_cmp(a, c) <= 0,
{
    if a.major == b.major && b.major == c.major && a.minor == b.minor && b.minor == c.minor
        && a.patch == b.patch && b.patch == c.patch {
        if a.pre.len() > 0 && b.pre.len() > 0 && c.pre.len() > 0 {
            lemma_pre_cmp_trans(a.pre, b.pre, c.pre);
        }
    }
}


proof fn lemma_pre_cmp_flip(a: Seq<PreIdV>, b: Seq<PreIdV>)
    ensures
        spec_pre_cmp(a, b) == -spec_pre_cmp(b, a),
    decreases a.len() + b.len(),
{
    if a.len() > 0 && b.len() > 0 {
        lemma_pre_id_cmp_flip_local(a[0], b[0]);
        if spec_pre_id_cmp(a[0], b[0]) == 0 {
            lemma_pre_cmp_flip(a.drop_first(), b.drop_first());
        }
    }
}

/// The precedence order is antisymmetric as a three-way comparison.
pub proof fn lemma_version_cmp_flip(a: VersionV, b: VersionV)
    ensures
        spec_version_cmp(a, b) == -spec_version_cmp(b, a),
{
    if a.major == b.major && a.minor == b.minor && a.patch == b.patch && a.pre.len() > 0
        && b.pre.len() > 0 {
        lemma_pre_cmp_flip(a.pre, b.pre);
    }
}

} // verus!
