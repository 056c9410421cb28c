//! Breadth-first dependency resolution. The resolver is a state machine:
//! `next_work` hands out the next package whose metadata is needed, the
//! caller fetches that metadata (or a lockfile/workspace answer) and hands
//! back a `PackageInfo` through `commit`; `take_packages` closes the graph.
//!
//! Invariants carried throughout: at most one accepted package per name,
//! and every accepted package at depth `d > 0` is a dependency of some
//! accepted package at depth `d - 1`.
use vstd::prelude::*;

use crate::bytes::{bytes_eq, clone_bytes, extend_bytes};
use crate::package::{info_has_dep, DepEntry, PackageInfo, ResolvedPackage};
use crate::range::{spec_alts_match, RequirementV, VersionRequirement};
use crate::version::{Version, VersionV};

verus! {

/// One queued unit of work: resolve `name` under `req` at graph depth
/// `depth`; `optional` marks items reached through an optional edge.
pub struct WorkItem {
    pub name: Vec<u8>,
    pub req: VersionRequirement,
    pub depth: usize,
    pub optional: bool,
}

/// The ghost image of one work item.
pub struct WorkItemV {
    pub name: Seq<u8>,
    pub req: RequirementV,
    pub depth: int,
    pub optional: bool,
}

impl View for WorkItem {
    type V = WorkItemV;

    open spec fn view(&self) -> WorkItemV {
        WorkItemV {
            name: self.name@,
            req: self.req@,
            depth: self.depth as int,
            optional: self.optional,
        }
    }
}

pub open spec fn queue_view(q: Seq<WorkItem>) -> Seq<WorkItemV> {
    q.map_values(|w: WorkItem| w@)
}

/// A suppressed requirement, kept for the operator.
pub struct ConflictRecord {
    pub name: Vec<u8>,
    pub req_text: Vec<u8>,
    pub committed: Version,
}

/// The ghost image of one conflict record.
pub struct ConflictV {
    pub name: Seq<u8>,
    pub req_text: Seq<u8>,
    pub committed: VersionV,
}

impl View for ConflictRecord {
    type V = ConflictV;

    open spec fn view(&self) -> ConflictV {
        ConflictV { name: self.name@, req_text: self.req_text@, committed: self.committed@ }
    }
}

pub open spec fn conflicts_view(cs: Seq<ConflictRecord>) -> Seq<ConflictV> {
    cs.map_values(|c: ConflictRecord| c@)
}

impl ConflictRecord {
    /// `Version conflict for <name>: <req> vs <committed>`.
    pub fn render(&self) -> (r: Vec<u8>)
        ensures
            r@ == seq![
                0x56u8, 0x65, 0x72, 0x73, 0x69, 0x6f, 0x6e, 0x20, 0x63, 0x6f, 0x6e, 0x66, 0x6c,
                0x69, 0x63, 0x74, 0x20, 0x66, 0x6f, 0x72, 0x20,
            ] + self.name@ + seq![0x3au8, 0x20] + self.req_text@ + seq![0x20u8, 0x76, 0x73, 0x20]
                + crate::version::spec_render_version(self.committed@),
    {
        let mut out: Vec<u8> = Vec::new();
        out.push(0x56);
        out.push(0x65);
        out.push(0x72);
        out.push(0x73);
        out.push(0x69);
        out.push(0x6f);
        out.push(0x6e);
        out.push(0x20);
        out.push(0x63);
        out.push(0x6f);
        out.push(0x6e);
        out.push(0x66);
        out.push(0x6c);
        out.push(0x69);
        out.push(0x63);
        out.push(0x74);
        out.push(0x20);
        out.push(0x66);
        out.push(0x6f);
        out.push(0x72);
        out.push(0x20);
        let ghost head = out@;
        proof {
            assert(head =~= seq![
                0x56u8, 0x65, 0x72, 0x73, 0x69, 0x6f, 0x6e, 0x20, 0x63, 0x6f, 0x6e, 0x66, 0x6c,
                0x69, 0x63, 0x74, 0x20, 0x66, 0x6f, 0x72, 0x20,
            ]);
        }
        extend_bytes(&mut out, self.name.as_slice());
        out.push(0x3a);
        out.push(0x20);
        extend_bytes(&mut out, self.req_text.as_slice());
        out.push(0x20);
        out.push(0x76);
        out.push(0x73);
        out.push(0x20);
        let rendered = crate::version::render_version(&self.committed);
        extend_bytes(&mut out, rendered.as_slice());
        proof {
            assert(out@ =~= head + self.name@ + seq![0x3au8, 0x20] + self.req_text@ + seq![
                0x20u8,
                0x76,
                0x73,
                0x20,
            ] + crate::version::spec_render_version(self.committed@));
        }
        out
    }
}

/// Some accepted package already carries this name.
pub open spec fn spec_committed(acc: Seq<ResolvedPackage>, name: Seq<u8>) -> bool {
    exists|i: int| 0 <= i < acc.len() && (#[trigger] acc[i]).info.name@ == name
}

/// The first accepted index carrying `name`.
pub open spec fn acc_index_of(acc: Seq<ResolvedPackage>, name: Seq<u8>) -> int
    decreases acc.len(),
{
    if acc.len() == 0 {
        0
    } else if acc[0].info.name@ == name {
        0
    } else {
        1 + acc_index_of(acc.drop_first(), name)
    }
}

/// The version committed for `name`.
pub open spec fn committed_version(acc: Seq<ResolvedPackage>, name: Seq<u8>) -> VersionV {
    acc[acc_index_of(acc, name)].info.version@
}

/// With unique names, any index carrying `name` is the first one.
proof fn lemma_acc_index_unique(acc: Seq<ResolvedPackage>, name: Seq<u8>, i: int)
    requires
        unique_names(acc),
        0 <= i < acc.len(),
        acc[i].info.name@ == name,
    ensures
        acc_index_of(acc, name) == i,
    decreases acc.len(),
{
    if acc[0].info.name@ == name {
        if i != 0 {
            assert(acc[0].info.name@ != acc[i].info.name@);
        }
    } else {
        let rest = acc.drop_first();
        assert(rest[i - 1] == acc[i]);
        assert(unique_names(rest)) by {
            assert forall|a: int, b: int| 0 <= a < b < rest.len() implies (
            #[trigger] rest[a]).info.name@ != (#[trigger] rest[b]).info.name@ by {
                assert(rest[a] == acc[a + 1]);
                assert(rest[b] == acc[b + 1]);
            }
        }
        lemma_acc_index_unique(rest, name, i - 1);
    }
}

/// What draining one queued item against `acc` appends to the conflict
/// log: one record when its name is committed at a refused version.
pub open spec fn one_conflict(acc: Seq<ResolvedPackage>, w: WorkItem) -> Seq<ConflictV> {
    if spec_committed(acc, w.name@) && !spec_alts_match(
        w.req@.alts,
        committed_version(acc, w.name@),
    ) {
        seq![
            ConflictV {
                name: w.name@,
                req_text: w.req@.text,
                committed: committed_version(acc, w.name@),
            },
        ]
    } else {
        Seq::<ConflictV>::empty()
    }
}

/// The conflict records that draining `items` against `acc` appends, in
/// queue order.
pub open spec fn skip_conflicts(acc: Seq<ResolvedPackage>, items: Seq<WorkItem>) -> Seq<ConflictV>
    decreases items.len(),
{
    if items.len() == 0 {
        Seq::<ConflictV>::empty()
    } else {
        one_conflict(acc, items[0]) + skip_conflicts(acc, items.drop_first())
    }
}

proof fn lemma_skip_conflicts_push(acc: Seq<ResolvedPackage>, items: Seq<WorkItem>, x: WorkItem)
    ensures
        skip_conflicts(acc, items.push(x)) == skip_conflicts(acc, items) + one_conflict(acc, x),
    decreases items.len(),
{
    if items.len() == 0 {
        assert(items.push(x)[0] == x);
        assert(items.push(x).drop_first() =~= items);
        assert(skip_conflicts(acc, items.push(x)) =~= skip_conflicts(acc, items) + one_conflict(
            acc,
            x,
        ));
    } else {
        assert(items.push(x)[0] == items[0]);
        assert(items.push(x).drop_first() =~= items.drop_first().push(x));
        lemma_skip_conflicts_push(acc, items.drop_first(), x);
        assert(skip_conflicts(acc, items.push(x)) =~= skip_conflicts(acc, items) + one_conflict(
            acc,
            x,
        ));
    }
}

/// The dependency edges of a package as ghost work items one level deeper:
/// regular, then peer, then optional edges, the optional ones marked.
pub open spec fn edge_items(info: PackageInfo, depth: int) -> Seq<WorkItemV> {
    info.dependencies@.map_values(
        |e: DepEntry| WorkItemV { name: e.name@, req: e.req@, depth: depth + 1, optional: false },
    ) + info.peer_dependencies@.map_values(
        |e: DepEntry| WorkItemV { name: e.name@, req: e.req@, depth: depth + 1, optional: false },
    ) + info.optional_dependencies@.map_values(
        |e: DepEntry| WorkItemV { name: e.name@, req: e.req@, depth: depth + 1, optional: true },
    )
}

/// Some accepted package at depth `d` depends on `name`.
pub open spec fn has_parent_in(acc: Seq<ResolvedPackage>, name: Seq<u8>, d: int) -> bool {
    exists|j: int|
        0 <= j < acc.len() && (#[trigger] acc[j]).depth == d && info_has_dep(acc[j].info, name)
}

/// At most one package per name: the flat-layout invariant.
pub open spec fn unique_names(acc: Seq<ResolvedPackage>) -> bool {
    forall|i: int, j: int|
        0 <= i < j < acc.len() ==> (#[trigger] acc[i]).info.name@ != (#[trigger] acc[j]).info.name@
}

/// Every package at depth `d > 0` is required by one at depth `d - 1`.
pub open spec fn parents_ok(acc: Seq<ResolvedPackage>) -> bool {
    forall|i: int|
        0 <= i < acc.len() && (#[trigger] acc[i]).depth > 0 ==> has_parent_in(
            acc,
            acc[i].info.name@,
            acc[i].depth - 1,
        )
}

/// Like `parents_ok`, but with the parent found in a reference sequence.
pub open spec fn parents_ok_in(acc: Seq<ResolvedPackage>, base: Seq<ResolvedPackage>) -> bool {
    forall|i: int|
        0 <= i < acc.len() && (#[trigger] acc[i]).depth > 0 ==> has_parent_in(
            base,
            acc[i].info.name@,
            acc[i].depth - 1,
        )
}

pub open spec fn sorted_by_depth(acc: Seq<ResolvedPackage>) -> bool {
    forall|i: int, j: int|
        0 <= i < j < acc.len() ==> (#[trigger] acc[i]).depth <= (#[trigger] acc[j]).depth
}

/// `x` occurs in `base`.
pub open spec fn elem_in(x: ResolvedPackage, base: Seq<ResolvedPackage>) -> bool {
    exists|q: int| 0 <= q < base.len() && #[trigger] base[q] == x
}

/// Every element of `a` is an element of `base`.
#[verifier::opaque]
pub open spec fn from_base(a: Seq<ResolvedPackage>, base: Seq<ResolvedPackage>) -> bool {
    forall|p: int| 0 <= p < a.len() ==> elem_in(#[trigger] a[p], base)
}

/// Every element of `base` occurs in `a`.
#[verifier::opaque]
pub open spec fn covers(a: Seq<ResolvedPackage>, base: Seq<ResolvedPackage>) -> bool {
    forall|q: int| 0 <= q < base.len() ==> elem_in(#[trigger] base[q], a)
}

/// At the start of the extraction, everything sits untouched in `rem`.
proof fn lemma_take_init(out0: Seq<ResolvedPackage>, rem0: Seq<ResolvedPackage>, orig: Seq<ResolvedPackage>)
    requires
        out0.len() == 0,
        rem0 == orig,
    ensures
        covers(out0 + rem0, orig),
        from_base(out0, orig),
        from_base(rem0, orig),
    {
    reveal(covers);
    reveal(from_base);
    assert(out0 + rem0 =~= orig);
    assert forall|q: int| 0 <= q < orig.len() implies elem_in(#[trigger] orig[q], out0 + rem0) by {
        assert((out0 + rem0)[q] == orig[q]);
    }
    assert forall|p: int| 0 <= p < rem0.len() implies elem_in(#[trigger] rem0[p], orig) by {
        assert(orig[p] == rem0[p]);
    }
}

/// Moving the minimum-depth element of `rem0` to the end of `out0`
/// preserves the selection-sort invariants.
#[verifier::rlimit(100)]
#[verifier::spinoff_prover]
proof fn lemma_extract_step(
    out0: Seq<ResolvedPackage>,
    rem0: Seq<ResolvedPackage>,
    orig: Seq<ResolvedPackage>,
    m: int,
    out2: Seq<ResolvedPackage>,
    rem2: Seq<ResolvedPackage>,
)
    requires
        0 <= m < rem0.len(),
        out2 == out0.push(rem0[m]),
        rem2 == rem0.remove(m),
        out0.len() + rem0.len() == orig.len(),
        unique_names(out0 + rem0),
        parents_ok_in(out0 + rem0, orig),
        covers(out0 + rem0, orig),
        from_base(out0, orig),
        from_base(rem0, orig),
        sorted_by_depth(out0),
        forall|a: int, b: int|
            0 <= a < out0.len() && 0 <= b < rem0.len() ==> (#[trigger] out0[a]).depth <= (
            #[trigger] rem0[b]).depth,
        forall|t: int| 0 <= t < rem0.len() ==> (#[trigger] rem0[t]).depth >= rem0[m].depth,
    ensures
        out2.len() + rem2.len() == orig.len(),
        unique_names(out2 + rem2),
        parents_ok_in(out2 + rem2, orig),
        covers(out2 + rem2, orig),
        from_base(out2, orig),
        from_base(rem2, orig),
        sorted_by_depth(out2),
        forall|a: int, b: int|
            0 <= a < out2.len() && 0 <= b < rem2.len() ==> (#[trigger] out2[a]).depth <= (
            #[trigger] rem2[b]).depth,
{
    let c = out0 + rem0;
    let c2 = out2 + rem2;
    let ol = out0.len() as int;
    assert(c2.len() == c.len());
    assert(forall|p: int| 0 <= p < ol ==> #[trigger] c2[p] == c[p]);
    assert(c2[ol] == c[ol + m]);
    assert(forall|p: int| ol < p <= ol + m ==> #[trigger] c2[p] == c[p - 1]);
    assert(forall|p: int| ol + m < p < c.len() ==> #[trigger] c2[p] == c[p]);
    assert(unique_names(c2)) by {
        assert forall|i: int, j: int| 0 <= i < j < c2.len() implies (#[trigger] c2[i]).info.name@
            != (#[trigger] c2[j]).info.name@ by {
            let fi: int = if i < ol {
                i
            } else if i == ol {
                ol + m
            } else if i <= ol + m {
                i - 1
            } else {
                i
            };
            let fj: int = if j < ol {
                j
            } else if j == ol {
                ol + m
            } else if j <= ol + m {
                j - 1
            } else {
                j
            };
            assert(c2[i] == c[fi]);
            assert(c2[j] == c[fj]);
            assert(fi != fj);
            if fi < fj {
                assert(c[fi].info.name@ != c[fj].info.name@);
            } else {
                assert(c[fj].info.name@ != c[fi].info.name@);
            }
        }
    }
    assert(parents_ok_in(c2, orig)) by {
        assert forall|i: int|
            0 <= i < c2.len() && (#[trigger] c2[i]).depth > 0 implies has_parent_in(
            orig,
            c2[i].info.name@,
            c2[i].depth - 1,
        ) by {
            let fi: int = if i < ol {
                i
            } else if i == ol {
                ol + m
            } else if i <= ol + m {
                i - 1
            } else {
                i
            };
            assert(c2[i] == c[fi]);
        }
    }
    reveal(covers);
    reveal(from_base);
    assert forall|q: int| 0 <= q < orig.len() implies elem_in(#[trigger] orig[q], c2) by {
        assert(elem_in(orig[q], c));
        let p = choose|p: int| 0 <= p < c.len() && #[trigger] c[p] == orig[q];
        let p2: int = if p < ol {
            p
        } else if p == ol + m {
            ol
        } else if p < ol + m {
            p + 1
        } else {
            p
        };
        assert(c2[p2] == c[p]);
    }
    assert forall|p: int| 0 <= p < out2.len() implies elem_in(#[trigger] out2[p], orig) by {
        if p < ol {
            assert(out2[p] == out0[p]);
            assert(elem_in(out0[p], orig));
        } else {
            assert(out2[p] == rem0[m]);
            assert(elem_in(rem0[m], orig));
        }
    }
    assert forall|p: int| 0 <= p < rem2.len() implies elem_in(#[trigger] rem2[p], orig) by {
        if p < m {
            assert(rem2[p] == rem0[p]);
            assert(elem_in(rem0[p], orig));
        } else {
            assert(rem2[p] == rem0[p + 1]);
            assert(elem_in(rem0[p + 1], orig));
        }
    }
    assert(sorted_by_depth(out2)) by {
        assert forall|a: int, b: int| 0 <= a < b < out2.len() implies (#[trigger] out2[a]).depth
            <= (#[trigger] out2[b]).depth by {
            if b == out2.len() - 1 {
                assert(out2[a] == out0[a]);
                assert(out2[b] == rem0[m]);
            } else {
                assert(out2[a] == out0[a]);
                assert(out2[b] == out0[b]);
            }
        }
    }
    assert forall|a: int, b: int|
        0 <= a < out2.len() && 0 <= b < rem2.len() implies (#[trigger] out2[a]).depth <= (
    #[trigger] rem2[b]).depth by {
        let rb = if b < m {
            rem0[b]
        } else {
            rem0[b + 1]
        };
        assert(rem2[b] == rb);
        if a < ol {
            assert(out2[a] == out0[a]);
            assert(out0[a].depth <= rb.depth);
        } else {
            assert(out2[a] == rem0[m]);
            assert(rem0[m].depth <= rb.depth);
        }
    }
}

/// The first index of minimal depth.
pub open spec fn first_min_index(s: Seq<ResolvedPackage>) -> int
    decreases s.len(),
{
    if s.len() <= 1 {
        0
    } else {
        let t = 1 + first_min_index(s.drop_first());
        if 0 <= t < s.len() && s[0].depth <= s[t].depth {
            0
        } else {
            t
        }
    }
}

proof fn lemma_first_min_in_range(s: Seq<ResolvedPackage>)
    requires
        s.len() > 0,
    ensures
        0 <= first_min_index(s) < s.len(),
    decreases s.len(),
{
    if s.len() > 1 {
        lemma_first_min_in_range(s.drop_first());
    }
}

/// The index holding the minimum depth, strictly below everything before
/// it, is the first minimal index.
proof fn lemma_first_min_char(s: Seq<ResolvedPackage>, m: int)
    requires
        0 <= m < s.len(),
        forall|t: int| 0 <= t < s.len() ==> (#[trigger] s[t]).depth >= s[m].depth,
        forall|t: int| 0 <= t < m ==> (#[trigger] s[t]).depth > s[m].depth,
    ensures
        first_min_index(s) == m,
    decreases s.len(),
{
    if s.len() > 1 {
        let rest = s.drop_first();
        lemma_first_min_in_range(rest);
        let t = 1 + first_min_index(rest);
        assert(rest[t - 1] == s[t]);
        if m == 0 {
            assert(s[t].depth >= s[0].depth);
        } else {
            assert forall|u: int| 0 <= u < rest.len() implies (#[trigger] rest[u]).depth >= rest[m
                - 1].depth by {
                assert(rest[u] == s[u + 1]);
                assert(rest[m - 1] == s[m]);
            }
            assert forall|u: int| 0 <= u < m - 1 implies (#[trigger] rest[u]).depth > rest[m
                - 1].depth by {
                assert(rest[u] == s[u + 1]);
                assert(rest[m - 1] == s[m]);
            }
            lemma_first_min_char(rest, m - 1);
            assert(s[0].depth > s[m].depth);
            assert(t == m);
        }
    }
}

/// The packages in ascending depth, ties keeping their given order: the
/// stable sort the extraction below performs.
pub open spec fn spec_by_depth(s: Seq<ResolvedPackage>) -> Seq<ResolvedPackage>
    decreases s.len(),
    via spec_by_depth_decreases
{
    if s.len() == 0 {
        Seq::<ResolvedPackage>::empty()
    } else {
        let m = first_min_index(s);
        seq![s[m]] + spec_by_depth(s.remove(m))
    }
}

#[via_fn]
proof fn spec_by_depth_decreases(s: Seq<ResolvedPackage>) {
    if s.len() > 0 {
        lemma_first_min_in_range(s);
    }
}

/// A non-empty set whose members all have parents one level up reaches
/// depth zero.
proof fn lemma_depth_zero_exists(acc: Seq<ResolvedPackage>, i: int)
    requires
        parents_ok(acc),
        0 <= i < acc.len(),
    ensures
        exists|j: int| 0 <= j < acc.len() && (#[trigger] acc[j]).depth == 0,
    decreases acc[i].depth,
{
    if acc[i].depth == 0 {
        assert(0 <= i < acc.len() && acc[i].depth == 0);
    } else {
        assert(has_parent_in(acc, acc[i].info.name@, acc[i].depth - 1));
        let j = choose|j: int|
            0 <= j < acc.len() && (#[trigger] acc[j]).depth == acc[i].depth - 1 && info_has_dep(
                acc[j].info,
                acc[i].info.name@,
            );
        lemma_depth_zero_exists(acc, j);
    }
}

pub struct DependencyResolver {
    pub root: Vec<u8>,
    pub queue: Vec<WorkItem>,
    pub accepted: Vec<ResolvedPackage>,
    pub conflicts: Vec<ConflictRecord>,
}

impl DependencyResolver {
    /// The resolver's invariant: one package per name, every deeper package
    /// and queued item has a parent one level up, and depth zero belongs to
    /// the root name alone.
    pub open spec fn wf(self) -> bool {
        unique_names(self.accepted@) && parents_ok(self.accepted@) && (forall|i: int|
            0 <= i < self.queue@.len() && (#[trigger] self.queue@[i]).depth > 0 ==> has_parent_in(
                self.accepted@,
                self.queue@[i].name@,
                self.queue@[i].depth - 1,
            )) && (forall|i: int|
            0 <= i < self.accepted@.len() && (#[trigger] self.accepted@[i]).depth == 0
                ==> self.accepted@[i].info.name@ == self.root@) && (forall|i: int|
            0 <= i < self.queue@.len() && (#[trigger] self.queue@[i]).depth == 0
                ==> self.queue@[i].name@ == self.root@)
    }

    /// Starts a resolution at `(root, any requirement, depth 0)`.
    pub fn new(root: &[u8]) -> (r: DependencyResolver)
        ensures
            r.wf(),
            r.root@ == root@,
            r.accepted@.len() == 0,
            r.conflicts@.len() == 0,
            r.queue@.len() == 1,
            r.queue@[0].name@ == root@,
            r.queue@[0].depth == 0,
            !r.queue@[0].optional,
            forall|v: VersionV| spec_alts_match(r.queue@[0].req@.alts, v),
    {
        let mut queue: Vec<WorkItem> = Vec::new();
        queue.push(
            WorkItem {
                name: clone_bytes(root),
                req: VersionRequirement::any(),
                depth: 0,
                optional: false,
            },
        );
        DependencyResolver {
            root: clone_bytes(root),
            queue,
            accepted: Vec::new(),
            conflicts: Vec::new(),
        }
    }

    /// The committed version and depth for a name, if any.
    fn find_accepted(acc: &Vec<ResolvedPackage>, name: &[u8]) -> (r: Option<usize>)
        ensures
            match r {
                Some(i) => i < acc@.len() && acc@[i as int].info.name@ == name@,
                None => !spec_committed(acc@, name@),
            },
    {
        let mut i: usize = 0;
        while i < acc.len()
            invariant
                0 <= i <= acc@.len(),
                forall|k: int| 0 <= k < i ==> (#[trigger] acc@[k]).info.name@ != name@,
            decreases acc@.len() - i,
        {
            if bytes_eq(acc[i].info.name.as_slice(), name) {
                return Some(i);
            }
            i = i + 1;
        }
        None
    }

    /// Pops queued items until one needs metadata. The returned item is the
    /// first queued item whose name is uncommitted; every item before it
    /// was skipped because its name was committed, and each skipped item
    /// whose requirement refuses the committed version appends exactly one
    /// conflict record, in queue order. `None` comes only once every queued
    /// item was so disposed of.
    pub fn next_work(&mut self) -> (r: Option<WorkItem>)
        requires
            old(self).wf(),
        ensures
            final(self).wf(),
            final(self).accepted == old(self).accepted,
            final(self).root == old(self).root,
            match r {
                Some(item) => {
                    &&& exists|j: int|
                        0 <= j < old(self).queue@.len() && item == old(self).queue@[j]
                            && final(self).queue@ == old(self).queue@.skip(j + 1) && (forall|t: int|
                            0 <= t < j ==> spec_committed(
                                old(self).accepted@,
                                (#[trigger] old(self).queue@[t]).name@,
                            )) && conflicts_view(final(self).conflicts@) == conflicts_view(
                            old(self).conflicts@,
                        ) + skip_conflicts(old(self).accepted@, old(self).queue@.take(j))
                    &&& !spec_committed(final(self).accepted@, item.name@)
                    &&& (item.depth > 0 ==> has_parent_in(
                        final(self).accepted@,
                        item.name@,
                        item.depth as int - 1,
                    ))
                    &&& (item.depth == 0 ==> item.name@ == old(self).root@)
                },
                None => {
                    &&& final(self).queue@.len() == 0
                    &&& (forall|t: int|
                        0 <= t < old(self).queue@.len() ==> spec_committed(
                            old(self).accepted@,
                            (#[trigger] old(self).queue@[t]).name@,
                        ))
                    &&& conflicts_view(final(self).conflicts@) == conflicts_view(
                        old(self).conflicts@,
                    ) + skip_conflicts(old(self).accepted@, old(self).queue@)
                },
            },
    {
        let ghost q0 = old(self).queue@;
        let ghost c0 = old(self).conflicts@;
        let ghost acc = old(self).accepted@;
        let ghost mut consumed: int = 0;
        proof {
            assert(self.queue@ =~= q0.skip(0));
            assert(q0.take(0) =~= Seq::<WorkItem>::empty());
            assert(conflicts_view(self.conflicts@) =~= conflicts_view(c0) + skip_conflicts(
                acc,
                q0.take(0),
            ));
        }
        while self.queue.len() > 0
            invariant
                self.wf(),
                self.accepted == old(self).accepted,
                self.root == old(self).root,
                acc == old(self).accepted@,
                c0 == old(self).conflicts@,
                q0 == old(self).queue@,
                0 <= consumed <= q0.len(),
                self.queue@ == q0.skip(consumed),
                forall|t: int| 0 <= t < consumed ==> spec_committed(acc, (#[trigger] q0[t]).name@),
                conflicts_view(self.conflicts@) == conflicts_view(c0) + skip_conflicts(
                    acc,
                    q0.take(consumed),
                ),
            decreases self.queue@.len(),
        {
            let item = self.queue.remove(0);
            let ghost gitem = item;
            proof {
                assert(q0.skip(consumed)[0] == q0[consumed]);
                assert(gitem == q0[consumed]);
                assert(self.queue@ =~= q0.skip(consumed + 1));
            }
            match Self::find_accepted(&self.accepted, item.name.as_slice()) {
                None => {
                    proof {
                        assert(!spec_committed(acc, gitem.name@));
                        let j = consumed;
                        assert(0 <= j < q0.len());
                        assert(gitem == q0[j]);
                        assert(self.queue@ == q0.skip(j + 1));
                        assert(conflicts_view(self.conflicts@) == conflicts_view(c0)
                            + skip_conflicts(acc, q0.take(j)));
                        assert(gitem.depth > 0 ==> has_parent_in(
                            acc,
                            gitem.name@,
                            gitem.depth as int - 1,
                        )) by {
                            if gitem.depth > 0 {
                                assert(q0.skip(consumed)[0] == gitem);
                            }
                        }
                        assert(gitem.depth == 0 ==> gitem.name@ == old(self).root@) by {
                            if gitem.depth == 0 {
                                assert(q0.skip(consumed)[0] == gitem);
                            }
                        }
                    }
                    return Some(item);
                },
                Some(idx) => {
                    proof {
                        lemma_acc_index_unique(acc, gitem.name@, idx as int);
                        assert(spec_committed(acc, gitem.name@));
                        assert(committed_version(acc, gitem.name@) == acc[idx as int].info.version@);
                    }
                    let matches = item.req.matches(&self.accepted[idx].info.version);
                    if !matches {
                        let committed = self.accepted[idx].info.version.duplicate();
                        let ghost cpre = self.conflicts@;
                        self.conflicts.push(
                            ConflictRecord {
                                name: item.name,
                                req_text: item.req.text,
                                committed,
                            },
                        );
                        proof {
                            assert(self.conflicts@.last()@ == ConflictV {
                                name: gitem.name@,
                                req_text: gitem.req@.text,
                                committed: committed_version(acc, gitem.name@),
                            });
                            assert(one_conflict(acc, gitem) == seq![self.conflicts@.last()@]);
                            assert(conflicts_view(self.conflicts@) =~= conflicts_view(cpre)
                                + one_conflict(acc, gitem));
                        }
                    } else {
                        proof {
                            assert(one_conflict(acc, gitem) =~= Seq::<ConflictV>::empty());
                            assert(conflicts_view(self.conflicts@) =~= conflicts_view(
                                self.conflicts@,
                            ) + one_conflict(acc, gitem));
                        }
                    }
                    proof {
                        assert(q0.take(consumed + 1) =~= q0.take(consumed).push(q0[consumed]));
                        lemma_skip_conflicts_push(acc, q0.take(consumed), q0[consumed]);
                        assert(conflicts_view(self.conflicts@) =~= conflicts_view(c0)
                            + skip_conflicts(acc, q0.take(consumed + 1)));
                        consumed = consumed + 1;
                    }
                },
            }
        }
        proof {
            assert(consumed == q0.len());
            assert(q0.take(consumed) =~= q0);
        }
        None
    }

    /// The dependency edges of `info` as queue items at `depth + 1`:
    /// regular and peer edges first, then optional edges marked optional.
    fn gather_work(info: &PackageInfo, depth: usize) -> (r: Vec<WorkItem>)
        requires
            depth < usize::MAX,
        ensures
            queue_view(r@) == edge_items(*info, depth as int),
            forall|k: int|
                0 <= k < r@.len() ==> (#[trigger] r@[k]).depth == depth + 1 && info_has_dep(
                    *info,
                    r@[k].name@,
                ),
    {
        let ghost total = edge_items(*info, depth as int);
        let mut out: Vec<WorkItem> = Vec::new();
        let mut i: usize = 0;
        while i < info.dependencies.len()
            invariant
                0 <= i <= info.dependencies@.len(),
                depth < usize::MAX,
                total == edge_items(*info, depth as int),
                out@.len() == i,
                forall|k: int| 0 <= k < out@.len() ==> (#[trigger] out@[k])@ == total[k],
                forall|k: int|
                    0 <= k < out@.len() ==> (#[trigger] out@[k]).depth == depth + 1 && info_has_dep(
                        *info,
                        out@[k].name@,
                    ),
            decreases info.dependencies@.len() - i,
        {
            let e = info.dependencies[i].duplicate();
            proof {
                assert(info.dependencies@[i as int].name@ == e.name@);
                assert(total[i as int] == WorkItemV {
                    name: info.dependencies@[i as int].name@,
                    req: info.dependencies@[i as int].req@,
                    depth: depth as int + 1,
                    optional: false,
                });
            }
            out.push(WorkItem { name: e.name, req: e.req, depth: depth + 1, optional: false });
            i = i + 1;
        }
        let mut j: usize = 0;
        while j < info.peer_dependencies.len()
            invariant
                0 <= j <= info.peer_dependencies@.len(),
                depth < usize::MAX,
                total == edge_items(*info, depth as int),
                out@.len() == info.dependencies@.len() + j,
                forall|k: int| 0 <= k < out@.len() ==> (#[trigger] out@[k])@ == total[k],
                forall|k: int|
                    0 <= k < out@.len() ==> (#[trigger] out@[k]).depth == depth + 1 && info_has_dep(
                        *info,
                        out@[k].name@,
                    ),
            decreases info.peer_dependencies@.len() - j,
        {
            let e = info.peer_dependencies[j].duplicate();
            proof {
                assert(info.peer_dependencies@[j as int].name@ == e.name@);
                let k = info.dependencies@.len() + j;
                assert(total[k as int] == WorkItemV {
                    name: info.peer_dependencies@[j as int].name@,
                    req: info.peer_dependencies@[j as int].req@,
                    depth: depth as int + 1,
                    optional: false,
                });
            }
            out.push(WorkItem { name: e.name, req: e.req, depth: depth + 1, optional: false });
            j = j + 1;
        }
        let mut k: usize = 0;
        while k < info.optional_dependencies.len()
            invariant
                0 <= k <= info.optional_dependencies@.len(),
                depth < usize::MAX,
                total == edge_items(*info, depth as int),
                out@.len() == info.dependencies@.len() + info.peer_dependencies@.len() + k,
                forall|k2: int| 0 <= k2 < out@.len() ==> (#[trigger] out@[k2])@ == total[k2],
                forall|k2: int|
                    0 <= k2 < out@.len() ==> (#[trigger] out@[k2]).depth == depth + 1
                        && info_has_dep(*info, out@[k2].name@),
            decreases info.optional_dependencies@.len() - k,
        {
            let e = info.optional_dependencies[k].duplicate();
            proof {
                assert(info.optional_dependencies@[k as int].name@ == e.name@);
                let k2 = info.dependencies@.len() + info.peer_dependencies@.len() + k;
                assert(total[k2 as int] == WorkItemV {
                    name: info.optional_dependencies@[k as int].name@,
                    req: info.optional_dependencies@[k as int].req@,
                    depth: depth as int + 1,
                    optional: true,
                });
            }
            out.push(WorkItem { name: e.name, req: e.req, depth: depth + 1, optional: true });
            k = k + 1;
        }
        proof {
            assert(queue_view(out@) =~= total);
        }
        out
    }

    /// Accepts a package for a work item handed out by `next_work` and
    /// enqueues its dependency edges one level deeper: the queue grows by
    /// exactly the package's regular, peer and optional edges at
    /// `depth + 1`, in that order, the optional ones marked optional.
    #[verifier::rlimit(100)]
    #[verifier::spinoff_prover]
    pub fn commit(&mut self, item: WorkItem, info: PackageInfo)
        requires
            old(self).wf(),
            info.name@ == item.name@,
            !spec_committed(old(self).accepted@, item.name@),
            item.depth > 0 ==> has_parent_in(old(self).accepted@, item.name@, item.depth as int
                - 1),
            item.depth == 0 ==> item.name@ == old(self).root@,
            item.depth < usize::MAX,
        ensures
            final(self).wf(),
            final(self).root == old(self).root,
            final(self).accepted@.len() == old(self).accepted@.len() + 1,
            forall|i: int|
                0 <= i < old(self).accepted@.len() ==> #[trigger] final(self).accepted@[i] == old(
                    self,
                ).accepted@[i],
            final(self).accepted@.last().info == info,
            final(self).accepted@.last().depth == item.depth,
            final(self).accepted@.last().optional == item.optional,
            final(self).conflicts == old(self).conflicts,
            queue_view(final(self).queue@) == queue_view(old(self).queue@) + edge_items(
                info,
                item.depth as int,
            ),
    {
        let new_items = Self::gather_work(&info, item.depth);
        let ghost ginfo = info;
        let ghost total = edge_items(ginfo, item.depth as int);
        let ghost old_acc = self.accepted@;
        self.accepted.push(ResolvedPackage { info, depth: item.depth, optional: item.optional });
        proof {
            let acc = self.accepted@;
            assert(acc.last().info == ginfo);
            assert(forall|i: int| 0 <= i < old_acc.len() ==> acc[i] == #[trigger] old_acc[i]);
            assert(unique_names(acc)) by {
                assert forall|i: int, j: int| 0 <= i < j < acc.len() implies (
                #[trigger] acc[i]).info.name@ != (#[trigger] acc[j]).info.name@ by {
                    if j == acc.len() - 1 {
                        assert(acc[i] == old_acc[i]);
                        assert(!spec_committed(old_acc, item.name@));
                    }
                }
            }
            assert(parents_ok(acc)) by {
                assert forall|i: int|
                    0 <= i < acc.len() && (#[trigger] acc[i]).depth > 0 implies has_parent_in(
                    acc,
                    acc[i].info.name@,
                    acc[i].depth - 1,
                ) by {
                    if i < acc.len() - 1 {
                        assert(acc[i] == old_acc[i]);
                        assert(has_parent_in(old_acc, acc[i].info.name@, acc[i].depth - 1));
                        let j = choose|j: int|
                            0 <= j < old_acc.len() && (#[trigger] old_acc[j]).depth == acc[i].depth
                                - 1 && info_has_dep(old_acc[j].info, acc[i].info.name@);
                        assert(acc[j] == old_acc[j]);
                    } else {
                        if item.depth > 0 {
                            let j = choose|j: int|
                                0 <= j < old_acc.len() && (#[trigger] old_acc[j]).depth
                                    == item.depth - 1 && info_has_dep(old_acc[j].info, item.name@);
                            assert(acc[j] == old_acc[j]);
                        }
                    }
                }
            }
            assert(forall|i: int|
                0 <= i < self.queue@.len() && (#[trigger] self.queue@[i]).depth > 0
                    ==> has_parent_in(acc, self.queue@[i].name@, self.queue@[i].depth - 1)) by {
                assert forall|i: int|
                    0 <= i < self.queue@.len() && (#[trigger] self.queue@[i]).depth
                        > 0 implies has_parent_in(acc, self.queue@[i].name@, self.queue@[i].depth
                    - 1) by {
                    let j = choose|j: int|
                        0 <= j < old_acc.len() && (#[trigger] old_acc[j]).depth
                            == self.queue@[i].depth - 1 && info_has_dep(
                            old_acc[j].info,
                            self.queue@[i].name@,
                        );
                    assert(acc[j] == old_acc[j]);
                }
            }
            assert forall|i: int|
                0 <= i < acc.len() && (#[trigger] acc[i]).depth == 0 implies acc[i].info.name@
                == self.root@ by {
                if i < acc.len() - 1 {
                    assert(acc[i] == old_acc[i]);
                }
            }
        }
        let mut pending = new_items;
        let ghost mut taken: int = 0;
        proof {
            assert(total.take(0) =~= Seq::<WorkItemV>::empty());
            assert(queue_view(self.queue@) =~= queue_view(old(self).queue@) + total.take(0));
            assert(total.skip(0) =~= total);
        }
        while pending.len() > 0
            invariant
                self.wf(),
                self.root == old(self).root,
                self.accepted@.len() == old(self).accepted@.len() + 1,
                forall|i: int|
                    0 <= i < old(self).accepted@.len() ==> #[trigger] self.accepted@[i] == old(
                        self,
                    ).accepted@[i],
                self.accepted@.last().info == ginfo,
                self.accepted@.last().depth == item.depth,
                self.accepted@.last().optional == item.optional,
                self.conflicts == old(self).conflicts,
                item.depth < usize::MAX,
                total == edge_items(ginfo, item.depth as int),
                0 <= taken <= total.len(),
                taken + pending@.len() == total.len(),
                queue_view(self.queue@) == queue_view(old(self).queue@) + total.take(taken),
                queue_view(pending@) == total.skip(taken),
                forall|k: int|
                    0 <= k < pending@.len() ==> (#[trigger] pending@[k]).depth == item.depth + 1
                        && info_has_dep(ginfo, pending@[k].name@),
            decreases pending@.len(),
        {
            let ghost p0 = pending@;
            let w = pending.remove(0);
            proof {
                assert(pending@ =~= p0.drop_first());
                assert(forall|k: int|
                    0 <= k < pending@.len() ==> pending@[k] == #[trigger] p0[k + 1]);
                assert(w == p0[0]);
                assert(queue_view(p0)[0] == w@);
                assert(total.skip(taken)[0] == total[taken]);
                assert(w@ == total[taken]);
                assert forall|k: int| 0 <= k < pending@.len() implies queue_view(pending@)[k]
                    == total.skip(taken + 1)[k] by {
                    assert(pending@[k] == p0[k + 1]);
                    assert(queue_view(p0)[k + 1] == p0[k + 1]@);
                    assert(queue_view(p0)[k + 1] == total.skip(taken)[k + 1]);
                    assert(total.skip(taken)[k + 1] == total[taken + 1 + k]);
                    assert(total.skip(taken + 1)[k] == total[taken + 1 + k]);
                }
                assert(queue_view(pending@) =~= total.skip(taken + 1));
            }
            let ghost q_before = self.queue@;
            self.queue.push(w);
            proof {
                assert(total.take(taken + 1) =~= total.take(taken).push(total[taken]));
                assert(self.queue@ =~= q_before.push(w));
                assert forall|k: int| 0 <= k < self.queue@.len() implies queue_view(self.queue@)[k]
                    == (queue_view(q_before).push(w@))[k] by {
                    if k < q_before.len() {
                        assert(self.queue@[k] == q_before[k]);
                        assert(queue_view(q_before)[k] == q_before[k]@);
                    } else {
                        assert(self.queue@[k] == w);
                    }
                }
                assert(queue_view(self.queue@) =~= queue_view(q_before).push(w@));
                assert((queue_view(old(self).queue@) + total.take(taken)).push(total[taken])
                    =~= queue_view(old(self).queue@) + total.take(taken + 1));
                assert(queue_view(self.queue@) =~= queue_view(old(self).queue@) + total.take(
                    taken + 1,
                ));
                taken = taken + 1;
                let acc = self.accepted@;
                let last = acc.len() - 1;
                assert(acc[last].depth == item.depth);
                assert(info_has_dep(acc[last].info, p0[0].name@));
                assert forall|i: int|
                    0 <= i < self.queue@.len() && (#[trigger] self.queue@[i]).depth
                        > 0 implies has_parent_in(acc, self.queue@[i].name@, self.queue@[i].depth
                    - 1) by {
                    if i < q_before.len() {
                        assert(self.queue@[i] == q_before[i]);
                    } else {
                        assert(self.queue@[i] == p0[0]);
                        assert(has_parent_in(acc, p0[0].name@, item.depth as int));
                    }
                }
                assert forall|i: int|
                    0 <= i < self.queue@.len() && (#[trigger] self.queue@[i]).depth
                        == 0 implies self.queue@[i].name@ == self.root@ by {
                    if i < q_before.len() {
                        assert(self.queue@[i] == q_before[i]);
                    } else {
                        assert(self.queue@[i] == p0[0]);
                        assert(p0[0].depth == item.depth + 1);
                    }
                }
            }
        }
        proof {
            assert(total.take(taken) =~= total);
        }
    }

    /// Closes the resolution: every accepted package, in ascending depth
    /// order, ties keeping acceptance order — the stable sort
    /// `spec_by_depth`, so the output is a function of the accepted set.
    /// The result keeps the resolver's invariants: one package per name,
    /// each package of depth `d > 0` required by one at `d - 1`, and, when
    /// anything resolved at all, the root's package first at depth zero.
    #[verifier::rlimit(100)]
    pub fn take_packages(self) -> (r: Vec<ResolvedPackage>)
        requires
            self.wf(),
        ensures
            r@ == spec_by_depth(self.accepted@),
            unique_names(r@),
            parents_ok(r@),
            sorted_by_depth(r@),
            r@.len() == self.accepted@.len(),
            forall|i: int| 0 <= i < r@.len() ==> elem_in(#[trigger] r@[i], self.accepted@),
            r@.len() > 0 ==> r@[0].depth == 0 && r@[0].info.name@ == self.root@,
    {
        let ghost orig = self.accepted@;
        let mut rem = self.accepted;
        let mut out: Vec<ResolvedPackage> = Vec::new();
        proof {
            lemma_take_init(out@, rem@, orig);
        }
        while rem.len() > 0
            invariant
                out@.len() + rem@.len() == orig.len(),
                unique_names(out@ + rem@),
                parents_ok_in(out@ + rem@, orig),
                covers(out@ + rem@, orig),
                from_base(out@, orig),
                from_base(rem@, orig),
                sorted_by_depth(out@),
                out@ + spec_by_depth(rem@) == spec_by_depth(orig),
                forall|a: int, b: int|
                    0 <= a < out@.len() && 0 <= b < rem@.len() ==> (#[trigger] out@[a]).depth <= (
                    #[trigger] rem@[b]).depth,
            decreases rem@.len(),
        {
            let mut mi: usize = 0;
            let mut k: usize = 1;
            while k < rem.len()
                invariant
                    rem@.len() > 0,
                    (mi as int) < k,
                    1 <= k <= rem@.len(),
                    forall|t: int|
                        0 <= t < k ==> (#[trigger] rem@[t]).depth >= rem@[mi as int].depth,
                    forall|t: int|
                        0 <= t < mi ==> (#[trigger] rem@[t]).depth > rem@[mi as int].depth,
                decreases rem@.len() - k,
            {
                if rem[k].depth < rem[mi].depth {
                    mi = k;
                }
                k = k + 1;
            }
            let ghost out0 = out@;
            let ghost rem0 = rem@;
            proof {
                lemma_first_min_char(rem0, mi as int);
            }
            let e = rem.remove(mi);
            out.push(e);
            proof {
                assert(rem@ =~= rem0.remove(mi as int));
                assert(out@ =~= out0.push(rem0[mi as int]));
                lemma_extract_step(out0, rem0, orig, mi as int, out@, rem@);
                assert(spec_by_depth(rem0) == seq![rem0[mi as int]] + spec_by_depth(rem@));
                assert(out@ + spec_by_depth(rem@) =~= out0 + spec_by_depth(rem0));
            }
        }
        proof {
            reveal(covers);
            reveal(from_base);
            assert(out@ + rem@ =~= out@);
            assert(parents_ok(out@)) by {
                assert forall|i: int|
                    0 <= i < out@.len() && (#[trigger] out@[i]).depth > 0 implies has_parent_in(
                    out@,
                    out@[i].info.name@,
                    out@[i].depth - 1,
                ) by {
                    assert(has_parent_in(orig, out@[i].info.name@, out@[i].depth - 1));
                    let q = choose|q: int|
                        0 <= q < orig.len() && (#[trigger] orig[q]).depth == out@[i].depth - 1
                            && info_has_dep(orig[q].info, out@[i].info.name@);
                    assert(elem_in(orig[q], out@ + rem@));
                    let p = choose|p: int|
                        0 <= p < (out@ + rem@).len() && #[trigger] (out@ + rem@)[p] == orig[q];
                    assert(out@[p] == orig[q]);
                }
            }
            assert forall|i: int| 0 <= i < out@.len() implies elem_in(
                #[trigger] out@[i],
                orig,
            ) by {}
            assert(spec_by_depth(rem@) =~= Seq::<ResolvedPackage>::empty());
            assert(out@ + spec_by_depth(rem@) =~= out@);
            assert(out@ == spec_by_depth(orig));
            if out@.len() > 0 {
                lemma_depth_zero_exists(out@, 0);
                let j = choose|j: int| 0 <= j < out@.len() && (#[trigger] out@[j]).depth == 0;
                assert(out@[0].depth <= out@[j].depth);
                assert(out@[0].depth == 0);
                assert(elem_in(out@[0], orig));
                let p = choose|p: int| 0 <= p < orig.len() && #[trigger] orig[p] == out@[0];
                assert(orig[p].depth == 0);
                assert(orig[p].info.name@ == self.root@);
            }
        }
        out
    }
}

} // verus!
