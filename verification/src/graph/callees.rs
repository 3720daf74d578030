//! `callees`: the functions a function calls, breadth first, each name once,
//! with every call site that led to it.
use vstd::prelude::*;

use crate::graph::walk::{
    lemma_fold_keeps, lemma_fold_keeps_within, found_contains, found_name, found_names, found_ok, found_view, lemma_found_bound, lemma_found_push,
    lemma_found_start, lemma_ref_name, ref_names,
};
use crate::graph::{call_site, site_of, site_views, CallSite, CallSiteView};
use crate::index::{DefKind, Definition, Import, Index, RefKind, Reference};
use crate::resolve::{confidence_text, count_named, reason_text, resolution, resolve_one};
use crate::order::{stable_sort, stable_sorted, Ranked};
use crate::text::{lemma_seq_lt_total, lemma_seq_lt_trans, seq_le, seq_lt, str_eq, str_less};

verus! {

/// The deepest the walk ever goes, whatever depth is asked for.
pub const HARD_CAP: usize = 8;

/// A function called, directly or through others.
#[derive(Debug)]
pub struct CalleeEntry {
    pub name: String,
    pub kind: &'static str,
    pub def_file: Option<String>,
    pub def_line: Option<usize>,
    pub distance: usize,
    pub confidence: &'static str,
    pub reason: &'static str,
    pub sites: Vec<CallSite>,
}

pub struct CalleeEntryView {
    pub name: Seq<char>,
    pub kind: Seq<char>,
    pub def_file: Option<Seq<char>>,
    pub def_line: Option<usize>,
    pub distance: int,
    pub confidence: Seq<char>,
    pub reason: Seq<char>,
    pub sites: Seq<CallSiteView>,
}

impl View for CalleeEntry {
    type V = CalleeEntryView;

    open spec fn view(&self) -> CalleeEntryView {
        CalleeEntryView {
            name: self.name@,
            kind: self.kind@,
            def_file: match self.def_file {
                Some(f) => Some(f@),
                None => None,
            },
            def_line: self.def_line,
            distance: self.distance as int,
            confidence: self.confidence@,
            reason: self.reason@,
            sites: site_views(self.sites@),
        }
    }
}

pub open spec fn views(s: Seq<CalleeEntry>) -> Seq<CalleeEntryView> {
    s.map_values(|e: CalleeEntry| e@)
}

/// `k` is the first entry named `n`.
pub open spec fn first_named(s: Seq<CalleeEntryView>, n: Seq<char>, k: int) -> bool {
    0 <= k < s.len() && s[k].name == n && forall|j: int| 0 <= j < k ==> s[j].name != n
}

/// Records `site` under the entry named like `fresh`, adding `fresh` first
/// when there is none.
pub open spec fn add_site(s: Seq<CalleeEntryView>, fresh: CalleeEntryView, site: CallSiteView) -> Seq<
    CalleeEntryView,
> {
    if exists|k: int| first_named(s, fresh.name, k) {
        let k = choose|k: int| first_named(s, fresh.name, k);
        s.update(k, CalleeEntryView { sites: s[k].sites.push(site), ..s[k] })
    } else {
        s.push(CalleeEntryView { sites: seq![site], ..fresh })
    }
}

/// The walk's state.
pub struct CalleeWalk {
    pub entries: Seq<CalleeEntryView>,
    pub found: Seq<(Seq<char>, int)>,
    pub head: int,
}

/// `r` lies in the body of a function or method named `cur`.
pub open spec fn inside_callable(defs: Seq<Definition>, cur: Seq<char>, r: Reference) -> bool {
    exists|i: int|
        0 <= i < defs.len() && #[trigger] defs[i].name@ == cur && (defs[i].kind == DefKind::Fn
            || defs[i].kind == DefKind::Method) && defs[i].file@ == r.file@
            && defs[i].body_start_byte <= r.byte_offset < defs[i].body_end_byte
}

/// The entry a call `r` first creates, at `distance`.
pub open spec fn fresh_entry(defs: Seq<Definition>, imps: Seq<Import>, r: Reference, distance: int) -> CalleeEntryView {
    let res = resolution(defs, imps, r.name@, r.file@);
    CalleeEntryView {
        name: r.name@,
        kind: "fn"@,
        def_file: match res.0 {
            Some(d) => Some(d.file@),
            None => None,
        },
        def_line: match res.0 {
            Some(d) => Some(d.line),
            None => None,
        },
        distance,
        confidence: confidence_text(res.1),
        reason: reason_text(res.2),
        sites: Seq::empty(),
    }
}

/// A call `r` made from inside `cur` (reached at `dist`): its site is
/// recorded under the called name, which is reached at `dist + 1`.
pub open spec fn visit_call(
    defs: Seq<Definition>,
    imps: Seq<Import>,
    cur: Seq<char>,
    dist: int,
    w: CalleeWalk,
    r: Reference,
) -> CalleeWalk {
    if r.kind == RefKind::Call && inside_callable(defs, cur, r) {
        CalleeWalk {
            entries: add_site(w.entries, fresh_entry(defs, imps, r, dist + 1), site_of(r)),
            found: if found_name(w.found, r.name@) {
                w.found
            } else {
                w.found.push((r.name@, dist + 1))
            },
            head: w.head,
        }
    } else {
        w
    }
}

pub open spec fn visitor(defs: Seq<Definition>, imps: Seq<Import>, cur: Seq<char>, dist: int) -> spec_fn(
    CalleeWalk,
    Reference,
) -> CalleeWalk {
    |w: CalleeWalk, r: Reference| visit_call(defs, imps, cur, dist, w, r)
}

/// Expands the next reached name: every reference of the index, in order,
/// unless the name lies at the depth limit.
pub open spec fn expand(
    defs: Seq<Definition>,
    imps: Seq<Import>,
    refs: Seq<Reference>,
    limit: int,
    w: CalleeWalk,
) -> CalleeWalk {
    if w.head < 0 || w.head >= w.found.len() {
        w
    } else {
        let cur = w.found[w.head].0;
        let dist = w.found[w.head].1;
        let w1 = if dist >= limit {
            w
        } else {
            refs.fold_left(w, visitor(defs, imps, cur, dist))
        };
        CalleeWalk { head: w.head + 1, ..w1 }
    }
}

pub open spec fn walk_after(
    defs: Seq<Definition>,
    imps: Seq<Import>,
    refs: Seq<Reference>,
    target: Seq<char>,
    limit: int,
    n: nat,
) -> CalleeWalk
    decreases n,
{
    if n == 0 {
        CalleeWalk { entries: Seq::empty(), found: seq![(target, 0int)], head: 0 }
    } else {
        expand(defs, imps, refs, limit, walk_after(defs, imps, refs, target, limit, (n - 1) as nat))
    }
}

/// The depth the walk goes to for a requested `depth`.
pub open spec fn depth_limit(depth: usize) -> int {
    if depth < HARD_CAP {
        depth as int
    } else {
        HARD_CAP as int
    }
}

/// The entries of a finished walk from `target`, in the order found.
pub open spec fn callee_entries(
    defs: Seq<Definition>,
    imps: Seq<Import>,
    refs: Seq<Reference>,
    target: Seq<char>,
    depth: usize,
) -> Seq<CalleeEntryView> {
    walk_after(defs, imps, refs, target, depth_limit(depth), refs.len() + 1).entries
}

pub proof fn lemma_walk_done(
    defs: Seq<Definition>,
    imps: Seq<Import>,
    refs: Seq<Reference>,
    target: Seq<char>,
    limit: int,
    m: nat,
    n: nat,
)
    requires
        m <= n,
        walk_after(defs, imps, refs, target, limit, m).head >= walk_after(
            defs,
            imps,
            refs,
            target,
            limit,
            m,
        ).found.len(),
    ensures
        walk_after(defs, imps, refs, target, limit, n) == walk_after(defs, imps, refs, target, limit, m),
    decreases n,
{
    if n > m {
        lemma_walk_done(defs, imps, refs, target, limit, m, (n - 1) as nat);
    }
}

/// Results come by distance, then name.
impl Ranked for CalleeEntry {
    open spec fn spec_rank_le(&self, other: &Self) -> bool {
        ||| self.distance < other.distance
        ||| self.distance == other.distance && seq_le(self.name@, other.name@)
    }

    fn rank_le(&self, other: &Self) -> (res: bool) {
        if self.distance != other.distance {
            return self.distance < other.distance;
        }
        str_less(self.name.as_str(), other.name.as_str()) || str_eq(
            self.name.as_str(),
            other.name.as_str(),
        )
    }

    proof fn rank_total(a: &Self, b: &Self) {
        lemma_seq_lt_total(a.name@, b.name@);
    }

    proof fn rank_trans(a: &Self, b: &Self, c: &Self) {
        if seq_lt(a.name@, b.name@) && seq_lt(b.name@, c.name@) {
            lemma_seq_lt_trans(a.name@, b.name@, c.name@);
        }
    }
}

/// Whether `r` lies in the body of a function or method named `cur`.
fn is_inside_callable(defs: &Vec<Definition>, cur: &str, r: &Reference) -> (res: bool)
    ensures
        res == inside_callable(defs@, cur@, *r),
{
    let mut i: usize = 0;
    while i < defs.len()
        invariant
            i <= defs@.len(),
            forall|j: int|
                0 <= j < i ==> !(#[trigger] defs@[j].name@ == cur@ && (defs@[j].kind == DefKind::Fn
                    || defs@[j].kind == DefKind::Method) && defs@[j].file@ == r.file@
                    && defs@[j].body_start_byte <= r.byte_offset < defs@[j].body_end_byte),
        decreases defs@.len() - i,
    {
        let d = &defs[i];
        if str_eq(d.name.as_str(), cur) && (d.kind == DefKind::Fn || d.kind == DefKind::Method)
            && str_eq(d.file.as_str(), r.file.as_str()) && d.body_start_byte <= r.byte_offset
            && r.byte_offset < d.body_end_byte {
            return true;
        }
        i = i + 1;
    }
    false
}

/// Records the site of call `r` under its name, adding `fresh` first when
/// that name has no entry.
fn record_site(entries: &mut Vec<CalleeEntry>, fresh: CalleeEntry, site: CallSite)
    requires
        fresh.sites@.len() == 0,
    ensures
        views(final(entries)@) == add_site(views(old(entries)@), fresh@, site@),
{
    let ghost s = views(entries@);
    let mut i: usize = 0;
    while i < entries.len()
        invariant
            i <= entries@.len(),
            s == views(entries@),
            s == views(old(entries)@),
            forall|j: int| 0 <= j < i ==> #[trigger] entries@[j].name@ != fresh.name@,
        decreases entries@.len() - i,
    {
        if str_eq(entries[i].name.as_str(), fresh.name.as_str()) {
            proof {
                assert(s[i as int] == entries@[i as int]@);
                assert forall|j: int| 0 <= j < i implies s[j].name != fresh.name@ by {
                    assert(s[j] == entries@[j]@);
                }
                assert(first_named(s, fresh.name@, i as int));
                let k = choose|k: int| first_named(s, fresh.name@, k);
                assert(k == i);
            }
            let ghost old_sites = entries@[i as int].sites@;
            let ghost old_entry = entries@[i as int];
            entries[i].sites.push(site);
            proof {
                assert(entries@[i as int].name == old_entry.name);
                assert(entries@.len() == s.len());
                assert(site_views(entries@[i as int].sites@) =~= site_views(old_sites).push(site@));
                assert(views(entries@) =~= s.update(
                    i as int,
                    CalleeEntryView { sites: s[i as int].sites.push(site@), ..s[i as int] },
                ));
                assert(first_named(s, fresh@.name, i as int));
                assert(exists|k: int| first_named(s, fresh@.name, k));
                assert(views(entries@) == add_site(s, fresh@, site@));
            }
            return;
        }
        i = i + 1;
    }
    proof {
        assert forall|k: int| !first_named(s, fresh.name@, k) by {
            if 0 <= k < s.len() {
                assert(s[k] == entries@[k]@);
            }
        }
    }
    let mut e = fresh;
    let ghost empty_sites = e.sites@;
    e.sites.push(site);
    assert(site_views(e.sites@) =~= seq![site@]);
    entries.push(e);
    assert(views(entries@) =~= s.push(CalleeEntryView { sites: seq![site@], ..fresh@ }));
}

/// What `name` calls: walking the calls made from the functions and methods
/// of each reached name, breadth first, up to `min(depth, HARD_CAP)` calls
/// away; each called name once, at the distance first reached, with every
/// call site that led to it. Sorted by distance, then name.
pub fn callees(idx: &Index, name: &str, depth: usize) -> (res: Vec<CalleeEntry>)
    ensures
        exists|u: Seq<CalleeEntry>|
            #![trigger stable_sorted(u, res@)]
            views(u) == callee_entries(idx.definitions@, idx.imports@, idx.references@, name@, depth)
                && stable_sorted(u, res@),
{
    let ghost defs = idx.definitions@;
    let ghost imps = idx.imports@;
    let ghost refs = idx.references@;
    let limit: usize = if depth < HARD_CAP {
        depth
    } else {
        HARD_CAP
    };
    let mut entries: Vec<CalleeEntry> = Vec::new();
    let mut found: Vec<(String, usize)> = Vec::new();
    found.push((name.to_owned(), 0));
    let mut head: usize = 0;
    proof {
        lemma_found_start(ref_names(refs), name@);
        assert(found_view(found@) =~= seq![(name@, 0int)]);
        assert(views(entries@) =~= Seq::<CalleeEntryView>::empty());
    }
    while head < found.len()
        invariant
            defs == idx.definitions@,
            imps == idx.imports@,
            refs == idx.references@,
            limit as int == depth_limit(depth),
            head <= found@.len(),
            forall|k: int| 0 <= k < found@.len() ==> #[trigger] found@[k].1 <= HARD_CAP,
            found_ok(ref_names(refs), name@, found_view(found@)),
            walk_after(defs, imps, refs, name@, limit as int, head as nat) == (CalleeWalk {
                entries: views(entries@),
                found: found_view(found@),
                head: head as int,
            }),
        decreases refs.len() + 1 - head,
    {
        proof {
            lemma_found_bound(ref_names(refs), name@, found_view(found@));
        }
        let ghost w0 = walk_after(defs, imps, refs, name@, limit as int, head as nat);
        let cur = found[head].0.clone();
        let dist = found[head].1;
        assert(w0.found[head as int] == (cur@, dist as int));
        if dist < limit {
            let ghost f = visitor(defs, imps, cur@, dist as int);
            let mut j: usize = 0;
            assert(refs.take(0) =~= Seq::<Reference>::empty());
            while j < idx.references.len()
                invariant
                    defs == idx.definitions@,
                    imps == idx.imports@,
                    refs == idx.references@,
                    f == visitor(defs, imps, cur@, dist as int),
                    dist < limit <= HARD_CAP,
                    head < found@.len(),
                    j <= refs.len(),
                    forall|k: int| 0 <= k < found@.len() ==> #[trigger] found@[k].1 <= HARD_CAP,
                    found_ok(ref_names(refs), name@, found_view(found@)),
                    refs.take(j as int).fold_left(w0, f) == (CalleeWalk {
                        entries: views(entries@),
                        found: found_view(found@),
                        head: head as int,
                    }),
                decreases refs.len() - j,
            {
                let r = &idx.references[j];
                assert(refs.take(j + 1).drop_last() =~= refs.take(j as int));
                assert(refs.take(j + 1).last() == *r);
                if r.kind == RefKind::Call && is_inside_callable(&idx.definitions, cur.as_str(), r) {
                    let n_named = count_named(&idx.definitions, r.name.as_str());
                    let (d, c, why) = resolve_one(idx, r.name.as_str(), r.file.as_str(), n_named);
                    let fresh = CalleeEntry {
                        name: r.name.clone(),
                        kind: "fn",
                        def_file: match d {
                            Some(d) => Some(d.file.clone()),
                            None => None,
                        },
                        def_line: match d {
                            Some(d) => Some(d.line),
                            None => None,
                        },
                        distance: dist + 1,
                        confidence: c.as_str(),
                        reason: why.as_str(),
                        sites: Vec::new(),
                    };
                    proof {
                        let fe = fresh_entry(defs, imps, *r, dist + 1);
                        assert(fresh@.name == fe.name);
                        assert(fresh@.kind == fe.kind);
                        assert(fresh@.def_file == fe.def_file);
                        assert(fresh@.def_line == fe.def_line);
                        assert(fresh@.distance == fe.distance);
                        assert(fresh@.confidence == fe.confidence);
                        assert(fresh@.reason == fe.reason);
                        assert(fresh@.sites =~= fe.sites);
                    }
                    record_site(&mut entries, fresh, call_site(r));
                    if !found_contains(&found, r.name.as_str()) {
                        proof {
                            lemma_ref_name(refs, j as int);
                            lemma_found_push(
                                ref_names(refs),
                                name@,
                                found_view(found@),
                                r.name@,
                                dist + 1,
                            );
                        }
                        let ghost fbefore = found_view(found@);
                        found.push((r.name.clone(), dist + 1));
                        assert(found_view(found@) =~= fbefore.push((r.name@, dist + 1)));
                    }
                }
                j = j + 1;
            }
            assert(refs.take(j as int) =~= refs);
        }
        head = head + 1;
    }
    proof {
        lemma_found_bound(ref_names(refs), name@, found_view(found@));
        lemma_walk_done(defs, imps, refs, name@, limit as int, head as nat, refs.len() + 1);
    }
    let ghost u = entries@;
    let res = stable_sort(entries);
    assert(stable_sorted(u, res@));
    res
}

// ---------------------------------------------------------------------------
// What every walk keeps
// ---------------------------------------------------------------------------
/// No two entries share a name; every entry is a `fn` 1 to `limit` calls
/// away; every reached name is at most `limit` away.
pub open spec fn walk_ok(limit: int, w: CalleeWalk) -> bool {
    &&& forall|i: int, j: int|
        0 <= i < j < w.entries.len() ==> (#[trigger] w.entries[i]).name != (#[trigger] w.entries[j]).name
    &&& forall|i: int|
        0 <= i < w.entries.len() ==> 1 <= (#[trigger] w.entries[i]).distance <= limit
            && w.entries[i].kind == "fn"@
    &&& forall|k: int| 0 <= k < w.found.len() ==> 0 <= (#[trigger] w.found[k]).1 <= limit
}

/// When some entry has the name, a first one does.
proof fn lemma_first_named_exists(s: Seq<CalleeEntryView>, n: Seq<char>, j: int)
    requires
        0 <= j < s.len(),
        s[j].name == n,
    ensures
        exists|k: int| first_named(s, n, k),
    decreases j,
{
    if forall|i: int| 0 <= i < j ==> s[i].name != n {
        assert(first_named(s, n, j));
    } else {
        let i = choose|i: int| 0 <= i < j && s[i].name == n;
        lemma_first_named_exists(s, n, i);
    }
}

proof fn lemma_add_site_keeps(limit: int, w: CalleeWalk, fresh: CalleeEntryView, site: CallSiteView)
    requires
        walk_ok(limit, w),
        1 <= fresh.distance <= limit,
        fresh.kind == "fn"@,
    ensures
        walk_ok(limit, CalleeWalk { entries: add_site(w.entries, fresh, site), ..w }),
{
    let s = w.entries;
    let t = add_site(s, fresh, site);
    if exists|k: int| first_named(s, fresh.name, k) {
        assert forall|i: int, j: int| 0 <= i < j < t.len() implies (#[trigger] t[i]).name != (
        #[trigger] t[j]).name by {
            assert(t[i].name == s[i].name && t[j].name == s[j].name);
        }
        assert forall|i: int| 0 <= i < t.len() implies 1 <= (#[trigger] t[i]).distance <= limit
            && t[i].kind == "fn"@ by {
            assert(t[i].distance == s[i].distance && t[i].kind == s[i].kind);
        }
    } else {
        assert forall|i: int, j: int| 0 <= i < j < t.len() implies (#[trigger] t[i]).name != (
        #[trigger] t[j]).name by {
            if j == s.len() {
                assert(t[i] == s[i]);
                if s[i].name == fresh.name {
                    lemma_first_named_exists(s, fresh.name, i);
                }
            } else {
                assert(t[i] == s[i] && t[j] == s[j]);
            }
        }
        assert forall|i: int| 0 <= i < t.len() implies 1 <= (#[trigger] t[i]).distance <= limit
            && t[i].kind == "fn"@ by {
            if i < s.len() {
                assert(t[i] == s[i]);
            }
        }
    }
}

proof fn lemma_visit_keeps(
    defs: Seq<Definition>,
    imps: Seq<Import>,
    limit: int,
    cur: Seq<char>,
    dist: int,
    w: CalleeWalk,
    r: Reference,
)
    requires
        0 <= dist < limit,
        walk_ok(limit, w),
    ensures
        walk_ok(limit, visit_call(defs, imps, cur, dist, w, r)),
{
    if r.kind == RefKind::Call && inside_callable(defs, cur, r) {
        lemma_add_site_keeps(limit, w, fresh_entry(defs, imps, r, dist + 1), site_of(r));
        let w2 = visit_call(defs, imps, cur, dist, w, r);
        assert forall|k: int| 0 <= k < w2.found.len() implies 0 <= (#[trigger] w2.found[k]).1
            <= limit by {
            if k < w.found.len() {
                assert(w2.found[k] == w.found[k]);
            }
        }
    }
}

proof fn lemma_walk_ok(
    defs: Seq<Definition>,
    imps: Seq<Import>,
    refs: Seq<Reference>,
    target: Seq<char>,
    limit: int,
    n: nat,
)
    requires
        limit >= 0,
    ensures
        walk_ok(limit, walk_after(defs, imps, refs, target, limit, n)),
    decreases n,
{
    if n > 0 {
        lemma_walk_ok(defs, imps, refs, target, limit, (n - 1) as nat);
        let w = walk_after(defs, imps, refs, target, limit, (n - 1) as nat);
        if 0 <= w.head < w.found.len() {
            let cur = w.found[w.head].0;
            let dist = w.found[w.head].1;
            if dist < limit {
                let f = visitor(defs, imps, cur, dist);
                let p = |x: CalleeWalk| walk_ok(limit, x);
                assert forall|x: CalleeWalk, r: Reference| p(x) implies #[trigger] p(f(x, r)) by {
                    lemma_visit_keeps(defs, imps, limit, cur, dist, x, r);
                }
                lemma_fold_keeps(refs, w, f, p);
            }
        }
    }
}

/// What `callees` reports, whatever the index: each called name once, as a
/// `fn`, 1 to `min(depth, HARD_CAP)` calls away: never further than the
/// depth asked for, nor than `HARD_CAP`.
pub proof fn lemma_callees_shape(
    defs: Seq<Definition>,
    imps: Seq<Import>,
    refs: Seq<Reference>,
    target: Seq<char>,
    depth: usize,
)
    ensures
        ({
            let es = callee_entries(defs, imps, refs, target, depth);
            &&& forall|i: int, j: int|
                0 <= i < j < es.len() ==> (#[trigger] es[i]).name != (#[trigger] es[j]).name
            &&& forall|i: int|
                0 <= i < es.len() ==> 1 <= (#[trigger] es[i]).distance <= depth_limit(depth)
                    && es[i].kind == "fn"@
            &&& forall|i: int|
                0 <= i < es.len() ==> (#[trigger] es[i]).distance <= depth && es[i].distance
                    <= HARD_CAP
        }),
{
    lemma_walk_ok(defs, imps, refs, target, depth_limit(depth), refs.len() + 1);
}

// ---------------------------------------------------------------------------
// The walk reaches as far as asked
// ---------------------------------------------------------------------------
/// Some entry is named `n`.
pub open spec fn has_entry(es: Seq<CalleeEntryView>, n: Seq<char>) -> bool {
    exists|i: int| 0 <= i < es.len() && (#[trigger] es[i]).name == n
}

/// `b` extends `a`, keeping each entry's name and distance.
pub open spec fn entries_kept(a: Seq<CalleeEntryView>, b: Seq<CalleeEntryView>) -> bool {
    &&& a.len() <= b.len()
    &&& forall|i: int| 0 <= i < a.len() ==> (#[trigger] b[i]).name == a[i].name && b[i].distance == a[i].distance
}

/// `b` extends `a`.
pub open spec fn found_kept(a: Seq<(Seq<char>, int)>, b: Seq<(Seq<char>, int)>) -> bool {
    &&& a.len() <= b.len()
    &&& forall|i: int| 0 <= i < a.len() ==> #[trigger] b[i] == a[i]
}

/// `x` extends `w`, at the same head.
pub open spec fn walk_kept(w: CalleeWalk, x: CalleeWalk) -> bool {
    &&& entries_kept(w.entries, x.entries)
    &&& found_kept(w.found, x.found)
    &&& x.head == w.head
}

proof fn lemma_walk_kept_trans(a: CalleeWalk, b: CalleeWalk, c: CalleeWalk)
    requires
        walk_kept(a, b),
        walk_kept(b, c),
    ensures
        walk_kept(a, c),
{
    assert forall|i: int| 0 <= i < a.entries.len() implies (#[trigger] c.entries[i]).name == a.entries[i].name
        && c.entries[i].distance == a.entries[i].distance by {
        assert(b.entries[i].name == a.entries[i].name);
    }
    assert forall|i: int| 0 <= i < a.found.len() implies #[trigger] c.found[i] == a.found[i] by {
        assert(b.found[i] == a.found[i]);
    }
}

proof fn lemma_add_site_names(s: Seq<CalleeEntryView>, fresh: CalleeEntryView, site: CallSiteView)
    ensures
        entries_kept(s, add_site(s, fresh, site)),
        has_entry(add_site(s, fresh, site), fresh.name),
{
    let t = add_site(s, fresh, site);
    if exists|k: int| first_named(s, fresh.name, k) {
        let k = choose|k: int| first_named(s, fresh.name, k);
        assert(t[k].name == fresh.name);
    } else {
        assert(t[s.len() as int].name == fresh.name);
    }
}

proof fn lemma_visit_kept(
    defs: Seq<Definition>,
    imps: Seq<Import>,
    cur: Seq<char>,
    dist: int,
    w: CalleeWalk,
    r: Reference,
)
    ensures
        walk_kept(w, visit_call(defs, imps, cur, dist, w, r)),
        (r.kind == RefKind::Call && inside_callable(defs, cur, r)) ==> has_entry(
            visit_call(defs, imps, cur, dist, w, r).entries,
            r.name@,
        ),
{
    if r.kind == RefKind::Call && inside_callable(defs, cur, r) {
        lemma_add_site_names(w.entries, fresh_entry(defs, imps, r, dist + 1), site_of(r));
    }
}

/// Expanding `cur` over `s` keeps the walk and gives an entry to every name
/// called from inside a function or method named `cur`.
proof fn lemma_fold_covers(
    defs: Seq<Definition>,
    imps: Seq<Import>,
    cur: Seq<char>,
    dist: int,
    s: Seq<Reference>,
    w: CalleeWalk,
)
    ensures
        walk_kept(w, s.fold_left(w, visitor(defs, imps, cur, dist))),
        forall|j: int|
            0 <= j < s.len() && (#[trigger] s[j]).kind == RefKind::Call && inside_callable(defs, cur, s[j])
                ==> has_entry(s.fold_left(w, visitor(defs, imps, cur, dist)).entries, s[j].name@),
    decreases s.len(),
{
    let f = visitor(defs, imps, cur, dist);
    if s.len() > 0 {
        let d = s.drop_last();
        lemma_fold_covers(defs, imps, cur, dist, d, w);
        let x = d.fold_left(w, f);
        lemma_visit_kept(defs, imps, cur, dist, x, s.last());
        let y = visit_call(defs, imps, cur, dist, x, s.last());
        assert(s.fold_left(w, f) == y);
        lemma_walk_kept_trans(w, x, y);
        assert forall|j: int|
            0 <= j < s.len() && (#[trigger] s[j]).kind == RefKind::Call && inside_callable(defs, cur, s[j]) implies has_entry(
            y.entries,
            s[j].name@,
        ) by {
            if j < d.len() {
                assert(d[j] == s[j]);
                let i = choose|i: int| 0 <= i < x.entries.len() && (#[trigger] x.entries[i]).name == s[j].name@;
                assert(y.entries[i].name == x.entries[i].name);
            }
        }
    } else {
        assert(s.fold_left(w, f) == w);
    }
}

/// Some entry is named `n` at distance `d`.
pub open spec fn entry_at(es: Seq<CalleeEntryView>, n: Seq<char>, d: int) -> bool {
    exists|i: int| 0 <= i < es.len() && (#[trigger] es[i]).name == n && es[i].distance == d
}

/// Some reached name is `n`, at most `d` away.
pub open spec fn found_within(found: Seq<(Seq<char>, int)>, n: Seq<char>, d: int) -> bool {
    exists|k: int| 0 <= k < found.len() && (#[trigger] found[k]).0 == n && found[k].1 <= d
}

/// Every reached name but the start has its entry at its distance; every
/// entry's name was reached at most that far away.
pub open spec fn linked(w: CalleeWalk) -> bool {
    &&& w.found.len() >= 1
    &&& w.found[0].1 == 0
    &&& forall|k: int| 1 <= k < w.found.len() ==> entry_at(w.entries, (#[trigger] w.found[k]).0, w.found[k].1)
    &&& forall|i: int| 0 <= i < w.entries.len() ==> found_within(w.found, (#[trigger] w.entries[i]).name, w.entries[i].distance)
}

proof fn lemma_found_name_at(found: Seq<(Seq<char>, int)>, n: Seq<char>)
    ensures
        found_name(found, n) <==> exists|k: int| 0 <= k < found.len() && (#[trigger] found[k]).0 == n,
{
    if found_name(found, n) {
        let k = choose|k: int| 0 <= k < found_names(found).len() && found_names(found)[k] == n;
        assert(found[k].0 == found_names(found)[k]);
    }
    if exists|k: int| 0 <= k < found.len() && (#[trigger] found[k]).0 == n {
        let k = choose|k: int| 0 <= k < found.len() && (#[trigger] found[k]).0 == n;
        assert(found_names(found)[k] == n);
    }
}

proof fn lemma_visit_linked(
    defs: Seq<Definition>,
    imps: Seq<Import>,
    refs: Seq<Reference>,
    target: Seq<char>,
    cur: Seq<char>,
    dist: int,
    w: CalleeWalk,
    r: Reference,
)
    requires
        dist >= 0,
        linked(w),
        found_ok(ref_names(refs), target, w.found),
        refs.contains(r),
    ensures
        linked(visit_call(defs, imps, cur, dist, w, r)),
        found_ok(ref_names(refs), target, visit_call(defs, imps, cur, dist, w, r).found),
{
    if r.kind == RefKind::Call && inside_callable(defs, cur, r) {
        let n = r.name@;
        let fresh = fresh_entry(defs, imps, r, dist + 1);
        let w2 = visit_call(defs, imps, cur, dist, w, r);
        lemma_found_name_at(w.found, n);
        lemma_add_site_names(w.entries, fresh, site_of(r));
        let jr = choose|jr: int| 0 <= jr < refs.len() && refs[jr] == r;
        lemma_ref_name(refs, jr);
        if exists|k: int| first_named(w.entries, n, k) {
            let k = choose|k: int| first_named(w.entries, n, k);
            assert(found_within(w.found, w.entries[k].name, w.entries[k].distance));
            assert(found_name(w.found, n));
            assert(w2.found == w.found);
            assert(w2.entries.len() == w.entries.len());
            assert forall|k2: int| 1 <= k2 < w2.found.len() implies entry_at(w2.entries, (#[trigger] w2.found[k2]).0, w2.found[k2].1) by {
                let i = choose|i: int| 0 <= i < w.entries.len() && (#[trigger] w.entries[i]).name == w.found[k2].0
                    && w.entries[i].distance == w.found[k2].1;
                assert(w2.entries[i].name == w.entries[i].name && w2.entries[i].distance == w.entries[i].distance);
            }
            assert forall|i: int| 0 <= i < w2.entries.len() implies found_within(w2.found, (#[trigger] w2.entries[i]).name, w2.entries[i].distance) by {
                assert(w2.entries[i].name == w.entries[i].name && w2.entries[i].distance == w.entries[i].distance);
                assert(found_within(w.found, w.entries[i].name, w.entries[i].distance));
            }
        } else {
            let m = w.entries.len() as int;
            assert(w2.entries == w.entries.push(CalleeEntryView { sites: seq![site_of(r)], ..fresh }));
            if found_name(w.found, n) {
                let k = choose|k: int| 0 <= k < w.found.len() && (#[trigger] w.found[k]).0 == n;
                if k >= 1 {
                    let i = choose|i: int| 0 <= i < w.entries.len() && (#[trigger] w.entries[i]).name == w.found[k].0
                        && w.entries[i].distance == w.found[k].1;
                    lemma_first_named_exists(w.entries, n, i);
                }
                assert(w2.found == w.found);
                assert(found_within(w2.found, n, dist + 1));
            } else {
                lemma_found_push(ref_names(refs), target, w.found, n, dist + 1);
                assert(w2.found == w.found.push((n, dist + 1)));
                assert(w2.found[w.found.len() as int] == (n, dist + 1));
                assert(found_within(w2.found, n, dist + 1));
            }
            assert forall|k2: int| 1 <= k2 < w2.found.len() implies entry_at(w2.entries, (#[trigger] w2.found[k2]).0, w2.found[k2].1) by {
                if k2 < w.found.len() {
                    assert(w2.found[k2] == w.found[k2]);
                    let i = choose|i: int| 0 <= i < w.entries.len() && (#[trigger] w.entries[i]).name == w.found[k2].0
                        && w.entries[i].distance == w.found[k2].1;
                    assert(w2.entries[i] == w.entries[i]);
                } else {
                    assert(w2.entries[m].name == n && w2.entries[m].distance == dist + 1);
                }
            }
            assert forall|i: int| 0 <= i < w2.entries.len() implies found_within(w2.found, (#[trigger] w2.entries[i]).name, w2.entries[i].distance) by {
                if i < m {
                    assert(w2.entries[i] == w.entries[i]);
                    assert(found_within(w.found, w.entries[i].name, w.entries[i].distance));
                    let k = choose|k: int| 0 <= k < w.found.len() && (#[trigger] w.found[k]).0 == w.entries[i].name
                        && w.found[k].1 <= w.entries[i].distance;
                    assert(w2.found[k] == w.found[k]);
                }
            }
        }
    }
}

/// The walk's state after `n` expansions: linked, its reached names valid,
/// and either expanded exactly `n` names or finished.
proof fn lemma_walk_inv(
    defs: Seq<Definition>,
    imps: Seq<Import>,
    refs: Seq<Reference>,
    target: Seq<char>,
    limit: int,
    n: nat,
)
    requires
        limit >= 0,
    ensures
        ({
            let w = walk_after(defs, imps, refs, target, limit, n);
            &&& linked(w)
            &&& found_ok(ref_names(refs), target, w.found)
            &&& 0 <= w.head <= n
            &&& (w.head == n || w.head >= w.found.len())
        }),
    decreases n,
{
    if n == 0 {
        lemma_found_start(ref_names(refs), target);
        let w = walk_after(defs, imps, refs, target, limit, 0);
        assert(w.entries.len() == 0);
    } else {
        lemma_walk_inv(defs, imps, refs, target, limit, (n - 1) as nat);
        let w = walk_after(defs, imps, refs, target, limit, (n - 1) as nat);
        if 0 <= w.head < w.found.len() {
            let cur = w.found[w.head].0;
            let dist = w.found[w.head].1;
            if dist < limit {
                let f = visitor(defs, imps, cur, dist);
                assert(dist >= 0) by {
                    if w.head == 0 {
                    } else {
                        let i = choose|i: int| 0 <= i < w.entries.len() && (#[trigger] w.entries[i]).name == w.found[w.head].0
                            && w.entries[i].distance == w.found[w.head].1;
                        lemma_walk_ok(defs, imps, refs, target, limit, (n - 1) as nat);
                    }
                }
                let p = |x: CalleeWalk| linked(x) && found_ok(ref_names(refs), target, x.found) && x.head == w.head;
                assert forall|x: CalleeWalk, r: Reference| refs.contains(r) && p(x) implies #[trigger] p(f(x, r)) by {
                    lemma_visit_linked(defs, imps, refs, target, cur, dist, x, r);
                }
                lemma_fold_keeps_within(refs, w, f, p);
            }
        }
    }
}

/// Later walks extend earlier ones.
proof fn lemma_steps_kept(
    defs: Seq<Definition>,
    imps: Seq<Import>,
    refs: Seq<Reference>,
    target: Seq<char>,
    limit: int,
    m: nat,
    n: nat,
)
    requires
        m <= n,
    ensures
        entries_kept(
            walk_after(defs, imps, refs, target, limit, m).entries,
            walk_after(defs, imps, refs, target, limit, n).entries,
        ),
        found_kept(
            walk_after(defs, imps, refs, target, limit, m).found,
            walk_after(defs, imps, refs, target, limit, n).found,
        ),
    decreases n,
{
    let a = walk_after(defs, imps, refs, target, limit, m);
    if n > m {
        lemma_steps_kept(defs, imps, refs, target, limit, m, (n - 1) as nat);
        let w = walk_after(defs, imps, refs, target, limit, (n - 1) as nat);
        let c = walk_after(defs, imps, refs, target, limit, n);
        let wa = CalleeWalk { head: w.head, ..a };
        let wc = CalleeWalk { head: w.head, ..c };
        assert(walk_kept(wa, w));
        if 0 <= w.head < w.found.len() && w.found[w.head].1 < limit {
            lemma_fold_covers(defs, imps, w.found[w.head].0, w.found[w.head].1, refs, w);
        }
        assert(walk_kept(w, wc));
        lemma_walk_kept_trans(wa, w, wc);
    }
}

/// A name reached fewer than `limit` calls away, in a finished walk, has an
/// entry for every name called from inside a function or method of its.
proof fn lemma_expanded(
    defs: Seq<Definition>,
    imps: Seq<Import>,
    refs: Seq<Reference>,
    target: Seq<char>,
    limit: int,
    k: int,
    j: int,
)
    requires
        limit >= 0,
        0 <= k < walk_after(defs, imps, refs, target, limit, refs.len() + 1).found.len(),
        walk_after(defs, imps, refs, target, limit, refs.len() + 1).found[k].1 < limit,
        0 <= j < refs.len(),
        refs[j].kind == RefKind::Call,
        inside_callable(defs, walk_after(defs, imps, refs, target, limit, refs.len() + 1).found[k].0, refs[j]),
    ensures
        has_entry(walk_after(defs, imps, refs, target, limit, refs.len() + 1).entries, refs[j].name@),
{
    let nn = (refs.len() + 1) as nat;
    let wn = walk_after(defs, imps, refs, target, limit, nn);
    lemma_walk_inv(defs, imps, refs, target, limit, nn);
    lemma_found_bound(ref_names(refs), target, wn.found);
    assert(ref_names(refs).len() == refs.len());
    let kk = k as nat;
    lemma_walk_inv(defs, imps, refs, target, limit, kk);
    let wk = walk_after(defs, imps, refs, target, limit, kk);
    if wk.head >= wk.found.len() {
        lemma_walk_done(defs, imps, refs, target, limit, kk, nn);
        assert(false);
    }
    assert(wk.head == k);
    lemma_steps_kept(defs, imps, refs, target, limit, kk, nn);
    assert(wk.found[k] == wn.found[k]);
    lemma_fold_covers(defs, imps, wk.found[k].0, wk.found[k].1, refs, wk);
    let w1 = walk_after(defs, imps, refs, target, limit, kk + 1);
    assert(has_entry(w1.entries, refs[j].name@));
    lemma_steps_kept(defs, imps, refs, target, limit, kk + 1, nn);
    let i = choose|i: int| 0 <= i < w1.entries.len() && (#[trigger] w1.entries[i]).name == refs[j].name@;
    assert(wn.entries[i].name == w1.entries[i].name);
}

/// `callees` walks as far as asked: every name called from inside the
/// target's functions is an entry when `depth` is at least 1, and every
/// entry fewer than `min(depth, HARD_CAP)` calls away has an entry for each
/// name called from inside its functions.
pub proof fn lemma_callees_reach(
    defs: Seq<Definition>,
    imps: Seq<Import>,
    refs: Seq<Reference>,
    target: Seq<char>,
    depth: usize,
)
    ensures
        ({
            let es = callee_entries(defs, imps, refs, target, depth);
            &&& 1 <= depth ==> forall|j: int|
                0 <= j < refs.len() && (#[trigger] refs[j]).kind == RefKind::Call && inside_callable(
                    defs,
                    target,
                    refs[j],
                ) ==> has_entry(es, refs[j].name@)
            &&& forall|i: int, j: int|
                #![trigger es[i], refs[j]]
                0 <= i < es.len() && es[i].distance < depth && es[i].distance < HARD_CAP && 0 <= j
                    < refs.len() && refs[j].kind == RefKind::Call && inside_callable(defs, es[i].name, refs[j])
                    ==> has_entry(es, refs[j].name@)
        }),
{
    let limit = depth_limit(depth);
    let nn = (refs.len() + 1) as nat;
    let wn = walk_after(defs, imps, refs, target, limit, nn);
    let es = wn.entries;
    lemma_walk_inv(defs, imps, refs, target, limit, nn);
    if 1 <= depth {
        assert forall|j: int|
            0 <= j < refs.len() && (#[trigger] refs[j]).kind == RefKind::Call && inside_callable(
                defs,
                target,
                refs[j],
            ) implies has_entry(es, refs[j].name@) by {
            lemma_expanded(defs, imps, refs, target, limit, 0, j);
        }
    }
    assert forall|i: int, j: int|
        #![trigger es[i], refs[j]]
        0 <= i < es.len() && es[i].distance < depth && es[i].distance < HARD_CAP && 0 <= j < refs.len()
            && refs[j].kind == RefKind::Call && inside_callable(defs, es[i].name, refs[j]) implies has_entry(
        es,
        refs[j].name@,
    ) by {
        assert(found_within(wn.found, es[i].name, es[i].distance));
        let k = choose|k: int| 0 <= k < wn.found.len() && (#[trigger] wn.found[k]).0 == es[i].name
            && wn.found[k].1 <= es[i].distance;
        lemma_expanded(defs, imps, refs, target, limit, k, j);
    }
}

} // verus!
