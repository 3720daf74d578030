//! `callers`: the functions and methods that call a function, grouped by
//! caller, with the call sites inside each and the weakest confidence seen.
use vstd::prelude::*;

use crate::graph::walk::{
    lemma_fold_keeps, def_names, found_contains, found_name, found_ok, found_view, lemma_def_name,
    lemma_found_bound, lemma_found_push, lemma_found_start,
};
use crate::graph::{call_site, site_of, site_views, CallSite, CallSiteView};
use crate::index::{enclosing_of, is_innermost, DefKind, Definition, Import, Index, RefKind, Reference};
use crate::order::{stable_sort, stable_sorted, Ranked};
use crate::resolve::{confidence_text, reason_text, refs_named, resolution, resolve_refs};
use crate::text::{lemma_seq_lt_irrefl, lemma_seq_lt_total, lemma_seq_lt_trans, seq_lt, str_eq, str_less};

verus! {

/// A function or method that calls the target, or, past the first hop, one
/// of its callers.
#[derive(Debug)]
pub struct CallerEntry {
    pub file: String,
    pub line: usize,
    pub column: usize,
    pub name: String,
    /// `fn` or `method`.
    pub kind: &'static str,
    pub confidence: &'static str,
    pub reason: &'static str,
    /// Calls away from the target: 1 for direct callers.
    pub distance: usize,
    /// The call sites inside this caller.
    pub sites: Vec<CallSite>,
}

pub struct CallerEntryView {
    pub file: Seq<char>,
    pub line: usize,
    pub column: usize,
    pub name: Seq<char>,
    pub kind: Seq<char>,
    pub confidence: Seq<char>,
    pub reason: Seq<char>,
    pub distance: int,
    pub sites: Seq<CallSiteView>,
}

impl View for CallerEntry {
    type V = CallerEntryView;

    open spec fn view(&self) -> CallerEntryView {
        CallerEntryView {
            file: self.file@,
            line: self.line,
            column: self.column,
            name: self.name@,
            kind: self.kind@,
            confidence: self.confidence@,
            reason: self.reason@,
            distance: self.distance as int,
            sites: site_views(self.sites@),
        }
    }
}

pub open spec fn views(s: Seq<CallerEntry>) -> Seq<CallerEntryView> {
    s.map_values(|e: CallerEntry| e@)
}

/// The order of confidences: high above medium above anything else.
pub open spec fn confidence_rank_of(c: Seq<char>) -> int {
    if c == "high"@ {
        3
    } else if c == "medium"@ {
        2
    } else {
        1
    }
}

/// The rank of a confidence text.
pub fn confidence_rank(c: &str) -> (res: u8)
    ensures
        res == confidence_rank_of(c@),
{
    if str_eq(c, "high") {
        3
    } else if str_eq(c, "medium") {
        2
    } else {
        1
    }
}

/// Callers are keyed by the place of their definition.
pub open spec fn same_key(a: CallerEntryView, b: CallerEntryView) -> bool {
    a.file == b.file && a.line == b.line && a.column == b.column
}

/// `k` is the first entry with the key of `e`.
pub open spec fn first_keyed(s: Seq<CallerEntryView>, e: CallerEntryView, k: int) -> bool {
    0 <= k < s.len() && same_key(s[k], e) && forall|j: int| 0 <= j < k ==> !same_key(s[j], e)
}

/// An entry after one more call site seen with `fresh`'s confidence: the
/// weaker confidence (with its reason) is kept, and the site is added.
pub open spec fn with_call(old: CallerEntryView, fresh: CallerEntryView, site: CallSiteView) -> CallerEntryView {
    let e = if confidence_rank_of(old.confidence) > confidence_rank_of(fresh.confidence) {
        CallerEntryView { confidence: fresh.confidence, reason: fresh.reason, ..old }
    } else {
        old
    };
    CallerEntryView { sites: e.sites.push(site), ..e }
}

/// Records a call site under its caller, adding `fresh` first when the
/// caller has no entry.
pub open spec fn add_call(s: Seq<CallerEntryView>, fresh: CallerEntryView, site: CallSiteView) -> Seq<
    CallerEntryView,
> {
    if exists|k: int| first_keyed(s, fresh, k) {
        let k = choose|k: int| first_keyed(s, fresh, k);
        s.update(k, with_call(s[k], fresh, site))
    } else {
        s.push(CallerEntryView { sites: seq![site], ..fresh })
    }
}

/// The entry for caller `e`, found through a call with the given
/// confidence and reason, at `distance`.
pub open spec fn fresh_caller(e: Definition, confidence: Seq<char>, reason: Seq<char>, distance: int) -> CallerEntryView {
    CallerEntryView {
        file: e.file@,
        line: e.line,
        column: e.column,
        name: e.name@,
        kind: if e.kind == DefKind::Method {
            "method"@
        } else {
            "fn"@
        },
        confidence,
        reason,
        distance,
        sites: Seq::empty(),
    }
}

pub struct CallerWalk {
    pub entries: Seq<CallerEntryView>,
    pub found: Seq<(Seq<char>, int)>,
    pub head: int,
}

/// A reference `r` to `cur` (reached at `dist`): when it is a call made in
/// a function or method, the site goes under that caller, reached at
/// `dist + 1`.
pub open spec fn visit_ref(
    defs: Seq<Definition>,
    imps: Seq<Import>,
    cur: Seq<char>,
    dist: int,
    w: CallerWalk,
    r: Reference,
) -> CallerWalk {
    if r.kind != RefKind::Call {
        w
    } else {
        match enclosing_of(defs, r.file@, r.byte_offset as int) {
            Some(e) => if e.kind == DefKind::Fn || e.kind == DefKind::Method {
                let res = resolution(defs, imps, cur, r.file@);
                CallerWalk {
                    entries: add_call(
                        w.entries,
                        fresh_caller(e, confidence_text(res.1), reason_text(res.2), dist + 1),
                        site_of(r),
                    ),
                    found: if found_name(w.found, e.name@) {
                        w.found
                    } else {
                        w.found.push((e.name@, dist + 1))
                    },
                    head: w.head,
                }
            } else {
                w
            },
            None => w,
        }
    }
}

pub open spec fn visitor(defs: Seq<Definition>, imps: Seq<Import>, cur: Seq<char>, dist: int) -> spec_fn(
    CallerWalk,
    Reference,
) -> CallerWalk {
    |w: CallerWalk, r: Reference| visit_ref(defs, imps, cur, dist, w, r)
}

/// Expands the next reached name: its references, in index order, unless
/// it lies at the requested depth.
pub open spec fn expand(
    defs: Seq<Definition>,
    imps: Seq<Import>,
    refs: Seq<Reference>,
    depth: int,
    w: CallerWalk,
) -> CallerWalk {
    if w.head < 0 || w.head >= w.found.len() {
        w
    } else {
        let cur = w.found[w.head].0;
        let dist = w.found[w.head].1;
        let w1 = if dist >= depth {
            w
        } else {
            refs_named(refs, cur).fold_left(w, visitor(defs, imps, cur, dist))
        };
        CallerWalk { head: w.head + 1, ..w1 }
    }
}

pub open spec fn walk_after(
    defs: Seq<Definition>,
    imps: Seq<Import>,
    refs: Seq<Reference>,
    target: Seq<char>,
    depth: int,
    n: nat,
) -> CallerWalk
    decreases n,
{
    if n == 0 {
        CallerWalk { entries: Seq::empty(), found: seq![(target, 0int)], head: 0 }
    } else {
        expand(defs, imps, refs, depth, walk_after(defs, imps, refs, target, depth, (n - 1) as nat))
    }
}

/// The entries of a finished walk from `target`, in the order found.
pub open spec fn caller_entries(
    defs: Seq<Definition>,
    imps: Seq<Import>,
    refs: Seq<Reference>,
    target: Seq<char>,
    depth: usize,
) -> Seq<CallerEntryView> {
    walk_after(defs, imps, refs, target, depth as int, defs.len() + 1).entries
}

pub proof fn lemma_walk_done(
    defs: Seq<Definition>,
    imps: Seq<Import>,
    refs: Seq<Reference>,
    target: Seq<char>,
    depth: int,
    m: nat,
    n: nat,
)
    requires
        m <= n,
        walk_after(defs, imps, refs, target, depth, m).head >= walk_after(
            defs,
            imps,
            refs,
            target,
            depth,
            m,
        ).found.len(),
    ensures
        walk_after(defs, imps, refs, target, depth, n) == walk_after(defs, imps, refs, target, depth, m),
    decreases n,
{
    if n > m {
        lemma_walk_done(defs, imps, refs, target, depth, m, (n - 1) as nat);
    }
}

/// Results come by file, line, then column.
impl Ranked for CallerEntry {
    open spec fn spec_rank_le(&self, other: &Self) -> bool {
        ||| seq_lt(self.file@, other.file@)
        ||| self.file@ == other.file@ && self.line < other.line
        ||| self.file@ == other.file@ && self.line == other.line && self.column <= other.column
    }

    fn rank_le(&self, other: &Self) -> (res: bool) {
        if !str_eq(self.file.as_str(), other.file.as_str()) {
            return str_less(self.file.as_str(), other.file.as_str());
        }
        proof {
            lemma_seq_lt_irrefl(self.file@);
        }
        if self.line != other.line {
            return self.line < other.line;
        }
        self.column <= other.column
    }

    proof fn rank_total(a: &Self, b: &Self) {
        lemma_seq_lt_total(a.file@, b.file@);
    }

    proof fn rank_trans(a: &Self, b: &Self, c: &Self) {
        if seq_lt(a.file@, b.file@) && seq_lt(b.file@, c.file@) {
            lemma_seq_lt_trans(a.file@, b.file@, c.file@);
        }
    }
}

/// Records a call site under its caller (see `add_call`).
fn record_call(entries: &mut Vec<CallerEntry>, fresh: CallerEntry, site: CallSite)
    requires
        fresh.sites@.len() == 0,
    ensures
        views(final(entries)@) == add_call(views(old(entries)@), fresh@, site@),
{
    let ghost s = views(entries@);
    let mut i: usize = 0;
    while i < entries.len()
        invariant
            i <= entries@.len(),
            s == views(entries@),
            s == views(old(entries)@),
            forall|j: int| 0 <= j < i ==> !same_key(#[trigger] entries@[j]@, fresh@),
        decreases entries@.len() - i,
    {
        if str_eq(entries[i].file.as_str(), fresh.file.as_str()) && entries[i].line == fresh.line
            && entries[i].column == fresh.column {
            proof {
                assert(s[i as int] == entries@[i as int]@);
                assert forall|j: int| 0 <= j < i implies !same_key(s[j], fresh@) by {
                    assert(s[j] == entries@[j]@);
                }
                assert(first_keyed(s, fresh@, i as int));
                let k = choose|k: int| first_keyed(s, fresh@, k);
                assert(k == i);
            }
            let ghost old_entry = entries@[i as int];
            if confidence_rank(entries[i].confidence) > confidence_rank(fresh.confidence) {
                entries[i].confidence = fresh.confidence;
                entries[i].reason = fresh.reason;
            }
            let ghost mid = entries@[i as int];
            entries[i].sites.push(site);
            proof {
                assert(site_views(entries@[i as int].sites@) =~= site_views(mid.sites@).push(site@));
                assert(entries@[i as int]@ == with_call(old_entry@, fresh@, site@));
                assert(views(entries@) =~= s.update(i as int, with_call(s[i as int], fresh@, site@)));
                assert(first_keyed(s, fresh@, i as int));
                assert(views(entries@) == add_call(s, fresh@, site@));
            }
            return;
        }
        i = i + 1;
    }
    proof {
        assert forall|k: int| !first_keyed(s, fresh@, k) by {
            if 0 <= k < s.len() {
                assert(s[k] == entries@[k]@);
            }
        }
    }
    let mut e = fresh;
    e.sites.push(site);
    assert(site_views(e.sites@) =~= seq![site@]);
    entries.push(e);
    assert(views(entries@) =~= s.push(CallerEntryView { sites: seq![site@], ..fresh@ }));
}

/// The callers of `name`: for every call to it made inside a function or
/// method, that function, once per definition, with its call sites and the
/// weakest confidence among them; then, up to `depth` calls away, the
/// callers of those, breadth first. Sorted by file, line and column.
pub fn callers(idx: &Index, name: &str, depth: usize) -> (res: Vec<CallerEntry>)
    ensures
        exists|u: Seq<CallerEntry>|
            #![trigger stable_sorted(u, res@)]
            views(u) == caller_entries(idx.definitions@, idx.imports@, idx.references@, name@, depth)
                && stable_sorted(u, res@),
{
    let ghost defs = idx.definitions@;
    let ghost imps = idx.imports@;
    let ghost refs = idx.references@;
    let mut entries: Vec<CallerEntry> = Vec::new();
    let mut found: Vec<(String, usize)> = Vec::new();
    found.push((name.to_owned(), 0));
    let mut head: usize = 0;
    proof {
        lemma_found_start(def_names(defs), name@);
        assert(found_view(found@) =~= seq![(name@, 0int)]);
        assert(views(entries@) =~= Seq::<CallerEntryView>::empty());
    }
    while head < found.len()
        invariant
            defs == idx.definitions@,
            imps == idx.imports@,
            refs == idx.references@,
            head <= found@.len(),
            forall|k: int| 0 <= k < found@.len() ==> #[trigger] found@[k].1 <= depth as int,
            found_ok(def_names(defs), name@, found_view(found@)),
            walk_after(defs, imps, refs, name@, depth as int, head as nat) == (CallerWalk {
                entries: views(entries@),
                found: found_view(found@),
                head: head as int,
            }),
        decreases defs.len() + 1 - head,
    {
        proof {
            lemma_found_bound(def_names(defs), name@, found_view(found@));
        }
        let ghost w0 = walk_after(defs, imps, refs, name@, depth as int, head as nat);
        let cur = found[head].0.clone();
        let dist = found[head].1;
        assert(w0.found[head as int] == (cur@, dist as int));
        if dist < depth {
            let resolved = resolve_refs(idx, cur.as_str());
            let ghost named = refs_named(refs, cur@);
            let ghost f = visitor(defs, imps, cur@, dist as int);
            let mut j: usize = 0;
            assert(named.take(0) =~= Seq::<Reference>::empty());
            while j < resolved.len()
                invariant
                    defs == idx.definitions@,
                    imps == idx.imports@,
                    refs == idx.references@,
                    named == refs_named(refs, cur@),
                    f == visitor(defs, imps, cur@, dist as int),
                    dist < depth,
                    head < found@.len(),
                    j <= resolved@.len(),
                    resolved@.len() == named.len(),
                    forall|k: int|
                        #![trigger resolved@[k]]
                        0 <= k < resolved@.len() ==> {
                            let r = named[k];
                            &&& *resolved@[k].reference == r
                            &&& (resolved@[k].confidence, resolved@[k].reason) == (
                                resolution(defs, imps, cur@, r.file@).1,
                                resolution(defs, imps, cur@, r.file@).2,
                            )
                        },
                    forall|k: int| 0 <= k < found@.len() ==> #[trigger] found@[k].1 <= depth as int,
                    found_ok(def_names(defs), name@, found_view(found@)),
                    named.take(j as int).fold_left(w0, f) == (CallerWalk {
                        entries: views(entries@),
                        found: found_view(found@),
                        head: head as int,
                    }),
                decreases resolved@.len() - j,
            {
                let rs = &resolved[j];
                let r = rs.reference;
                assert(named.take(j + 1).drop_last() =~= named.take(j as int));
                assert(named.take(j + 1).last() == *r);
                if r.kind == RefKind::Call {
                    match idx.enclosing_definition(r.file.as_str(), r.byte_offset) {
                        None => {},
                        Some(e) => {
                            if e.kind == DefKind::Fn || e.kind == DefKind::Method {
                                let fresh = CallerEntry {
                                    file: e.file.clone(),
                                    line: e.line,
                                    column: e.column,
                                    name: e.name.clone(),
                                    kind: if e.kind == DefKind::Method {
                                        "method"
                                    } else {
                                        "fn"
                                    },
                                    confidence: rs.confidence.as_str(),
                                    reason: rs.reason.as_str(),
                                    distance: dist + 1,
                                    sites: Vec::new(),
                                };
                                proof {
                                    let fc = fresh_caller(
                                        *e,
                                        confidence_text(rs.confidence),
                                        reason_text(rs.reason),
                                        dist + 1,
                                    );
                                    assert(fresh@.kind == fc.kind);
                                    assert(fresh@.sites =~= fc.sites);
                                    assert(fresh@ == fc);
                                }
                                record_call(&mut entries, fresh, call_site(r));
                                if !found_contains(&found, e.name.as_str()) {
                                    proof {
                                        let k = choose|k: int|
                                            is_innermost(defs, r.file@, r.byte_offset as int, k)
                                                && *e == defs[k];
                                        lemma_def_name(defs, k);
                                        lemma_found_push(
                                            def_names(defs),
                                            name@,
                                            found_view(found@),
                                            e.name@,
                                            dist + 1,
                                        );
                                    }
                                    let ghost fbefore = found_view(found@);
                                    found.push((e.name.clone(), dist + 1));
                                    assert(found_view(found@) =~= fbefore.push((e.name@, dist + 1)));
                                }
                            }
                        },
                    }
                }
                j = j + 1;
            }
            assert(named.take(j as int) =~= named);
        }
        head = head + 1;
    }
    proof {
        lemma_found_bound(def_names(defs), name@, found_view(found@));
        lemma_walk_done(defs, imps, refs, name@, depth as int, head as nat, defs.len() + 1);
    }
    let ghost u = entries@;
    let res = stable_sort(entries);
    assert(stable_sorted(u, res@));
    res
}

// ---------------------------------------------------------------------------
// What every walk keeps
// ---------------------------------------------------------------------------
/// No two entries share a key; every entry is a function or method 1 to
/// `depth` calls away; every reached name is at most `depth` away.
pub open spec fn walk_ok(depth: int, w: CallerWalk) -> bool {
    &&& forall|i: int, j: int|
        0 <= i < j < w.entries.len() ==> !same_key(#[trigger] w.entries[i], #[trigger] w.entries[j])
    &&& forall|i: int|
        0 <= i < w.entries.len() ==> 1 <= (#[trigger] w.entries[i]).distance <= depth && (
        w.entries[i].kind == "fn"@ || w.entries[i].kind == "method"@)
    &&& forall|k: int| 0 <= k < w.found.len() ==> 0 <= (#[trigger] w.found[k]).1 <= depth
}

/// When some entry has `e`'s key, a first one does.
proof fn lemma_first_keyed_exists(s: Seq<CallerEntryView>, e: CallerEntryView, j: int)
    requires
        0 <= j < s.len(),
        same_key(s[j], e),
    ensures
        exists|k: int| first_keyed(s, e, k),
    decreases j,
{
    if forall|i: int| 0 <= i < j ==> !same_key(s[i], e) {
        assert(first_keyed(s, e, j));
    } else {
        let i = choose|i: int| 0 <= i < j && same_key(s[i], e);
        lemma_first_keyed_exists(s, e, i);
    }
}

proof fn lemma_add_call_keeps(depth: int, w: CallerWalk, fresh: CallerEntryView, site: CallSiteView)
    requires
        walk_ok(depth, w),
        1 <= fresh.distance <= depth,
        fresh.kind == "fn"@ || fresh.kind == "method"@,
    ensures
        walk_ok(depth, CallerWalk { entries: add_call(w.entries, fresh, site), ..w }),
{
    let s = w.entries;
    let t = add_call(s, fresh, site);
    if exists|k: int| first_keyed(s, fresh, k) {
        let k = choose|k: int| first_keyed(s, fresh, k);
        assert forall|i: int, j: int| 0 <= i < j < t.len() implies !same_key(
            #[trigger] t[i],
            #[trigger] t[j],
        ) by {
            assert(same_key(t[i], s[i]) && same_key(t[j], s[j]));
        }
        assert forall|i: int| 0 <= i < t.len() implies 1 <= (#[trigger] t[i]).distance <= depth && (
        t[i].kind == "fn"@ || t[i].kind == "method"@) by {
            assert(t[i].distance == s[i].distance && t[i].kind == s[i].kind);
        }
    } else {
        assert forall|i: int, j: int| 0 <= i < j < t.len() implies !same_key(
            #[trigger] t[i],
            #[trigger] t[j],
        ) by {
            if j == s.len() {
                assert(t[i] == s[i]);
                if same_key(s[i], fresh) {
                    lemma_first_keyed_exists(s, fresh, i);
                }
            } else {
                assert(t[i] == s[i] && t[j] == s[j]);
            }
        }
        assert forall|i: int| 0 <= i < t.len() implies 1 <= (#[trigger] t[i]).distance <= depth && (
        t[i].kind == "fn"@ || t[i].kind == "method"@) by {
            if i < s.len() {
                assert(t[i] == s[i]);
            }
        }
    }
}

proof fn lemma_visit_keeps(
    defs: Seq<Definition>,
    imps: Seq<Import>,
    depth: int,
    cur: Seq<char>,
    dist: int,
    w: CallerWalk,
    r: Reference,
)
    requires
        0 <= dist < depth,
        walk_ok(depth, w),
    ensures
        walk_ok(depth, visit_ref(defs, imps, cur, dist, w, r)),
{
    if r.kind == RefKind::Call {
        match enclosing_of(defs, r.file@, r.byte_offset as int) {
            Some(e) => if e.kind == DefKind::Fn || e.kind == DefKind::Method {
                let res = resolution(defs, imps, cur, r.file@);
                let fresh = fresh_caller(e, confidence_text(res.1), reason_text(res.2), dist + 1);
                lemma_add_call_keeps(depth, w, fresh, site_of(r));
                let w2 = visit_ref(defs, imps, cur, dist, w, r);
                assert(w2.entries == add_call(w.entries, fresh, site_of(r)));
                assert forall|k: int| 0 <= k < w2.found.len() implies 0 <= (#[trigger] w2.found[k]).1
                    <= depth by {
                    if k < w.found.len() {
                        assert(w2.found[k] == w.found[k]);
                    }
                }
                let w3 = CallerWalk { entries: add_call(w.entries, fresh, site_of(r)), ..w };
                assert(w3.entries == w2.entries);
                assert(forall|i: int, j: int|
                    0 <= i < j < w2.entries.len() ==> !same_key(#[trigger] w2.entries[i], #[trigger] w2.entries[j]));
                assert(forall|i: int|
                    0 <= i < w2.entries.len() ==> 1 <= (#[trigger] w2.entries[i]).distance <= depth && (
                    w2.entries[i].kind == "fn"@ || w2.entries[i].kind == "method"@));
            },
            None => {},
        }
    }
}

proof fn lemma_walk_ok(
    defs: Seq<Definition>,
    imps: Seq<Import>,
    refs: Seq<Reference>,
    target: Seq<char>,
    depth: int,
    n: nat,
)
    requires
        depth >= 0,
    ensures
        walk_ok(depth, walk_after(defs, imps, refs, target, depth, n)),
    decreases n,
{
    if n > 0 {
        lemma_walk_ok(defs, imps, refs, target, depth, (n - 1) as nat);
        let w = walk_after(defs, imps, refs, target, depth, (n - 1) as nat);
        if 0 <= w.head < w.found.len() {
            let cur = w.found[w.head].0;
            let dist = w.found[w.head].1;
            if dist < depth {
                let f = visitor(defs, imps, cur, dist);
                let p = |x: CallerWalk| walk_ok(depth, x);
                assert forall|x: CallerWalk, r: Reference| p(x) implies #[trigger] p(f(x, r)) by {
                    lemma_visit_keeps(defs, imps, depth, cur, dist, x, r);
                }
                lemma_fold_keeps(refs_named(refs, cur), w, f, p);
            }
        }
    }
}

/// What `callers` reports, whatever the index: each caller (by the place of
/// its definition) once, as a `fn` or `method`, 1 to `depth` calls away.
pub proof fn lemma_callers_shape(
    defs: Seq<Definition>,
    imps: Seq<Import>,
    refs: Seq<Reference>,
    target: Seq<char>,
    depth: usize,
)
    ensures
        ({
            let es = caller_entries(defs, imps, refs, target, depth);
            &&& forall|i: int, j: int|
                0 <= i < j < es.len() ==> !same_key(#[trigger] es[i], #[trigger] es[j])
            &&& forall|i: int|
                0 <= i < es.len() ==> 1 <= (#[trigger] es[i]).distance <= depth && (es[i].kind
                    == "fn"@ || es[i].kind == "method"@)
        }),
{
    lemma_walk_ok(defs, imps, refs, target, depth as int, defs.len() + 1);
}

} // verus!
