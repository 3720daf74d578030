//! `impact`: what may be affected by changing a symbol — its definitions,
//! and, breadth first, the definitions that use it, transitively through
//! calls made from functions and methods.
use vstd::prelude::*;

use crate::graph::kind_label;
use crate::graph::walk::{
    lemma_fold_keeps, found_names, def_names, found_contains, found_name, found_ok, found_view, lemma_def_name,
    lemma_found_bound, lemma_found_push, lemma_found_start,
};
use crate::index::{def_kind_text, enclosing_of, is_innermost, DefKind, Definition, Import, Index, RefKind, Reference};
use crate::order::{stable_sort, stable_sorted, Ranked};
use crate::resolve::{
    confidence_text, has_name, reason_text, refs_named, resolution, resolve_refs, Confidence, ResolveReason,
};
use crate::text::{lemma_seq_lt_irrefl, lemma_seq_lt_total, lemma_seq_lt_trans, seq_le, seq_lt, str_eq, str_less};

verus! {

/// How far, in calls, the walk goes.
pub const MAX_DEPTH: usize = 6;

/// A definition that may be affected, and how it was reached.
#[derive(Debug)]
pub struct ImpactEntry {
    pub name: String,
    pub kind: &'static str,
    pub file: String,
    pub line: usize,
    pub distance: usize,
    pub confidence: &'static str,
    pub reason: &'static str,
}

pub struct ImpactEntryView {
    pub name: Seq<char>,
    pub kind: Seq<char>,
    pub file: Seq<char>,
    pub line: usize,
    pub distance: int,
    pub confidence: Seq<char>,
    pub reason: Seq<char>,
}

impl View for ImpactEntry {
    type V = ImpactEntryView;

    open spec fn view(&self) -> ImpactEntryView {
        ImpactEntryView {
            name: self.name@,
            kind: self.kind@,
            file: self.file@,
            line: self.line,
            distance: self.distance as int,
            confidence: self.confidence@,
            reason: self.reason@,
        }
    }
}

pub open spec fn views(s: Seq<ImpactEntry>) -> Seq<ImpactEntryView> {
    s.map_values(|e: ImpactEntry| e@)
}

/// Entries are keyed by (name, file, line).
pub open spec fn same_key(a: ImpactEntryView, b: ImpactEntryView) -> bool {
    a.name == b.name && a.file == b.file && a.line == b.line
}

/// `entries` with `e` added, unless an entry with its key is there already.
pub open spec fn insert_new(entries: Seq<ImpactEntryView>, e: ImpactEntryView) -> Seq<ImpactEntryView> {
    if exists|k: int| 0 <= k < entries.len() && same_key(entries[k], e) {
        entries
    } else {
        entries.push(e)
    }
}

/// The entry for definition `d` reached at `distance`.
pub open spec fn entry_for(d: Definition, distance: int, c: Confidence, r: ResolveReason) -> ImpactEntryView {
    ImpactEntryView {
        name: d.name@,
        kind: def_kind_text(d.kind),
        file: d.file@,
        line: d.line,
        distance,
        confidence: confidence_text(c),
        reason: reason_text(r),
    }
}

/// The definitions of `target`, each at distance 0.
pub open spec fn seed_entries(defs: Seq<Definition>, target: Seq<char>) -> Seq<ImpactEntryView>
    decreases defs.len(),
{
    if defs.len() == 0 {
        Seq::empty()
    } else {
        let prev = seed_entries(defs.drop_last(), target);
        if defs.last().name@ == target {
            insert_new(
                prev,
                entry_for(defs.last(), 0, Confidence::High, ResolveReason::SameFileScope),
            )
        } else {
            prev
        }
    }
}

/// The state of the walk: the entries so far, the names reached (in the
/// order reached, with their distance), and how many of them were expanded.
pub struct Walk {
    pub entries: Seq<ImpactEntryView>,
    pub found: Seq<(Seq<char>, int)>,
    pub head: int,
}

/// A definition of a function or method, whose calls carry impact on.
pub open spec fn is_callable(k: DefKind) -> bool {
    k == DefKind::Fn || k == DefKind::Method
}

/// A reference `r` to `cur` (reached at `dist`): the definition enclosing it
/// is an entry at `dist + 1`; when `r` is a call from a function or method
/// not reached yet, that function is reached at `dist + 1`.
pub open spec fn visit_ref(
    defs: Seq<Definition>,
    imps: Seq<Import>,
    cur: Seq<char>,
    dist: int,
    w: Walk,
    r: Reference,
) -> Walk {
    match enclosing_of(defs, r.file@, r.byte_offset as int) {
        None => w,
        Some(e) => {
            let res = resolution(defs, imps, cur, r.file@);
            let entries = insert_new(w.entries, entry_for(e, dist + 1, res.1, res.2));
            let grows = r.kind == RefKind::Call && is_callable(e.kind) && !found_name(
                w.found,
                e.name@,
            );
            Walk {
                entries,
                found: if grows {
                    w.found.push((e.name@, dist + 1))
                } else {
                    w.found
                },
                head: w.head,
            }
        },
    }
}

pub open spec fn visitor(defs: Seq<Definition>, imps: Seq<Import>, cur: Seq<char>, dist: int) -> spec_fn(
    Walk,
    Reference,
) -> Walk {
    |w: Walk, r: Reference| visit_ref(defs, imps, cur, dist, w, r)
}

/// Expands the next reached name: its references, in index order, unless
/// it lies at the depth limit.
pub open spec fn expand(defs: Seq<Definition>, imps: Seq<Import>, refs: Seq<Reference>, w: Walk) -> Walk {
    if w.head < 0 || w.head >= w.found.len() {
        w
    } else {
        let cur = w.found[w.head].0;
        let dist = w.found[w.head].1;
        let w1 = if dist >= MAX_DEPTH {
            w
        } else {
            refs_named(refs, cur).fold_left(w, visitor(defs, imps, cur, dist))
        };
        Walk { head: w.head + 1, ..w1 }
    }
}

/// The walk after `n` expansions.
pub open spec fn walk_after(
    defs: Seq<Definition>,
    imps: Seq<Import>,
    refs: Seq<Reference>,
    target: Seq<char>,
    n: nat,
) -> Walk
    decreases n,
{
    if n == 0 {
        Walk { entries: seed_entries(defs, target), found: seq![(target, 0int)], head: 0 }
    } else {
        expand(defs, imps, refs, walk_after(defs, imps, refs, target, (n - 1) as nat))
    }
}

/// The entries of a finished walk from `target`, in the order found.
pub open spec fn impact_entries(
    defs: Seq<Definition>,
    imps: Seq<Import>,
    refs: Seq<Reference>,
    target: Seq<char>,
) -> Seq<ImpactEntryView> {
    walk_after(defs, imps, refs, target, defs.len() + 1).entries
}

/// Once every reached name is expanded, further expansions change nothing.
pub proof fn lemma_walk_done(
    defs: Seq<Definition>,
    imps: Seq<Import>,
    refs: Seq<Reference>,
    target: Seq<char>,
    m: nat,
    n: nat,
)
    requires
        m <= n,
        walk_after(defs, imps, refs, target, m).head >= walk_after(defs, imps, refs, target, m).found.len(),
    ensures
        walk_after(defs, imps, refs, target, n) == walk_after(defs, imps, refs, target, m),
    decreases n,
{
    if n > m {
        lemma_walk_done(defs, imps, refs, target, m, (n - 1) as nat);
    }
}

/// Results come by distance, then file, then line, then name.
impl Ranked for ImpactEntry {
    open spec fn spec_rank_le(&self, other: &Self) -> bool {
        ||| self.distance < other.distance
        ||| self.distance == other.distance && seq_lt(self.file@, other.file@)
        ||| self.distance == other.distance && self.file@ == other.file@ && self.line < other.line
        ||| self.distance == other.distance && self.file@ == other.file@ && self.line == other.line
            && seq_le(self.name@, other.name@)
    }

    fn rank_le(&self, other: &Self) -> (res: bool) {
        if self.distance != other.distance {
            return self.distance < other.distance;
        }
        if !str_eq(self.file.as_str(), other.file.as_str()) {
            return str_less(self.file.as_str(), other.file.as_str());
        }
        proof {
            lemma_seq_lt_irrefl(self.file@);
        }
        if self.line != other.line {
            return self.line < other.line;
        }
        str_less(self.name.as_str(), other.name.as_str()) || str_eq(
            self.name.as_str(),
            other.name.as_str(),
        )
    }

    proof fn rank_total(a: &Self, b: &Self) {
        lemma_seq_lt_total(a.file@, b.file@);
        lemma_seq_lt_total(a.name@, b.name@);
    }

    proof fn rank_trans(a: &Self, b: &Self, c: &Self) {
        if seq_lt(a.file@, b.file@) && seq_lt(b.file@, c.file@) {
            lemma_seq_lt_trans(a.file@, b.file@, c.file@);
        }
        if seq_lt(a.name@, b.name@) && seq_lt(b.name@, c.name@) {
            lemma_seq_lt_trans(a.name@, b.name@, c.name@);
        }
    }
}

/// Adds `e` unless an entry with its key is there.
fn add_entry(entries: &mut Vec<ImpactEntry>, e: ImpactEntry)
    ensures
        views(final(entries)@) == insert_new(views(old(entries)@), e@),
{
    let mut i: usize = 0;
    while i < entries.len()
        invariant
            i <= entries@.len(),
            forall|k: int| 0 <= k < i ==> !same_key(#[trigger] entries@[k]@, e@),
        decreases entries@.len() - i,
    {
        let x = &entries[i];
        if str_eq(x.name.as_str(), e.name.as_str()) && str_eq(x.file.as_str(), e.file.as_str())
            && x.line == e.line {
            assert(same_key(views(entries@)[i as int], e@));
            return;
        }
        i = i + 1;
    }
    proof {
        assert forall|k: int| 0 <= k < views(entries@).len() implies !same_key(
            views(entries@)[k],
            e@,
        ) by {
            assert(views(entries@)[k] == entries@[k]@);
        }
    }
    let ghost before = views(entries@);
    entries.push(e);
    assert(views(entries@) =~= before.push(e@));
}

fn entry_of(d: &Definition, distance: usize, c: Confidence, r: ResolveReason) -> (res: ImpactEntry)
    ensures
        res@ == entry_for(*d, distance as int, c, r),
{
    ImpactEntry {
        name: d.name.clone(),
        kind: kind_label(d.kind),
        file: d.file.clone(),
        line: d.line,
        distance,
        confidence: c.as_str(),
        reason: r.as_str(),
    }
}

/// The definitions of `target`, then every definition holding a reference
/// to a name reached, breadth first up to `MAX_DEPTH` calls away; each
/// (name, file, line) once, at the distance it was first reached. Sorted by
/// distance, file, line and name.
pub fn impact(idx: &Index, target: &str) -> (res: Vec<ImpactEntry>)
    ensures
        exists|u: Seq<ImpactEntry>|
            #![trigger stable_sorted(u, res@)]
            views(u) == impact_entries(idx.definitions@, idx.imports@, idx.references@, target@)
                && stable_sorted(u, res@),
{
    let ghost defs = idx.definitions@;
    let ghost imps = idx.imports@;
    let ghost refs = idx.references@;
    let mut entries: Vec<ImpactEntry> = Vec::new();
    let mut i: usize = 0;
    while i < idx.definitions.len()
        invariant
            i <= defs.len(),
            defs == idx.definitions@,
            views(entries@) == seed_entries(defs.take(i as int), target@),
        decreases defs.len() - i,
    {
        let d = &idx.definitions[i];
        assert(defs.take(i + 1).drop_last() =~= defs.take(i as int));
        if str_eq(d.name.as_str(), target) {
            add_entry(&mut entries, entry_of(d, 0, Confidence::High, ResolveReason::SameFileScope));
        }
        i = i + 1;
    }
    assert(defs.take(i as int) =~= defs);
    let mut found: Vec<(String, usize)> = Vec::new();
    found.push((target.to_owned(), 0));
    let mut head: usize = 0;
    assert(found_view(found@) =~= seq![(target@, 0int)]);
    assert(walk_after(defs, imps, refs, target@, 0) == Walk {
        entries: views(entries@),
        found: found_view(found@),
        head: 0,
    });
    proof {
        lemma_found_start(def_names(defs), target@);
    }
    while head < found.len()
        invariant
            defs == idx.definitions@,
            imps == idx.imports@,
            refs == idx.references@,
            head <= found@.len(),
            forall|k: int| 0 <= k < found@.len() ==> #[trigger] found@[k].1 <= MAX_DEPTH,
            found_ok(def_names(defs), target@, found_view(found@)),
            walk_after(defs, imps, refs, target@, head as nat) == (Walk {
                entries: views(entries@),
                found: found_view(found@),
                head: head as int,
            }),
        decreases defs.len() + 1 - head,
    {
        proof {
            lemma_found_bound(def_names(defs), target@, found_view(found@));
        }
        let ghost w0 = walk_after(defs, imps, refs, target@, head as nat);
        let cur = found[head].0.clone();
        let dist = found[head].1;
        assert(w0.found[head as int] == (cur@, dist as int));
        if dist < MAX_DEPTH {
            let resolved = resolve_refs(idx, cur.as_str());
            let ghost named = refs_named(refs, cur@);
            let ghost f = visitor(defs, imps, cur@, dist as int);
            let mut j: usize = 0;
            assert(named.take(0) =~= Seq::<Reference>::empty());
            while j < resolved.len()
                invariant
                    defs == idx.definitions@,
                    imps == idx.imports@,
                    refs == idx.references@,
                    named == refs_named(refs, cur@),
                    f == visitor(defs, imps, cur@, dist as int),
                    dist < MAX_DEPTH,
                    head < found@.len(),
                    j <= resolved@.len(),
                    resolved@.len() == named.len(),
                    forall|k: int|
                        #![trigger resolved@[k]]
                        0 <= k < resolved@.len() ==> {
                            let r = named[k];
                            &&& *resolved@[k].reference == r
                            &&& (resolved@[k].confidence, resolved@[k].reason) == (
                                resolution(defs, imps, cur@, r.file@).1,
                                resolution(defs, imps, cur@, r.file@).2,
                            )
                        },
                    forall|k: int| 0 <= k < found@.len() ==> #[trigger] found@[k].1 <= MAX_DEPTH,
                    found_ok(def_names(defs), target@, found_view(found@)),
                    named.take(j as int).fold_left(w0, f) == (Walk {
                        entries: views(entries@),
                        found: found_view(found@),
                        head: head as int,
                    }),
                decreases resolved@.len() - j,
            {
                let rs = &resolved[j];
                let r = rs.reference;
                let ghost before = Walk {
                    entries: views(entries@),
                    found: found_view(found@),
                    head: head as int,
                };
                assert(named.take(j + 1).drop_last() =~= named.take(j as int));
                assert(named.take(j + 1).last() == *r);
                match idx.enclosing_definition(r.file.as_str(), r.byte_offset) {
                    None => {},
                    Some(e) => {
                        add_entry(&mut entries, entry_of(e, dist + 1, rs.confidence, rs.reason));
                        if r.kind == RefKind::Call && (e.kind == DefKind::Fn || e.kind
                            == DefKind::Method) && !found_contains(&found, e.name.as_str()) {
                            proof {
                                let k = choose|k: int|
                                    is_innermost(defs, r.file@, r.byte_offset as int, k) && *e
                                        == defs[k];
                                lemma_def_name(defs, k);
                                lemma_found_push(
                                    def_names(defs),
                                    target@,
                                    found_view(found@),
                                    e.name@,
                                    dist + 1,
                                );
                            }
                            let ghost fbefore = found_view(found@);
                            found.push((e.name.clone(), dist + 1));
                            assert(found_view(found@) =~= fbefore.push((e.name@, dist + 1)));
                        }
                    },
                }
                j = j + 1;
            }
            assert(named.take(j as int) =~= named);
        }
        head = head + 1;
    }
    proof {
        lemma_found_bound(def_names(defs), target@, found_view(found@));
        lemma_walk_done(defs, imps, refs, target@, head as nat, defs.len() + 1);
    }
    let ghost u = entries@;
    let res = stable_sort(entries);
    assert(stable_sorted(u, res@));
    res
}

// ---------------------------------------------------------------------------
// What every walk keeps
// ---------------------------------------------------------------------------
/// No two entries share a key; every entry is 0 to `MAX_DEPTH` calls away,
/// and only the target's own definitions are 0 away; every reached name is
/// at most `MAX_DEPTH` away.
pub open spec fn walk_ok(target: Seq<char>, w: Walk) -> bool {
    &&& forall|i: int, j: int|
        0 <= i < j < w.entries.len() ==> !same_key(#[trigger] w.entries[i], #[trigger] w.entries[j])
    &&& forall|i: int|
        0 <= i < w.entries.len() ==> 0 <= (#[trigger] w.entries[i]).distance <= MAX_DEPTH && (
        w.entries[i].distance == 0 ==> w.entries[i].name == target)
    &&& forall|k: int| 0 <= k < w.found.len() ==> 0 <= (#[trigger] w.found[k]).1 <= MAX_DEPTH
}

proof fn lemma_insert_new_keeps(target: Seq<char>, w: Walk, e: ImpactEntryView)
    requires
        walk_ok(target, w),
        0 <= e.distance <= MAX_DEPTH,
        e.distance == 0 ==> e.name == target,
    ensures
        walk_ok(target, Walk { entries: insert_new(w.entries, e), ..w }),
{
    let s = insert_new(w.entries, e);
    if !(exists|k: int| 0 <= k < w.entries.len() && same_key(w.entries[k], e)) {
        assert forall|i: int, j: int| 0 <= i < j < s.len() implies !same_key(
            #[trigger] s[i],
            #[trigger] s[j],
        ) by {
            if j == w.entries.len() {
                assert(s[i] == w.entries[i]);
            } else {
                assert(s[i] == w.entries[i] && s[j] == w.entries[j]);
            }
        }
        assert forall|i: int| 0 <= i < s.len() implies 0 <= (#[trigger] s[i]).distance <= MAX_DEPTH
            && (s[i].distance == 0 ==> s[i].name == target) by {
            if i < w.entries.len() {
                assert(s[i] == w.entries[i]);
            }
        }
    }
}

proof fn lemma_seed_ok(defs: Seq<Definition>, target: Seq<char>)
    ensures
        walk_ok(target, Walk { entries: seed_entries(defs, target), found: seq![(target, 0int)], head: 0 }),
    decreases defs.len(),
{
    if defs.len() > 0 {
        lemma_seed_ok(defs.drop_last(), target);
        let w = Walk { entries: seed_entries(defs.drop_last(), target), found: seq![(target, 0int)], head: 0 };
        if defs.last().name@ == target {
            lemma_insert_new_keeps(
                target,
                w,
                entry_for(defs.last(), 0, Confidence::High, ResolveReason::SameFileScope),
            );
        }
    }
}

proof fn lemma_visit_keeps(
    defs: Seq<Definition>,
    imps: Seq<Import>,
    target: Seq<char>,
    cur: Seq<char>,
    dist: int,
    w: Walk,
    r: Reference,
)
    requires
        0 <= dist < MAX_DEPTH,
        walk_ok(target, w),
    ensures
        walk_ok(target, visit_ref(defs, imps, cur, dist, w, r)),
{
    match enclosing_of(defs, r.file@, r.byte_offset as int) {
        None => {},
        Some(e) => {
            let res = resolution(defs, imps, cur, r.file@);
            lemma_insert_new_keeps(target, w, entry_for(e, dist + 1, res.1, res.2));
            let w2 = visit_ref(defs, imps, cur, dist, w, r);
            assert forall|k: int| 0 <= k < w2.found.len() implies 0 <= (#[trigger] w2.found[k]).1
                <= MAX_DEPTH by {
                if k < w.found.len() {
                    assert(w2.found[k] == w.found[k]);
                }
            }
        },
    }
}

proof fn lemma_walk_ok(
    defs: Seq<Definition>,
    imps: Seq<Import>,
    refs: Seq<Reference>,
    target: Seq<char>,
    n: nat,
)
    ensures
        walk_ok(target, walk_after(defs, imps, refs, target, n)),
    decreases n,
{
    if n == 0 {
        lemma_seed_ok(defs, target);
    } else {
        lemma_walk_ok(defs, imps, refs, target, (n - 1) as nat);
        let w = walk_after(defs, imps, refs, target, (n - 1) as nat);
        if 0 <= w.head < w.found.len() {
            let cur = w.found[w.head].0;
            let dist = w.found[w.head].1;
            if dist < MAX_DEPTH {
                let f = visitor(defs, imps, cur, dist);
                let p = |x: Walk| walk_ok(target, x);
                assert forall|x: Walk, r: Reference| p(x) implies #[trigger] p(f(x, r)) by {
                    lemma_visit_keeps(defs, imps, target, cur, dist, x, r);
                }
                lemma_fold_keeps(refs_named(refs, cur), w, f, p);
            }
        }
    }
}

/// What `impact` reports, whatever the index: no (name, file, line) twice;
/// every entry 0 to `MAX_DEPTH` calls away; only the target's own
/// definitions at distance 0.
pub proof fn lemma_impact_shape(
    defs: Seq<Definition>,
    imps: Seq<Import>,
    refs: Seq<Reference>,
    target: Seq<char>,
)
    ensures
        ({
            let es = impact_entries(defs, imps, refs, target);
            &&& forall|i: int, j: int|
                0 <= i < j < es.len() ==> !same_key(#[trigger] es[i], #[trigger] es[j])
            &&& forall|i: int|
                0 <= i < es.len() ==> 0 <= (#[trigger] es[i]).distance <= MAX_DEPTH && (
                es[i].distance == 0 ==> es[i].name == target)
        }),
{
    lemma_walk_ok(defs, imps, refs, target, defs.len() + 1);
}

// ---------------------------------------------------------------------------
// Impact travels through calls only
// ---------------------------------------------------------------------------
/// `r` is a call made from inside a function or method named `n`.
pub open spec fn call_in(defs: Seq<Definition>, r: Reference, n: Seq<char>) -> bool {
    &&& r.kind == RefKind::Call
    &&& enclosing_of(defs, r.file@, r.byte_offset as int) matches Some(e)
    &&& e.name@ == n
    &&& is_callable(e.kind)
}

/// Some call of the index is made from inside a function or method named
/// `n`.
pub open spec fn calls_from(defs: Seq<Definition>, refs: Seq<Reference>, n: Seq<char>) -> bool {
    exists|j: int| 0 <= j < refs.len() && #[trigger] call_in(defs, refs[j], n)
}

/// `ev` is the entry of the definition that encloses reference `r`.
pub open spec fn encloses_ref(defs: Seq<Definition>, r: Reference, ev: ImpactEntryView) -> bool {
    &&& enclosing_of(defs, r.file@, r.byte_offset as int) matches Some(e)
    &&& e.name@ == ev.name
    &&& e.file@ == ev.file
    &&& e.line == ev.line
}

/// The walk grows its frontier only through calls: every reached name but
/// the target makes a call; every entry two or more away encloses a
/// reference to such a name.
pub open spec fn grows_by_calls(defs: Seq<Definition>, refs: Seq<Reference>, w: Walk) -> bool {
    &&& w.found.len() >= 1
    &&& w.found[0].1 == 0
    &&& forall|k: int|
        1 <= k < w.found.len() ==> (#[trigger] w.found[k]).1 >= 1 && calls_from(defs, refs, w.found[k].0)
    &&& forall|i: int|
        0 <= i < w.entries.len() && (#[trigger] w.entries[i]).distance >= 2 ==> exists|j: int|
            0 <= j < refs.len() && #[trigger] encloses_ref(defs, refs[j], w.entries[i]) && calls_from(
                defs,
                refs,
                refs[j].name@,
            )
}

proof fn lemma_filter_sub<A>(s: Seq<A>, p: spec_fn(A) -> bool, a: A)
    requires
        s.filter(p).contains(a),
    ensures
        s.contains(a),
        p(a),
    decreases s.len(),
{
    reveal(Seq::filter);
    if s.len() > 0 {
        let out = s.drop_last().filter(p);
        if p(s.last()) && a == s.last() {
            assert(s[s.len() - 1] == a);
        } else {
            if p(s.last()) {
                let k = choose|k: int| 0 <= k < s.filter(p).len() && s.filter(p)[k] == a;
                assert(s.filter(p) == out.push(s.last()));
                assert(k < out.len());
                assert(out[k] == a);
            } else {
                assert(s.filter(p) == out);
            }
            lemma_filter_sub(s.drop_last(), p, a);
            let k = choose|k: int| 0 <= k < s.drop_last().len() && s.drop_last()[k] == a;
            assert(s[k] == a);
        }
    }
}

proof fn lemma_fold_keeps_in<A, B>(s: Seq<A>, b: B, f: spec_fn(B, A) -> B, p: spec_fn(B) -> bool)
    requires
        p(b),
        forall|x: B, a: A| s.contains(a) && p(x) ==> #[trigger] p(f(x, a)),
    ensures
        p(s.fold_left(b, f)),
    decreases s.len(),
{
    if s.len() > 0 {
        let d = s.drop_last();
        assert forall|x: B, a: A| d.contains(a) && p(x) implies #[trigger] p(f(x, a)) by {
            let k = choose|k: int| 0 <= k < d.len() && d[k] == a;
            assert(s[k] == a);
        }
        lemma_fold_keeps_in(d, b, f, p);
        assert(s[s.len() - 1] == s.last());
    }
}

proof fn lemma_visit_grows(
    defs: Seq<Definition>,
    imps: Seq<Import>,
    refs: Seq<Reference>,
    cur: Seq<char>,
    dist: int,
    w: Walk,
    r: Reference,
)
    requires
        dist >= 0,
        dist >= 1 ==> calls_from(defs, refs, cur),
        refs.contains(r),
        r.name@ == cur,
        grows_by_calls(defs, refs, w),
    ensures
        grows_by_calls(defs, refs, visit_ref(defs, imps, cur, dist, w, r)),
{
    let w2 = visit_ref(defs, imps, cur, dist, w, r);
    let jr = choose|jr: int| 0 <= jr < refs.len() && refs[jr] == r;
    match enclosing_of(defs, r.file@, r.byte_offset as int) {
        None => {},
        Some(e) => {
            let res = resolution(defs, imps, cur, r.file@);
            let ne = entry_for(e, dist + 1, res.1, res.2);
            assert forall|k: int| 1 <= k < w2.found.len() implies (#[trigger] w2.found[k]).1 >= 1
                && calls_from(defs, refs, w2.found[k].0) by {
                if k < w.found.len() {
                    assert(w2.found[k] == w.found[k]);
                } else {
                    assert(call_in(defs, refs[jr], e.name@));
                }
            }
            assert(w2.found[0] == w.found[0]);
            assert forall|i: int|
                0 <= i < w2.entries.len() && (#[trigger] w2.entries[i]).distance >= 2 implies exists|j: int|
                0 <= j < refs.len() && #[trigger] encloses_ref(defs, refs[j], w2.entries[i])
                    && calls_from(defs, refs, refs[j].name@) by {
                if i < w.entries.len() {
                    assert(w2.entries[i] == w.entries[i]);
                } else {
                    assert(w2.entries[i] == ne);
                    assert(encloses_ref(defs, refs[jr], ne));
                }
            }
        },
    }
}

proof fn lemma_walk_grows(
    defs: Seq<Definition>,
    imps: Seq<Import>,
    refs: Seq<Reference>,
    target: Seq<char>,
    n: nat,
)
    ensures
        grows_by_calls(defs, refs, walk_after(defs, imps, refs, target, n)),
    decreases n,
{
    if n > 0 {
        lemma_walk_grows(defs, imps, refs, target, (n - 1) as nat);
        lemma_walk_ok(defs, imps, refs, target, (n - 1) as nat);
        let w = walk_after(defs, imps, refs, target, (n - 1) as nat);
        if 0 <= w.head < w.found.len() {
            let cur = w.found[w.head].0;
            let dist = w.found[w.head].1;
            if dist < MAX_DEPTH {
                assert(0 <= w.found[w.head].1);
                assert(dist >= 1 ==> w.head >= 1);
                if w.head >= 1 {
                    assert(calls_from(defs, refs, w.found[w.head].0));
                }
                let f = visitor(defs, imps, cur, dist);
                let p = |x: Walk| grows_by_calls(defs, refs, x);
                let s = refs_named(refs, cur);
                assert forall|x: Walk, r: Reference| s.contains(r) && p(x) implies #[trigger] p(f(x, r)) by {
                    lemma_filter_sub(refs, has_name(cur), r);
                    lemma_visit_grows(defs, imps, refs, cur, dist, x, r);
                }
                lemma_fold_keeps_in(s, w, f, p);
            }
        }
    } else {
        let w = walk_after(defs, imps, refs, target, 0);
        assert forall|i: int|
            0 <= i < w.entries.len() && (#[trigger] w.entries[i]).distance >= 2 implies exists|j: int|
            0 <= j < refs.len() && #[trigger] encloses_ref(defs, refs[j], w.entries[i]) && calls_from(
                defs,
                refs,
                refs[j].name@,
            ) by {
            lemma_seed_zero(defs, target);
        }
    }
}

/// The target's own definitions all lie at distance 0.
proof fn lemma_seed_zero(defs: Seq<Definition>, target: Seq<char>)
    ensures
        forall|i: int|
            0 <= i < seed_entries(defs, target).len() ==> (#[trigger] seed_entries(defs, target)[i]).distance
                == 0,
    decreases defs.len(),
{
    if defs.len() > 0 {
        lemma_seed_zero(defs.drop_last(), target);
        let prev = seed_entries(defs.drop_last(), target);
        let cur = seed_entries(defs, target);
        assert forall|i: int| 0 <= i < cur.len() implies (#[trigger] cur[i]).distance == 0 by {
            if i < prev.len() {
                assert(cur[i] == prev[i]);
            }
        }
    }
}

/// Impact travels past the first step only through calls: every entry two
/// or more away is the definition enclosing a reference to a name that
/// itself makes a call from inside a function or method. A use in type
/// position makes its user an entry, but never carries impact further.
pub proof fn lemma_impact_grows_by_calls(
    defs: Seq<Definition>,
    imps: Seq<Import>,
    refs: Seq<Reference>,
    target: Seq<char>,
)
    ensures
        ({
            let es = impact_entries(defs, imps, refs, target);
            forall|i: int|
                0 <= i < es.len() && (#[trigger] es[i]).distance >= 2 ==> exists|j: int|
                    0 <= j < refs.len() && #[trigger] encloses_ref(defs, refs[j], es[i]) && calls_from(
                        defs,
                        refs,
                        refs[j].name@,
                    )
        }),
{
    lemma_walk_grows(defs, imps, refs, target, defs.len() + 1);
}

// ---------------------------------------------------------------------------
// Every use of the target is an entry one step away
// ---------------------------------------------------------------------------
/// Some entry has `e`'s key, at most `d` away.
pub open spec fn has_key(es: Seq<ImpactEntryView>, e: Definition, d: int) -> bool {
    exists|i: int|
        0 <= i < es.len() && (#[trigger] es[i]).name == e.name@ && es[i].file == e.file@ && es[i].line
            == e.line && es[i].distance <= d
}

/// `b` extends `a`.
pub open spec fn prefix_kept(a: Seq<ImpactEntryView>, b: Seq<ImpactEntryView>) -> bool {
    &&& a.len() <= b.len()
    &&& forall|i: int| 0 <= i < a.len() ==> #[trigger] b[i] == a[i]
}

proof fn lemma_has_key_kept(a: Seq<ImpactEntryView>, b: Seq<ImpactEntryView>, e: Definition, d: int)
    requires
        prefix_kept(a, b),
        has_key(a, e, d),
    ensures
        has_key(b, e, d),
{
    let i = choose|i: int|
        0 <= i < a.len() && (#[trigger] a[i]).name == e.name@ && a[i].file == e.file@ && a[i].line == e.line
            && a[i].distance <= d;
    assert(b[i] == a[i]);
}

proof fn lemma_visit_first(
    defs: Seq<Definition>,
    imps: Seq<Import>,
    cur: Seq<char>,
    w: Walk,
    r: Reference,
)
    requires
        forall|i: int| 0 <= i < w.entries.len() ==> (#[trigger] w.entries[i]).distance <= 1,
    ensures
        prefix_kept(w.entries, visit_ref(defs, imps, cur, 0, w, r).entries),
        forall|i: int|
            0 <= i < visit_ref(defs, imps, cur, 0, w, r).entries.len() ==> (#[trigger] visit_ref(
                defs,
                imps,
                cur,
                0,
                w,
                r,
            ).entries[i]).distance <= 1,
        enclosing_of(defs, r.file@, r.byte_offset as int) matches Some(e) ==> has_key(
            visit_ref(defs, imps, cur, 0, w, r).entries,
            e,
            1,
        ),
{
    let w2 = visit_ref(defs, imps, cur, 0, w, r);
    match enclosing_of(defs, r.file@, r.byte_offset as int) {
        None => {},
        Some(e) => {
            let res = resolution(defs, imps, cur, r.file@);
            let x = entry_for(e, 1, res.1, res.2);
            if exists|k: int| 0 <= k < w.entries.len() && same_key(w.entries[k], x) {
                let k = choose|k: int| 0 <= k < w.entries.len() && same_key(w.entries[k], x);
                assert(w2.entries[k] == w.entries[k]);
            } else {
                assert(w2.entries == w.entries.push(x));
                assert(w2.entries[w.entries.len() as int] == x);
                assert forall|i: int| 0 <= i < w2.entries.len() implies (#[trigger] w2.entries[i]).distance <= 1 by {
                    if i < w.entries.len() {
                        assert(w2.entries[i] == w.entries[i]);
                    }
                }
            }
        },
    }
}

proof fn lemma_fold_first(defs: Seq<Definition>, imps: Seq<Import>, cur: Seq<char>, s: Seq<Reference>, w: Walk)
    requires
        forall|i: int| 0 <= i < w.entries.len() ==> (#[trigger] w.entries[i]).distance <= 1,
    ensures
        ({
            let x = s.fold_left(w, visitor(defs, imps, cur, 0));
            &&& prefix_kept(w.entries, x.entries)
            &&& x.head == w.head
            &&& forall|i: int| 0 <= i < x.entries.len() ==> (#[trigger] x.entries[i]).distance <= 1
            &&& forall|j: int|
                0 <= j < s.len() ==> (enclosing_of(defs, (#[trigger] s[j]).file@, s[j].byte_offset as int) matches Some(
                    e,
                ) ==> has_key(x.entries, e, 1))
        }),
    decreases s.len(),
{
    let f = visitor(defs, imps, cur, 0);
    if s.len() > 0 {
        let d = s.drop_last();
        lemma_fold_first(defs, imps, cur, d, w);
        let x = d.fold_left(w, f);
        lemma_visit_first(defs, imps, cur, x, s.last());
        let y = visit_ref(defs, imps, cur, 0, x, s.last());
        assert(s.fold_left(w, f) == y);
        assert forall|i: int| 0 <= i < w.entries.len() implies #[trigger] y.entries[i] == w.entries[i] by {
            assert(x.entries[i] == w.entries[i]);
        }
        assert forall|j: int|
            0 <= j < s.len() implies (enclosing_of(defs, (#[trigger] s[j]).file@, s[j].byte_offset as int) matches Some(
            e,
        ) ==> has_key(y.entries, e, 1)) by {
            if j < d.len() {
                assert(d[j] == s[j]);
                if let Some(e) = enclosing_of(defs, s[j].file@, s[j].byte_offset as int) {
                    lemma_has_key_kept(x.entries, y.entries, e, 1);
                }
            }
        }
    } else {
        assert(s.fold_left(w, f) == w);
    }
}

/// Later walks extend earlier ones.
proof fn lemma_impact_steps_kept(
    defs: Seq<Definition>,
    imps: Seq<Import>,
    refs: Seq<Reference>,
    target: Seq<char>,
    m: nat,
    n: nat,
)
    requires
        m <= n,
    ensures
        prefix_kept(
            walk_after(defs, imps, refs, target, m).entries,
            walk_after(defs, imps, refs, target, n).entries,
        ),
    decreases n,
{
    if n > m {
        lemma_impact_steps_kept(defs, imps, refs, target, m, (n - 1) as nat);
        let a = walk_after(defs, imps, refs, target, m).entries;
        let w = walk_after(defs, imps, refs, target, (n - 1) as nat);
        let c = walk_after(defs, imps, refs, target, n);
        if 0 <= w.head < w.found.len() && w.found[w.head].1 < MAX_DEPTH {
            let cur = w.found[w.head].0;
            let dist = w.found[w.head].1;
            let f = visitor(defs, imps, cur, dist);
            let p = |x: Walk| prefix_kept(w.entries, x.entries);
            assert forall|x: Walk, r: Reference| p(x) implies #[trigger] p(f(x, r)) by {
                let y = visit_ref(defs, imps, cur, dist, x, r);
                match enclosing_of(defs, r.file@, r.byte_offset as int) {
                    None => {},
                    Some(e) => {
                        let res = resolution(defs, imps, cur, r.file@);
                        let z = entry_for(e, dist + 1, res.1, res.2);
                        if !(exists|k: int| 0 <= k < x.entries.len() && same_key(x.entries[k], z)) {
                            assert(y.entries == x.entries.push(z));
                        }
                        assert forall|i: int| 0 <= i < w.entries.len() implies #[trigger] y.entries[i]
                            == w.entries[i] by {
                            assert(x.entries[i] == w.entries[i]);
                        }
                    },
                }
            }
            lemma_fold_keeps(refs_named(refs, cur), w, f, p);
        }
        assert forall|i: int| 0 <= i < a.len() implies #[trigger] c.entries[i] == a[i] by {
            assert(w.entries[i] == a[i]);
        }
    }
}

/// Every reference to the target that lies inside a definition makes that
/// definition an entry at most one step away, whatever the reference's
/// kind (a call, or a use in type position).
pub proof fn lemma_impact_reaches_users(
    defs: Seq<Definition>,
    imps: Seq<Import>,
    refs: Seq<Reference>,
    target: Seq<char>,
)
    ensures
        ({
            let es = impact_entries(defs, imps, refs, target);
            forall|j: int|
                0 <= j < refs.len() && (#[trigger] refs[j]).name@ == target ==> (enclosing_of(
                    defs,
                    refs[j].file@,
                    refs[j].byte_offset as int,
                ) matches Some(e) ==> has_key(es, e, 1))
        }),
{
    let w0 = walk_after(defs, imps, refs, target, 0);
    let s = refs_named(refs, target);
    lemma_seed_zero(defs, target);
    assert forall|i: int| 0 <= i < w0.entries.len() implies (#[trigger] w0.entries[i]).distance <= 1 by {}
    lemma_fold_first(defs, imps, target, s, w0);
    let w1 = walk_after(defs, imps, refs, target, 1);
    assert(w1.entries == s.fold_left(w0, visitor(defs, imps, target, 0)).entries);
    lemma_impact_steps_kept(defs, imps, refs, target, 1, (defs.len() + 1) as nat);
    let es = impact_entries(defs, imps, refs, target);
    assert forall|j: int|
        0 <= j < refs.len() && (#[trigger] refs[j]).name@ == target implies (enclosing_of(
        defs,
        refs[j].file@,
        refs[j].byte_offset as int,
    ) matches Some(e) ==> has_key(es, e, 1)) by {
        assert(has_name(target)(refs[j]));
        refs.lemma_filter_contains(has_name(target), j);
        assert(s.contains(refs[j]));
        let k = choose|k: int| 0 <= k < s.len() && s[k] == refs[j];
        if let Some(e) = enclosing_of(defs, refs[j].file@, refs[j].byte_offset as int) {
            assert(has_key(w1.entries, e, 1));
            lemma_has_key_kept(w1.entries, es, e, 1);
        }
    }
}

// ---------------------------------------------------------------------------
// Calls carry impact on
// ---------------------------------------------------------------------------
/// The name of the function or method that `r` is a call made from inside.
pub open spec fn call_from_callable(defs: Seq<Definition>, r: Reference) -> Option<Seq<char>> {
    match enclosing_of(defs, r.file@, r.byte_offset as int) {
        Some(e) => if r.kind == RefKind::Call && is_callable(e.kind) {
            Some(e.name@)
        } else {
            None
        },
        None => None,
    }
}

/// Some entry has `e`'s key.
pub open spec fn present(es: Seq<ImpactEntryView>, e: Definition) -> bool {
    exists|i: int|
        0 <= i < es.len() && (#[trigger] es[i]).name == e.name@ && es[i].file == e.file@ && es[i].line == e.line
}

/// `x` extends `w` (entries and reached names), at the same head.
pub open spec fn impact_kept(w: Walk, x: Walk) -> bool {
    &&& prefix_kept(w.entries, x.entries)
    &&& w.found.len() <= x.found.len()
    &&& forall|i: int| 0 <= i < w.found.len() ==> #[trigger] x.found[i] == w.found[i]
    &&& x.head == w.head
}

proof fn lemma_impact_kept_trans(a: Walk, b: Walk, c: Walk)
    requires
        impact_kept(a, b),
        impact_kept(b, c),
    ensures
        impact_kept(a, c),
{
    assert forall|i: int| 0 <= i < a.entries.len() implies #[trigger] c.entries[i] == a.entries[i] by {
        assert(b.entries[i] == a.entries[i]);
    }
    assert forall|i: int| 0 <= i < a.found.len() implies #[trigger] c.found[i] == a.found[i] by {
        assert(b.found[i] == a.found[i]);
    }
}

proof fn lemma_present_kept(a: Seq<ImpactEntryView>, b: Seq<ImpactEntryView>, e: Definition)
    requires
        prefix_kept(a, b),
        present(a, e),
    ensures
        present(b, e),
{
    let i = choose|i: int|
        0 <= i < a.len() && (#[trigger] a[i]).name == e.name@ && a[i].file == e.file@ && a[i].line == e.line;
    assert(b[i] == a[i]);
}

proof fn lemma_enclosing_in(defs: Seq<Definition>, file: Seq<char>, off: int)
    ensures
        enclosing_of(defs, file, off) matches Some(e) ==> def_names(defs).contains(e.name@),
{
    if exists|i: int| is_innermost(defs, file, off, i) {
        let i = choose|i: int| is_innermost(defs, file, off, i);
        lemma_def_name(defs, i);
    }
}

proof fn lemma_visit_present(
    defs: Seq<Definition>,
    imps: Seq<Import>,
    target: Seq<char>,
    cur: Seq<char>,
    dist: int,
    w: Walk,
    r: Reference,
)
    requires
        found_ok(def_names(defs), target, w.found),
    ensures
        impact_kept(w, visit_ref(defs, imps, cur, dist, w, r)),
        found_ok(def_names(defs), target, visit_ref(defs, imps, cur, dist, w, r).found),
        enclosing_of(defs, r.file@, r.byte_offset as int) matches Some(e) ==> present(
            visit_ref(defs, imps, cur, dist, w, r).entries,
            e,
        ),
        call_from_callable(defs, r) matches Some(n) ==> found_name(
            visit_ref(defs, imps, cur, dist, w, r).found,
            n,
        ),
        forall|k: int|
            w.found.len() <= k < visit_ref(defs, imps, cur, dist, w, r).found.len() ==> (#[trigger] visit_ref(
                defs,
                imps,
                cur,
                dist,
                w,
                r,
            ).found[k]).1 == dist + 1,
{
    let w2 = visit_ref(defs, imps, cur, dist, w, r);
    match enclosing_of(defs, r.file@, r.byte_offset as int) {
        None => {},
        Some(e) => {
            let res = resolution(defs, imps, cur, r.file@);
            let x = entry_for(e, dist + 1, res.1, res.2);
            if exists|k: int| 0 <= k < w.entries.len() && same_key(w.entries[k], x) {
                let k = choose|k: int| 0 <= k < w.entries.len() && same_key(w.entries[k], x);
                assert(w2.entries[k] == w.entries[k]);
            } else {
                assert(w2.entries == w.entries.push(x));
                assert(w2.entries[w.entries.len() as int] == x);
            }
            let grows = r.kind == RefKind::Call && is_callable(e.kind) && !found_name(w.found, e.name@);
            if grows {
                lemma_enclosing_in(defs, r.file@, r.byte_offset as int);
                lemma_found_push(def_names(defs), target, w.found, e.name@, dist + 1);
                assert(w2.found == w.found.push((e.name@, dist + 1)));
                assert(found_names(w2.found)[w.found.len() as int] == e.name@);
            }
        },
    }
}

proof fn lemma_fold_present(
    defs: Seq<Definition>,
    imps: Seq<Import>,
    target: Seq<char>,
    cur: Seq<char>,
    dist: int,
    s: Seq<Reference>,
    w: Walk,
)
    requires
        found_ok(def_names(defs), target, w.found),
    ensures
        ({
            let x = s.fold_left(w, visitor(defs, imps, cur, dist));
            &&& impact_kept(w, x)
            &&& found_ok(def_names(defs), target, x.found)
            &&& forall|k: int| w.found.len() <= k < x.found.len() ==> (#[trigger] x.found[k]).1 == dist + 1
            &&& forall|j: int|
                0 <= j < s.len() ==> (enclosing_of(defs, (#[trigger] s[j]).file@, s[j].byte_offset as int) matches Some(
                    e,
                ) ==> present(x.entries, e))
            &&& forall|j: int|
                0 <= j < s.len() ==> (call_from_callable(defs, #[trigger] s[j]) matches Some(n) ==> found_name(
                    x.found,
                    n,
                ))
        }),
    decreases s.len(),
{
    let f = visitor(defs, imps, cur, dist);
    if s.len() > 0 {
        let d = s.drop_last();
        lemma_fold_present(defs, imps, target, cur, dist, d, w);
        let x = d.fold_left(w, f);
        lemma_visit_present(defs, imps, target, cur, dist, x, s.last());
        let y = visit_ref(defs, imps, cur, dist, x, s.last());
        assert(s.fold_left(w, f) == y);
        lemma_impact_kept_trans(w, x, y);
        assert forall|k: int| w.found.len() <= k < y.found.len() implies (#[trigger] y.found[k]).1 == dist + 1 by {
            if k < x.found.len() {
                assert(y.found[k] == x.found[k]);
            }
        }
        assert forall|j: int|
            0 <= j < s.len() implies (enclosing_of(defs, (#[trigger] s[j]).file@, s[j].byte_offset as int) matches Some(
            e,
        ) ==> present(y.entries, e)) by {
            if j < d.len() {
                assert(d[j] == s[j]);
                if let Some(e) = enclosing_of(defs, s[j].file@, s[j].byte_offset as int) {
                    lemma_present_kept(x.entries, y.entries, e);
                }
            }
        }
        assert forall|j: int|
            0 <= j < s.len() implies (call_from_callable(defs, #[trigger] s[j]) matches Some(n) ==> found_name(
            y.found,
            n,
        )) by {
            if j < d.len() {
                assert(d[j] == s[j]);
                if let Some(n) = call_from_callable(defs, s[j]) {
                    let q = choose|q: int| 0 <= q < found_names(x.found).len() && found_names(x.found)[q] == n;
                    assert(found_names(y.found)[q] == found_names(x.found)[q]);
                }
            }
        }
    } else {
        assert(s.fold_left(w, f) == w);
    }
}

/// The walk after `n` expansions: its reached names valid, and either
/// exactly `n` names expanded or finished.
proof fn lemma_impact_inv(defs: Seq<Definition>, imps: Seq<Import>, refs: Seq<Reference>, target: Seq<char>, n: nat)
    ensures
        ({
            let w = walk_after(defs, imps, refs, target, n);
            &&& found_ok(def_names(defs), target, w.found)
            &&& 0 <= w.head <= n
            &&& (w.head == n || w.head >= w.found.len())
        }),
    decreases n,
{
    if n == 0 {
        lemma_found_start(def_names(defs), target);
    } else {
        lemma_impact_inv(defs, imps, refs, target, (n - 1) as nat);
        let w = walk_after(defs, imps, refs, target, (n - 1) as nat);
        if 0 <= w.head < w.found.len() && w.found[w.head].1 < MAX_DEPTH {
            lemma_fold_present(defs, imps, target, w.found[w.head].0, w.found[w.head].1, refs_named(refs, w.found[w.head].0), w);
        }
    }
}

proof fn lemma_impact_walk_kept(
    defs: Seq<Definition>,
    imps: Seq<Import>,
    refs: Seq<Reference>,
    target: Seq<char>,
    m: nat,
    n: nat,
)
    requires
        m <= n,
    ensures
        ({
            let a = walk_after(defs, imps, refs, target, m);
            let c = walk_after(defs, imps, refs, target, n);
            impact_kept(a, Walk { head: a.head, ..c })
        }),
    decreases n,
{
    let a = walk_after(defs, imps, refs, target, m);
    if n > m {
        lemma_impact_walk_kept(defs, imps, refs, target, m, (n - 1) as nat);
        lemma_impact_inv(defs, imps, refs, target, (n - 1) as nat);
        let w = walk_after(defs, imps, refs, target, (n - 1) as nat);
        let c = walk_after(defs, imps, refs, target, n);
        let wa = Walk { head: w.head, ..a };
        let wb = Walk { head: a.head, ..w };
        assert(impact_kept(wa, w));
        if 0 <= w.head < w.found.len() && w.found[w.head].1 < MAX_DEPTH {
            lemma_fold_present(defs, imps, target, w.found[w.head].0, w.found[w.head].1, refs_named(refs, w.found[w.head].0), w);
        }
        let wc = Walk { head: w.head, ..c };
        assert(impact_kept(w, wc));
        lemma_impact_kept_trans(wa, w, wc);
    }
}

/// A name reached fewer than `MAX_DEPTH` calls away, in the finished walk,
/// makes every definition enclosing a reference to it an entry.
proof fn lemma_impact_expanded(
    defs: Seq<Definition>,
    imps: Seq<Import>,
    refs: Seq<Reference>,
    target: Seq<char>,
    k: int,
    j: int,
)
    requires
        0 <= k < walk_after(defs, imps, refs, target, defs.len() + 1).found.len(),
        walk_after(defs, imps, refs, target, defs.len() + 1).found[k].1 < MAX_DEPTH,
        0 <= j < refs.len(),
        refs[j].name@ == walk_after(defs, imps, refs, target, defs.len() + 1).found[k].0,
    ensures
        enclosing_of(defs, refs[j].file@, refs[j].byte_offset as int) matches Some(e) ==> present(
            walk_after(defs, imps, refs, target, defs.len() + 1).entries,
            e,
        ),
{
    let nn = (defs.len() + 1) as nat;
    let wn = walk_after(defs, imps, refs, target, nn);
    lemma_impact_inv(defs, imps, refs, target, nn);
    lemma_found_bound(def_names(defs), target, wn.found);
    assert(def_names(defs).len() == defs.len());
    let kk = k as nat;
    lemma_impact_inv(defs, imps, refs, target, kk);
    let wk = walk_after(defs, imps, refs, target, kk);
    if wk.head >= wk.found.len() {
        lemma_walk_done(defs, imps, refs, target, kk, nn);
        assert(false);
    }
    assert(wk.head == k);
    lemma_impact_walk_kept(defs, imps, refs, target, kk, nn);
    assert(wk.found[k] == wn.found[k]);
    let cur = wk.found[k].0;
    let s = refs_named(refs, cur);
    lemma_fold_present(defs, imps, target, cur, wk.found[k].1, s, wk);
    let w1 = walk_after(defs, imps, refs, target, kk + 1);
    assert(w1.entries == s.fold_left(wk, visitor(defs, imps, cur, wk.found[k].1)).entries);
    refs.lemma_filter_contains(has_name(cur), j);
    let q = choose|q: int| 0 <= q < s.len() && s[q] == refs[j];
    lemma_impact_walk_kept(defs, imps, refs, target, kk + 1, nn);
    if let Some(e) = enclosing_of(defs, refs[j].file@, refs[j].byte_offset as int) {
        assert(present(w1.entries, e));
        lemma_present_kept(w1.entries, wn.entries, e);
    }
}

/// Calls carry impact on: when a function or method calls the target, every
/// definition that uses that function or method (by call or otherwise) is
/// an entry too.
pub proof fn lemma_impact_follows_calls(
    defs: Seq<Definition>,
    imps: Seq<Import>,
    refs: Seq<Reference>,
    target: Seq<char>,
)
    ensures
        ({
            let es = impact_entries(defs, imps, refs, target);
            forall|j1: int, j2: int|
                #![trigger refs[j1], refs[j2]]
                0 <= j1 < refs.len() && 0 <= j2 < refs.len() && refs[j1].name@ == target
                    && call_from_callable(defs, refs[j1]) == Some(refs[j2].name@) ==> (enclosing_of(
                    defs,
                    refs[j2].file@,
                    refs[j2].byte_offset as int,
                ) matches Some(e) ==> present(es, e))
        }),
{
    let nn = (defs.len() + 1) as nat;
    let w0 = walk_after(defs, imps, refs, target, 0);
    let s = refs_named(refs, target);
    lemma_found_start(def_names(defs), target);
    lemma_fold_present(defs, imps, target, target, 0, s, w0);
    let w1 = walk_after(defs, imps, refs, target, 1);
    let x = s.fold_left(w0, visitor(defs, imps, target, 0));
    assert(w1.found == x.found);
    lemma_impact_walk_kept(defs, imps, refs, target, 1, nn);
    let wn = walk_after(defs, imps, refs, target, nn);
    assert forall|j1: int, j2: int|
        #![trigger refs[j1], refs[j2]]
        0 <= j1 < refs.len() && 0 <= j2 < refs.len() && refs[j1].name@ == target && call_from_callable(
            defs,
            refs[j1],
        ) == Some(refs[j2].name@) implies (enclosing_of(defs, refs[j2].file@, refs[j2].byte_offset as int) matches Some(
        e,
    ) ==> present(wn.entries, e)) by {
        refs.lemma_filter_contains(has_name(target), j1);
        let q = choose|q: int| 0 <= q < s.len() && s[q] == refs[j1];
        assert(found_name(x.found, refs[j2].name@));
        let k = choose|k: int| 0 <= k < found_names(x.found).len() && found_names(x.found)[k] == refs[j2].name@;
        assert(x.found[k].0 == refs[j2].name@);
        assert(x.found[k].1 <= 1) by {
            if k >= 1 {
                assert(x.found[k].1 == 1);
            }
        }
        assert(wn.found[k] == x.found[k]);
        lemma_impact_expanded(defs, imps, refs, target, k, j2);
    }
}

} // verus!
