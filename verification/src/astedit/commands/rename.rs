//! `rename`: decides, from the index, which sites of a symbol are edited,
//! which are skipped and why, or that the symbol needs an anchor.
use vstd::prelude::*;

use crate::astedit::cli::RenameArgs;
use vstd::string::StringSliceAdditionalSpecFns;
use crate::astedit::serialize::{
    AppliedEdit, AppliedEditView, AppliedFile, Candidate, CandidateView, RenameData,
    SkippedSite, SkippedSiteView,
};
use crate::index::{
    def_kind_text, lookup, AliasReexport, DefKind, Definition, Index, Reference, WildcardReexport,
};
use crate::order::{stable_sort, stable_sorted, Ranked};
use crate::resolve::{
    confidence_text, deref_opt, named, reason_text, refs_named, resolution, resolve_refs,
    Confidence, ResolveReason, Resolved,
};
use crate::text::{
    chars_of, last_segment, last_segment_of, seq_lt, chars_less, stem_or_empty, file_stem_or_empty,
    slice_eq, str_eq, copy_range,
};

verus! {

fn def_kind_str(k: DefKind) -> (res: &'static str)
    ensures
        res@ == def_kind_text(k),
{
    match k {
        DefKind::Fn => "fn",
        DefKind::Struct => "struct",
        DefKind::Enum => "enum",
        DefKind::Trait => "trait",
        DefKind::Class => "class",
        DefKind::Interface => "interface",
        DefKind::Type => "type",
        DefKind::Const => "const",
        DefKind::Method => "method",
    }
}

/// Byte length of the UTF-8 encoding of `s`.
pub open spec fn byte_len(s: Seq<char>) -> nat {
    vstd::utf8::encode_utf8(s).len()
}

/// A reference together with what it resolves to.
pub struct RefResolution {
    pub reference: Reference,
    pub definition: Option<Definition>,
    pub confidence: Confidence,
    pub reason: ResolveReason,
}

pub open spec fn resolved_view(r: Resolved) -> RefResolution {
    RefResolution {
        reference: *r.reference,
        definition: deref_opt(r.definition),
        confidence: r.confidence,
        reason: r.reason,
    }
}

/// The resolutions of the references to `t`, in index order.
pub open spec fn resolutions(idx: Index, t: Seq<char>) -> Seq<RefResolution> {
    refs_named(idx.references@, t).map_values(
        |r: Reference|
            {
                let (d, c, w) = resolution(idx.definitions@, idx.imports@, t, r.file@);
                RefResolution { reference: r, definition: d, confidence: c, reason: w }
            },
    )
}

/// Two definitions of `t` lie in different files.
pub open spec fn defined_in_several_files(defs: Seq<Definition>, t: Seq<char>) -> bool {
    exists|i: int, j: int|
        0 <= i < defs.len() && 0 <= j < defs.len() && defs[i].name@ == t && defs[j].name@ == t
            && defs[i].file@ != defs[j].file@
}

pub open spec fn candidate_view(d: Definition) -> CandidateView {
    CandidateView { file: d.file@, line: d.line, kind: def_kind_text(d.kind) }
}

/// The definitions of `t`, as anchor candidates.
pub open spec fn candidates_of(defs: Seq<Definition>, t: Seq<char>) -> Seq<CandidateView> {
    defs.filter(named(t)).map_values(|d: Definition| candidate_view(d))
}

pub open spec fn low_skip_view(x: RefResolution, old_len: nat) -> SkippedSiteView {
    SkippedSiteView {
        file: x.reference.file@,
        line: x.reference.line,
        col: x.reference.column,
        start_byte: x.reference.byte_offset,
        end_byte: (x.reference.byte_offset + old_len) as usize,
        name: x.reference.name@,
        confidence: confidence_text(x.confidence),
        reason: reason_text(x.reason),
        skip_reason: "low-confidence"@,
        via_alias: None,
        via_module: None,
    }
}

pub open spec fn is_low(x: RefResolution) -> bool {
    x.confidence == Confidence::Low
}

/// The low-confidence sites, skipped.
pub open spec fn low_skips(rs: Seq<RefResolution>, old_len: nat) -> Seq<SkippedSiteView> {
    rs.filter(|x: RefResolution| is_low(x)).map_values(|x: RefResolution| low_skip_view(x, old_len))
}

pub open spec fn alias_skip_view(site: AliasReexport, old: Seq<char>) -> SkippedSiteView {
    SkippedSiteView {
        file: site.file@,
        line: site.line,
        col: 0,
        start_byte: 0,
        end_byte: 0,
        name: old,
        confidence: "high"@,
        reason: "same-file-scope"@,
        skip_reason: "re-export-alias"@,
        via_alias: Some(site.original@),
        via_module: None,
    }
}

/// The alias re-export sites of `old`, skipped.
pub open spec fn alias_skips(idx: Index, old: Seq<char>) -> Seq<SkippedSiteView> {
    match lookup(idx.alias_reexports@, old) {
        Some(v) => v@.map_values(|s: AliasReexport| alias_skip_view(s, old)),
        None => Seq::empty(),
    }
}

/// The reference sits on the line of an alias re-export of `old`.
pub open spec fn at_alias_site(idx: Index, old: Seq<char>, r: Reference) -> bool {
    match lookup(idx.alias_reexports@, old) {
        Some(v) => on_some_line(v@, r),
        None => false,
    }
}

/// One of `v` is in the reference's file, on its line.
pub open spec fn on_some_line(v: Seq<AliasReexport>, r: Reference) -> bool {
    exists|k: int| 0 <= k < v.len() && v[k].file@ == r.file@ && v[k].line == r.line
}

/// All wildcard re-export sites, table order then site order.
pub open spec fn wildcard_sites(idx: Index) -> Seq<WildcardReexport> {
    idx.wildcard_reexports@.map_values(|e: (String, Vec<WildcardReexport>)| sites_of(e)).flatten()
}

/// The wildcard's module path ends in a segment that is the stem of a file
/// defining `old`.
pub open spec fn wildcard_related(defs: Seq<Definition>, old: Seq<char>, s: WildcardReexport) -> bool {
    exists|i: int|
        0 <= i < defs.len() && defs[i].name@ == old && stem_or_empty(defs[i].file@)
            == last_segment(s.module@, "::"@)
}

/// The related wildcard sites, keeping the first site of each (file, line).
pub open spec fn wildcard_kept(sites: Seq<WildcardReexport>, defs: Seq<Definition>, old: Seq<char>) -> Seq<
    WildcardReexport,
>
    decreases sites.len(),
{
    if sites.len() == 0 {
        Seq::empty()
    } else {
        let prev = wildcard_kept(sites.drop_last(), defs, old);
        let s = sites.last();
        if wildcard_related(defs, old, s) && !(exists|k: int|
            0 <= k < prev.len() && prev[k].file@ == s.file@ && prev[k].line == s.line) {
            prev.push(s)
        } else {
            prev
        }
    }
}

pub open spec fn wildcard_skip_view(s: WildcardReexport, old: Seq<char>) -> SkippedSiteView {
    SkippedSiteView {
        file: s.file@,
        line: s.line,
        col: 0,
        start_byte: 0,
        end_byte: 0,
        name: old,
        confidence: "medium"@,
        reason: "import-resolved"@,
        skip_reason: "wildcard-reexport"@,
        via_alias: None,
        via_module: Some(s.module@),
    }
}

/// The wildcard re-export sites related to `old`, skipped.
pub open spec fn wildcard_skips(idx: Index, old: Seq<char>) -> Seq<SkippedSiteView> {
    wildcard_kept(wildcard_sites(idx), idx.definitions@, old).map_values(
        |s: WildcardReexport| wildcard_skip_view(s, old),
    )
}

// ---------------------------------------------------------------------------
// Anchors
// ---------------------------------------------------------------------------
pub open spec fn is_digit(c: char) -> bool {
    '0' <= c <= '9'
}

/// The decimal value of a string of digits.
pub open spec fn digits_value(s: Seq<char>) -> int
    decreases s.len(),
{
    if s.len() == 0 {
        0
    } else {
        digits_value(s.drop_last()) * 10 + (s.last() as int - '0' as int)
    }
}

pub open spec fn all_digits(d: Seq<char>) -> bool {
    forall|i: int| 0 <= i < d.len() ==> is_digit(d[i])
}

/// `usize::from_str`: an optional `+`, then at least one digit, and a value
/// that fits.
pub open spec fn parse_usize(s: Seq<char>) -> Option<usize> {
    let d = if s.len() > 0 && s[0] == '+' {
        s.skip(1)
    } else {
        s
    };
    if d.len() > 0 && all_digits(d) && digits_value(d) <= usize::MAX {
        Some(digits_value(d) as usize)
    } else {
        None
    }
}

/// `FILE:LINE` split at its last `:`.
pub open spec fn anchor_parts(a: Seq<char>) -> Option<(Seq<char>, usize)> {
    let k = crate::text::last_index_of(a, ':');
    if k < 0 {
        None
    } else {
        match parse_usize(a.skip(k + 1)) {
            Some(line) => Some((a.subrange(0, k), line)),
            None => None,
        }
    }
}

/// With an anchor, only references resolved to the anchored definition are
/// edited; an anchor that is not `FILE:LINE` selects nothing.
pub open spec fn anchor_accepts(anchor: Option<Seq<char>>, d: Option<Definition>) -> bool {
    match anchor {
        None => true,
        Some(a) => match (anchor_parts(a), d) {
            (Some((f, l)), Some(d)) => d.file@ == f && d.line == l,
            _ => false,
        },
    }
}

/// The sites queued for editing: high or medium confidence, not on an alias
/// re-export line, and accepted by the anchor.
pub open spec fn queued(idx: Index, rs: Seq<RefResolution>, old: Seq<char>, anchor: Option<Seq<char>>) -> Seq<
    RefResolution,
> {
    rs.filter(queue_pred(idx, old, anchor))
}

pub open spec fn edit_view(x: RefResolution, old: Seq<char>, new: Seq<char>, old_len: nat) -> AppliedEditView {
    AppliedEditView {
        line: x.reference.line,
        col: x.reference.column,
        start_byte: x.reference.byte_offset,
        end_byte: (x.reference.byte_offset + old_len) as usize,
        old: old,
        new: new,
        confidence: confidence_text(x.confidence),
        reason: reason_text(x.reason),
    }
}

// ---------------------------------------------------------------------------
// Computing the parts
// ---------------------------------------------------------------------------
proof fn lemma_filter_map_push<A, B>(s: Seq<A>, x: A, p: spec_fn(A) -> bool, f: spec_fn(A) -> B)
    ensures
        s.push(x).filter(p).map_values(f) == (if p(x) {
            s.filter(p).map_values(f).push(f(x))
        } else {
            s.filter(p).map_values(f)
        }),
{
    crate::order::lemma_filter_push(s, x, p);
    if p(x) {
        assert(s.filter(p).push(x).map_values(f) =~= s.filter(p).map_values(f).push(f(x)));
    }
}

/// The definitions of `old` as candidates, in index order.
fn candidates(defs: &Vec<Definition>, old: &str) -> (res: Vec<Candidate>)
    ensures
        res@.map_values(|c: Candidate| c@) == candidates_of(defs@, old@),
{
    let mut out: Vec<Candidate> = Vec::new();
    let mut i: usize = 0;
    proof {
        reveal(Seq::filter);
    }
    assert(defs@.take(0).filter(named(old@)).map_values(|d: Definition| candidate_view(d))
        =~= Seq::<CandidateView>::empty());
    while i < defs.len()
        invariant
            i <= defs@.len(),
            out@.map_values(|c: Candidate| c@) == defs@.take(i as int).filter(named(old@)).map_values(
                |d: Definition| candidate_view(d),
            ),
        decreases defs@.len() - i,
    {
        let d = &defs[i];
        proof {
            assert(defs@.take(i + 1) =~= defs@.take(i as int).push(*d));
            lemma_filter_map_push(
                defs@.take(i as int),
                *d,
                named(old@),
                |d: Definition| candidate_view(d),
            );
        }
        if str_eq(d.name.as_str(), old) {
            let c = Candidate {
                file: d.file.clone(),
                line: d.line,
                kind: def_kind_str(d.kind).to_owned(),
            };
            let ghost before = out@;
            out.push(c);
            assert(out@.map_values(|c: Candidate| c@) =~= before.map_values(|c: Candidate| c@).push(
                c@,
            ));
        }
        i = i + 1;
    }
    assert(defs@.take(i as int) =~= defs@);
    out
}

/// Whether two definitions of `old` lie in different files.
fn defined_in_several(defs: &Vec<Definition>, old: &str) -> (res: bool)
    ensures
        res == defined_in_several_files(defs@, old@),
{
    let mut first: Option<usize> = None;
    let mut i: usize = 0;
    while i < defs.len()
        invariant
            i <= defs@.len(),
            first is None ==> forall|j: int| 0 <= j < i ==> defs@[j].name@ != old@,
            first matches Some(f) ==> f < i && defs@[f as int].name@ == old@ && forall|j: int|
                0 <= j < i && defs@[j].name@ == old@ ==> defs@[j].file@ == defs@[f as int].file@,
        decreases defs@.len() - i,
    {
        if str_eq(defs[i].name.as_str(), old) {
            match first {
                None => {
                    first = Some(i);
                },
                Some(f) => {
                    if !str_eq(defs[i].file.as_str(), defs[f].file.as_str()) {
                        assert(defs@[i as int].name@ == old@ && defs@[f as int].name@ == old@
                            && defs@[i as int].file@ != defs@[f as int].file@);
                        return true;
                    }
                },
            }
        }
        i = i + 1;
    }
    false
}

/// The low-confidence resolutions as skipped sites.
fn low_confidence_skips(resolved: &Vec<Resolved>, old_len: usize) -> (res: Vec<SkippedSite>)
    requires
        forall|k: int|
            0 <= k < resolved@.len() ==> #[trigger] resolved@[k].reference.byte_offset + old_len
                <= usize::MAX,
    ensures
        res@.map_values(|s: SkippedSite| s@) == low_skips(
            resolved@.map_values(|r: Resolved| resolved_view(r)),
            old_len as nat,
        ),
{
    let ghost rs = resolved@.map_values(|r: Resolved| resolved_view(r));
    let mut out: Vec<SkippedSite> = Vec::new();
    let mut i: usize = 0;
    proof {
        reveal(Seq::filter);
    }
    assert(rs.take(0).filter(|x: RefResolution| is_low(x)).map_values(
        |x: RefResolution| low_skip_view(x, old_len as nat),
    ) =~= Seq::<SkippedSiteView>::empty());
    while i < resolved.len()
        invariant
            i <= resolved@.len(),
            rs == resolved@.map_values(|r: Resolved| resolved_view(r)),
            forall|k: int|
                0 <= k < resolved@.len() ==> #[trigger] resolved@[k].reference.byte_offset
                    + old_len <= usize::MAX,
            out@.map_values(|s: SkippedSite| s@) == rs.take(i as int).filter(
                |x: RefResolution| is_low(x),
            ).map_values(|x: RefResolution| low_skip_view(x, old_len as nat)),
        decreases resolved@.len() - i,
    {
        let r = &resolved[i];
        proof {
            assert(rs.take(i + 1) =~= rs.take(i as int).push(resolved_view(*r)));
            lemma_filter_map_push(
                rs.take(i as int),
                resolved_view(*r),
                |x: RefResolution| is_low(x),
                |x: RefResolution| low_skip_view(x, old_len as nat),
            );
        }
        if matches!(r.confidence, Confidence::Low) {
            let s = SkippedSite {
                file: r.reference.file.clone(),
                line: r.reference.line,
                col: r.reference.column,
                start_byte: r.reference.byte_offset,
                end_byte: r.reference.byte_offset + old_len,
                name: r.reference.name.clone(),
                confidence: r.confidence.as_str(),
                reason: r.reason.as_str(),
                skip_reason: "low-confidence",
                via_alias: None,
                via_module: None,
            };
            let ghost before = out@;
            out.push(s);
            assert(out@.map_values(|s: SkippedSite| s@) =~= before.map_values(|s: SkippedSite| s@).push(
                s@,
            ));
        }
        i = i + 1;
    }
    assert(rs.take(i as int) =~= rs);
    out
}

/// The alias re-export sites of `old` as skipped sites.
fn alias_skip_sites(idx: &Index, old: &str) -> (res: Vec<SkippedSite>)
    requires
        idx.well_formed(),
    ensures
        res@.map_values(|s: SkippedSite| s@) == alias_skips(*idx, old@),
{
    let mut out: Vec<SkippedSite> = Vec::new();
    match idx.alias_sites(old) {
        None => {
            assert(out@.map_values(|s: SkippedSite| s@) =~= Seq::<SkippedSiteView>::empty());
            out
        },
        Some(sites) => {
            let mut i: usize = 0;
            while i < sites.len()
                invariant
                    i <= sites@.len(),
                    out@.map_values(|s: SkippedSite| s@) == sites@.take(i as int).map_values(
                        |s: AliasReexport| alias_skip_view(s, old@),
                    ),
                decreases sites@.len() - i,
            {
                let site = &sites[i];
                let s = SkippedSite {
                    file: site.file.clone(),
                    line: site.line,
                    col: 0,
                    start_byte: 0,
                    end_byte: 0,
                    name: old.to_owned(),
                    confidence: "high",
                    reason: "same-file-scope",
                    skip_reason: "re-export-alias",
                    via_alias: Some(site.original.clone()),
                    via_module: None,
                };
                let ghost before = out@;
                out.push(s);
                assert(out@.map_values(|s: SkippedSite| s@) =~= before.map_values(
                    |s: SkippedSite| s@,
                ).push(s@));
                assert(sites@.take(i + 1).map_values(|s: AliasReexport| alias_skip_view(s, old@))
                    =~= sites@.take(i as int).map_values(
                    |s: AliasReexport| alias_skip_view(s, old@),
                ).push(alias_skip_view(*site, old@)));
                i = i + 1;
            }
            assert(sites@.take(i as int) =~= sites@);
            out
        },
    }
}

/// Whether some definition of `old` lives in a file whose stem is `tail`.
fn related_to_old(defs: &Vec<Definition>, old: &str, site: &WildcardReexport) -> (res: bool)
    ensures
        res == wildcard_related(defs@, old@, *site),
{
    proof {
        reveal_strlit("::");
    }
    let module = chars_of(site.module.as_str());
    let sep = chars_of("::");
    let tail = last_segment_of(module.as_slice(), sep.as_slice());
    let mut i: usize = 0;
    while i < defs.len()
        invariant
            i <= defs@.len(),
            tail@ == last_segment(site.module@, "::"@),
            forall|j: int|
                0 <= j < i ==> !(defs@[j].name@ == old@ && stem_or_empty(defs@[j].file@) == tail@),
        decreases defs@.len() - i,
    {
        if str_eq(defs[i].name.as_str(), old) {
            let file = chars_of(defs[i].file.as_str());
            let stem = file_stem_or_empty(file.as_slice());
            if slice_eq(stem.as_slice(), tail.as_slice()) {
                return true;
            }
        }
        i = i + 1;
    }
    false
}

pub open spec fn sites_of(e: (String, Vec<WildcardReexport>)) -> Seq<WildcardReexport> {
    e.1@
}

/// The wildcard sites of the first `g` groups, then the first `k` of group `g`.
pub open spec fn site_prefix(idx: Index, g: int, k: int) -> Seq<WildcardReexport> {
    idx.wildcard_reexports@.take(g).map_values(|e: (String, Vec<WildcardReexport>)| sites_of(e)).flatten_alt()
        + idx.wildcard_reexports@[g].1@.take(k)
}

/// The related wildcard re-export sites of `old` as skipped sites.
fn wildcard_skip_sites(idx: &Index, old: &str) -> (res: Vec<SkippedSite>)
    ensures
        res@.map_values(|s: SkippedSite| s@) == wildcard_skips(*idx, old@),
{
    let ghost groups = idx.wildcard_reexports@;
    let ghost f = |e: (String, Vec<WildcardReexport>)| sites_of(e);
    let mut out: Vec<SkippedSite> = Vec::new();
    let ghost mut kept: Seq<WildcardReexport> = Seq::empty();
    let mut g: usize = 0;
    assert(groups.take(0).map_values(f) =~= Seq::<Seq<WildcardReexport>>::empty());
    while g < idx.wildcard_reexports.len()
        invariant
            g <= groups.len(),
            groups == idx.wildcard_reexports@,
            f == (|e: (String, Vec<WildcardReexport>)| sites_of(e)),
            kept == wildcard_kept(groups.take(g as int).map_values(f).flatten_alt(), idx.definitions@, old@),
            out@.map_values(|s: SkippedSite| s@) == kept.map_values(
                |s: WildcardReexport| wildcard_skip_view(s, old@),
            ),
        decreases groups.len() - g,
    {
        let sites = &idx.wildcard_reexports[g].1;
        let ghost base = groups.take(g as int).map_values(f).flatten_alt();
        let mut k: usize = 0;
        assert(base + sites@.take(0) =~= base);
        while k < sites.len()
            invariant
                k <= sites@.len(),
                g < groups.len(),
                groups == idx.wildcard_reexports@,
                *sites == groups[g as int].1,
                kept == wildcard_kept(base + sites@.take(k as int), idx.definitions@, old@),
                out@.map_values(|s: SkippedSite| s@) == kept.map_values(
                    |s: WildcardReexport| wildcard_skip_view(s, old@),
                ),
            decreases sites@.len() - k,
        {
            let site = &sites[k];
            let ghost prefix = base + sites@.take(k as int);
            assert((base + sites@.take(k + 1)).drop_last() =~= prefix);
            assert((base + sites@.take(k + 1)).last() == *site);
            if related_to_old(&idx.definitions, old, site) {
                let mut already = false;
                let mut j: usize = 0;
                while j < out.len()
                    invariant
                        j <= out@.len(),
                        out@.map_values(|s: SkippedSite| s@) == kept.map_values(
                            |s: WildcardReexport| wildcard_skip_view(s, old@),
                        ),
                        !already ==> forall|m: int|
                            0 <= m < j ==> !(kept[m].file@ == site.file@ && kept[m].line
                                == site.line),
                        already ==> exists|m: int|
                            0 <= m < kept.len() && kept[m].file@ == site.file@ && kept[m].line
                                == site.line,
                    decreases out@.len() - j,
                {
                    assert(out@.map_values(|s: SkippedSite| s@).len() == out@.len());
                    assert(kept.map_values(|s: WildcardReexport| wildcard_skip_view(s, old@)).len()
                        == kept.len());
                    assert(out@.map_values(|s: SkippedSite| s@)[j as int] == out@[j as int]@);
                    assert(kept.map_values(|s: WildcardReexport| wildcard_skip_view(s, old@))[j as int]
                        == wildcard_skip_view(kept[j as int], old@));
                    assert(out@.map_values(|s: SkippedSite| s@).len() == out@.len());
                    if str_eq(out[j].file.as_str(), site.file.as_str()) && out[j].line
                        == site.line {
                        already = true;
                    }
                    j = j + 1;
                }
                if !already {
                    let s = SkippedSite {
                        file: site.file.clone(),
                        line: site.line,
                        col: 0,
                        start_byte: 0,
                        end_byte: 0,
                        name: old.to_owned(),
                        confidence: "medium",
                        reason: "import-resolved",
                        skip_reason: "wildcard-reexport",
                        via_alias: None,
                        via_module: Some(site.module.clone()),
                    };
                    let ghost before = out@;
                    out.push(s);
                    proof {
                        kept = kept.push(*site);
                        assert(out@.map_values(|s: SkippedSite| s@) =~= before.map_values(
                            |s: SkippedSite| s@,
                        ).push(s@));
                        assert(kept.map_values(|s: WildcardReexport| wildcard_skip_view(s, old@))
                            =~= kept.drop_last().map_values(
                            |s: WildcardReexport| wildcard_skip_view(s, old@),
                        ).push(wildcard_skip_view(*site, old@)));
                    }
                }
            }
            k = k + 1;
        }
        proof {
            assert(sites@.take(k as int) =~= sites@);
            let next = groups.take(g + 1).map_values(f);
            assert(next.drop_last() =~= groups.take(g as int).map_values(f));
            assert(next.last() == sites@);
        }
        g = g + 1;
    }
    proof {
        assert(groups.take(g as int) =~= groups);
        groups.map_values(f).lemma_flatten_and_flatten_alt_are_equivalent();
        assert(groups.map_values(f) =~= idx.wildcard_reexports@.map_values(
            |e: (String, Vec<WildcardReexport>)| sites_of(e),
        ));
    }
    out
}

// ---------------------------------------------------------------------------
// Anchors, computed
// ---------------------------------------------------------------------------
proof fn lemma_digits_monotone(s: Seq<char>, i: int)
    requires
        0 <= i <= s.len(),
        forall|j: int| 0 <= j < s.len() ==> is_digit(s[j]),
    ensures
        digits_value(s.take(i)) <= digits_value(s),
        digits_value(s) >= 0,
    decreases s.len(),
{
    if s.len() > 0 {
        if i == s.len() {
            assert(s.take(i) =~= s);
            lemma_digits_monotone(s.drop_last(), 0);
        } else {
            assert(s.take(i) =~= s.drop_last().take(i));
            lemma_digits_monotone(s.drop_last(), i);
        }
    } else {
        assert(s.take(i) =~= s);
    }
}

/// `usize::from_str` on the characters `s[from..]`.
fn parse_usize_from(s: &[char], from: usize) -> (res: Option<usize>)
    requires
        from <= s@.len(),
    ensures
        res == parse_usize(s@.skip(from as int)),
{
    let ghost t = s@.skip(from as int);
    let mut start = from;
    if start < s.len() && s[start] == '+' {
        start = start + 1;
    }
    let ghost d = s@.skip(start as int);
    assert(d =~= (if t.len() > 0 && t[0] == '+' {
        t.skip(1)
    } else {
        t
    }));
    if start == s.len() {
        return None;
    }
    let mut value: usize = 0;
    let mut i = start;
    assert(d.take(0) =~= Seq::<char>::empty());
    while i < s.len()
        invariant
            start <= i <= s@.len(),
            d == s@.skip(start as int),
            t == s@.skip(from as int),
            d == (if t.len() > 0 && t[0] == '+' {
                t.skip(1)
            } else {
                t
            }),
            forall|j: int| 0 <= j < i - start ==> is_digit(d[j]),
            value == digits_value(d.take(i - start)),
        decreases s@.len() - i,
    {
        let c = s[i];
        assert(d[i - start] == c);
        if !('0' <= c && c <= '9') {
            assert(!is_digit(d[i - start]));
            assert(!(forall|j: int| 0 <= j < d.len() ==> is_digit(d[j])));
            return None;
        }
        let digit = (c as u32 - '0' as u32) as usize;
        assert(digit == c as int - '0' as int);
        assert(d.take(i - start + 1).drop_last() =~= d.take(i - start));
        assert(d.take(i - start + 1).last() == c);
        if value > (usize::MAX - digit) / 10 {
            proof {
                assert(digits_value(d.take(i - start + 1)) == value * 10 + digit);
                assert(value * 10 + digit > usize::MAX) by (nonlinear_arith)
                    requires
                        value > (usize::MAX - digit) / 10,
                        digit <= 9,
                ;
                if (forall|j: int| 0 <= j < d.len() ==> is_digit(d[j])) {
                    lemma_digits_monotone(d, i - start + 1);
                    assert(digits_value(d) > usize::MAX);
                }
                assert(parse_usize(t) is None);
            }
            return None;
        }
        value = value * 10 + digit;
        i = i + 1;
    }
    assert(d.take(i - start) =~= d);
    Some(value)
}

/// `anchor_parts`, computed: the file part and the line.
fn parse_anchor(a: &str) -> (res: Option<(Vec<char>, usize)>)
    ensures
        match res {
            Some((f, l)) => anchor_parts(a@) == Some((f@, l)),
            None => anchor_parts(a@) is None,
        },
{
    let cs = chars_of(a);
    assert(cs@.subrange(0, cs@.len() as int) =~= cs@);
    match crate::text::last_index_before(cs.as_slice(), cs.len(), ':') {
        None => None,
        Some(k) => match parse_usize_from(cs.as_slice(), k + 1) {
            None => None,
            Some(line) => Some((copy_range(cs.as_slice(), 0, k), line)),
        },
    }
}

/// Whether the anchor admits a site resolved to `d`.
fn anchor_admits(anchor: &Option<(Vec<char>, usize)>, has_anchor: bool, d: Option<&Definition>) -> (res: bool)
    ensures
        !has_anchor ==> res,
        has_anchor ==> res == match (*anchor, deref_opt(d)) {
            (Some((f, l)), Some(d)) => d.file@ == f@ && d.line == l,
            _ => false,
        },
{
    if !has_anchor {
        return true;
    }
    match (anchor, d) {
        (Some((f, l)), Some(d)) => {
            let file = chars_of(d.file.as_str());
            slice_eq(file.as_slice(), f.as_slice()) && d.line == *l
        },
        _ => false,
    }
}

/// Whether `r` sits on the line of an alias re-export of `old`.
fn on_alias_site(idx: &Index, old: &str, r: &Reference) -> (res: bool)
    requires
        idx.well_formed(),
    ensures
        res == at_alias_site(*idx, old@, *r),
{
    match idx.alias_sites(old) {
        None => false,
        Some(sites) => {
            let mut i: usize = 0;
            while i < sites.len()
                invariant
                    i <= sites@.len(),
                    lookup(idx.alias_reexports@, old@) == Some(*sites),
                    forall|k: int|
                        0 <= k < i ==> !(sites@[k].file@ == r.file@ && sites@[k].line == r.line),
                decreases sites@.len() - i,
            {
                if str_eq(sites[i].file.as_str(), r.file.as_str()) && sites[i].line == r.line {
                    assert(sites@[i as int].file@ == r.file@ && sites@[i as int].line == r.line);
                    assert(lookup(idx.alias_reexports@, old@) == Some(*sites));
                    assert(on_some_line(sites@, *r));
                    return true;
                }
                i = i + 1;
            }
            false
        },
    }
}

// ---------------------------------------------------------------------------
// Edits
// ---------------------------------------------------------------------------
/// Edits are ordered by start byte, last first, so that applying them in
/// order leaves earlier offsets valid.
impl Ranked for AppliedEdit {
    open spec fn spec_rank_le(&self, other: &Self) -> bool {
        self.start_byte >= other.start_byte
    }

    fn rank_le(&self, other: &Self) -> (res: bool) {
        self.start_byte >= other.start_byte
    }

    proof fn rank_total(a: &Self, b: &Self) {
    }

    proof fn rank_trans(a: &Self, b: &Self, c: &Self) {
    }
}

pub open spec fn resolved_edit_view(r: &Resolved, old: Seq<char>, new: Seq<char>, old_len: nat) -> AppliedEditView {
    edit_view(resolved_view(*r), old, new, old_len)
}

/// The edits of one file: every queued site there, last first, and the
/// file's change in length.
pub open spec fn file_edits_ok(
    res: AppliedFile,
    file: Seq<char>,
    q: Seq<RefResolution>,
    old: Seq<char>,
    new: Seq<char>,
    old_len: nat,
    new_len: nat,
) -> bool {
    &&& res.file@ == file
    &&& res.bytes_changed == (new_len - old_len) * q.len()
    &&& exists|u: Seq<AppliedEdit>|
        #![trigger stable_sorted(u, res.edits@)]
        u.map_values(|e: AppliedEdit| e@) == q.map_values(
            |x: RefResolution| edit_view(x, old, new, old_len),
        ) && stable_sorted(u, res.edits@)
}

/// Builds the `AppliedFile` of one file from the sites queued there.
fn build_edits(file: &str, refs: &Vec<&Resolved>, args: &RenameArgs) -> (res: AppliedFile)
    requires
        forall|k: int|
            0 <= k < refs@.len() ==> #[trigger] refs@[k].reference.byte_offset + byte_len(args.old@)
                <= usize::MAX,
        refs@.len() * (byte_len(args.old@) + byte_len(args.new@)) <= i64::MAX,
        byte_len(args.old@) + byte_len(args.new@) <= i64::MAX,
        byte_len(args.old@) + byte_len(args.new@) <= usize::MAX,
        refs@.len() <= i64::MAX,
    ensures
        file_edits_ok(
            res,
            file@,
            refs@.map_values(|r: &Resolved| resolved_view(*r)),
            args.old@,
            args.new@,
            byte_len(args.old@),
            byte_len(args.new@),
        ),
{
    let old_str = args.old.as_str();
    let new_str = args.new.as_str();
    let old_len = old_str.len();
    let new_len = new_str.len();
    assert(old_str.spec_bytes() == vstd::utf8::encode_utf8(old_str@));
    assert(new_str.spec_bytes() == vstd::utf8::encode_utf8(new_str@));
    assert(old_len == byte_len(args.old@));
    assert(new_len == byte_len(args.new@));
    let ghost q = refs@.map_values(|r: &Resolved| resolved_view(*r));
    let ghost f = |x: RefResolution| edit_view(x, args.old@, args.new@, old_len as nat);
    let mut edits: Vec<AppliedEdit> = Vec::new();
    let mut i: usize = 0;
    while i < refs.len()
        invariant
            i <= refs@.len(),
            old_len == byte_len(args.old@),
            new_len == byte_len(args.new@),
            q == refs@.map_values(|r: &Resolved| resolved_view(*r)),
            f == (|x: RefResolution| edit_view(x, args.old@, args.new@, old_len as nat)),
            forall|k: int|
                0 <= k < refs@.len() ==> #[trigger] refs@[k].reference.byte_offset + byte_len(
                    args.old@,
                ) <= usize::MAX,
            edits@.map_values(|e: AppliedEdit| e@) == q.take(i as int).map_values(f),
        decreases refs@.len() - i,
    {
        let r = refs[i];
        let e = AppliedEdit {
            line: r.reference.line,
            col: r.reference.column,
            start_byte: r.reference.byte_offset,
            end_byte: r.reference.byte_offset + old_len,
            old: args.old.clone(),
            new: args.new.clone(),
            confidence: r.confidence.as_str(),
            reason: r.reason.as_str(),
        };
        let ghost before = edits@;
        edits.push(e);
        proof {
            assert(q[i as int] == resolved_view(*r));
            assert(q.take(i + 1).map_values(f) =~= q.take(i as int).map_values(f).push(f(q[i as int])));
            assert(edits@.map_values(|e: AppliedEdit| e@) =~= before.map_values(|e: AppliedEdit| e@).push(
                e@,
            ));
        }
        i = i + 1;
    }
    assert(q.take(i as int) =~= q);
    let ghost unsorted = edits@;
    let n = edits.len();
    let sorted = stable_sort(edits);
    assert((n as int) * (old_len + new_len) <= i64::MAX);
    assert((new_len as int - old_len as int) * (n as int) <= i64::MAX) by (nonlinear_arith)
        requires
            (n as int) * (old_len + new_len) <= i64::MAX,
            n >= 0,
            old_len >= 0,
            new_len >= 0,
    ;
    assert((new_len as int - old_len as int) * (n as int) >= i64::MIN) by (nonlinear_arith)
        requires
            (n as int) * (old_len + new_len) <= i64::MAX,
            n >= 0,
            old_len >= 0,
            new_len >= 0,
    ;
    let bytes_changed = (new_len as i64 - old_len as i64) * (n as i64);
    let res = AppliedFile { file: file.to_owned(), bytes_changed, edits: sorted };
    assert(stable_sorted(unsorted, res.edits@));
    assert(unsorted.map_values(|e: AppliedEdit| e@) =~= q.map_values(
        |x: RefResolution| edit_view(x, args.old@, args.new@, byte_len(args.old@)),
    )) by {
        assert(q.take(n as int) =~= q);
        assert forall|k: int| 0 <= k < q.len() implies unsorted.map_values(|e: AppliedEdit| e@)[k]
            == edit_view(q[k], args.old@, args.new@, byte_len(args.old@)) by {
            assert(q.take(n as int).map_values(f)[k] == f(q[k]));
        }
    }
    res
}

// ---------------------------------------------------------------------------
// Grouping the queue by file
// ---------------------------------------------------------------------------
pub open spec fn in_file(f: Seq<char>) -> spec_fn(RefResolution) -> bool {
    |x: RefResolution| x.reference.file@ == f
}

pub open spec fn group_sites(g: (String, Vec<&Resolved>)) -> Seq<RefResolution> {
    g.1@.map_values(|r: &Resolved| resolved_view(*r))
}

/// `groups` holds the sites of `q` by file: files in increasing order, each
/// with its sites in queue order, and every file of `q` present.
pub open spec fn grouped(groups: Seq<(String, Vec<&Resolved>)>, q: Seq<RefResolution>) -> bool {
    &&& forall|i: int, j: int| 0 <= i < j < groups.len() ==> seq_lt(groups[i].0@, groups[j].0@)
    &&& forall|i: int|
        #![trigger groups[i]]
        0 <= i < groups.len() ==> group_sites(groups[i]) == q.filter(in_file(groups[i].0@))
            && groups[i].1@.len() > 0
    &&& forall|k: int| #![trigger q[k]] 0 <= k < q.len() ==> has_group(groups, q[k].reference.file@)
}

/// Some group is for file `f`.
pub open spec fn has_group(groups: Seq<(String, Vec<&Resolved>)>, f: Seq<char>) -> bool {
    exists|i: int| 0 <= i < groups.len() && groups[i].0@ == f
}

/// The queue predicate, for a given anchor.
pub open spec fn queue_pred(idx: Index, old: Seq<char>, anchor: Option<Seq<char>>) -> spec_fn(
    RefResolution,
) -> bool {
    |x: RefResolution|
        x.confidence != Confidence::Low && !at_alias_site(idx, old, x.reference) && anchor_accepts(
            anchor,
            x.definition,
        )
}

pub open spec fn opt_string_view(s: Option<String>) -> Option<Seq<char>> {
    match s {
        Some(s) => Some(s@),
        None => None,
    }
}

/// Adds `r`, a site in file `f`, to the groups.
#[verifier::rlimit(40)]
fn add_to_group<'a, 'b>(
    groups: &mut Vec<(String, Vec<&'a Resolved<'b>>)>,
    r: &'a Resolved<'b>,
    Ghost(q): Ghost<Seq<RefResolution>>,
)
    requires
        grouped(old(groups)@, q),
    ensures
        grouped(final(groups)@, q.push(resolved_view(*r))),
{
    let f = r.reference.file.as_str();
    let fc = chars_of(f);
    let ghost x = resolved_view(*r);
    let ghost q2 = q.push(x);
    let mut p: usize = 0;
    while p < groups.len() && chars_less(chars_of(groups[p].0.as_str()).as_slice(), fc.as_slice())
        invariant
            p <= groups@.len(),
            groups@ == old(groups)@,
            fc@ == f@,
            forall|i: int| 0 <= i < p ==> seq_lt(groups@[i].0@, f@),
        decreases groups@.len() - p,
    {
        p = p + 1;
    }
    proof {
        crate::text::lemma_seq_lt_irrefl(f@);
    }
    if p < groups.len() && str_eq(groups[p].0.as_str(), f) {
        let ghost g0 = groups@;
        let mut g = groups.remove(p);
        assert(g == g0[p as int]);
        let ghost key = g.0@;
        let ghost before = g.1@;
        g.1.push(r);
        groups.insert(p, g);
        proof {
            assert(g.0@ == key);
            assert(groups@ =~= g0.update(p as int, g));
            assert forall|i: int, j: int| 0 <= i < j < groups@.len() implies seq_lt(
                groups@[i].0@,
                groups@[j].0@,
            ) by {
                assert(groups@[i].0@ == g0[i].0@);
                assert(groups@[j].0@ == g0[j].0@);
            }
            assert(g.1@.map_values(|r: &Resolved| resolved_view(*r)) =~= before.map_values(
                |r: &Resolved| resolved_view(*r),
            ).push(x));
            assert forall|i: int|
                #![trigger groups@[i]]
                0 <= i < groups@.len() implies group_sites(groups@[i]) == q2.filter(
                    in_file(groups@[i].0@),
                ) && groups@[i].1@.len() > 0 by {
                crate::order::lemma_filter_push(q, x, in_file(groups@[i].0@));
                if i != p {
                    assert(groups@[i] == g0[i]);
                    if g0[i].0@ == f@ {
                        if i < p {
                            assert(seq_lt(g0[i].0@, g0[p as int].0@));
                        } else {
                            assert(seq_lt(g0[p as int].0@, g0[i].0@));
                        }
                    }
                }
            }
            assert forall|k: int|
                #![trigger q2[k]]
                0 <= k < q2.len() implies has_group(groups@, q2[k].reference.file@) by {
                if k < q.len() {
                    assert(q2[k] == q[k]);
                    assert(has_group(g0, q[k].reference.file@));
                    let i = choose|i: int| 0 <= i < g0.len() && g0[i].0@ == q[k].reference.file@;
                    assert(groups@[i].0@ == g0[i].0@);
                } else {
                    assert(groups@[p as int].0@ == f@);
                }
            }
            assert(grouped(groups@, q2));
        }
    } else {
        let mut v: Vec<&Resolved> = Vec::new();
        v.push(r);
        let g = (f.to_owned(), v);
        let ghost g0 = groups@;
        proof {
            if p < g0.len() {
                crate::text::lemma_seq_lt_total(g0[p as int].0@, f@);
            }
        }
        groups.insert(p, g);
        proof {
            assert(groups@ =~= g0.insert(p as int, g));
            assert(g.1@.map_values(|r: &Resolved| resolved_view(*r)) =~= seq![x]);
            assert forall|i: int, j: int| 0 <= i < j < groups@.len() implies seq_lt(
                groups@[i].0@,
                groups@[j].0@,
            ) by {
                if j < p {
                } else if j == p {
                } else if i == p {
                    assert(groups@[j] == g0[j - 1]);
                    if j - 1 > p {
                        crate::text::lemma_seq_lt_trans(f@, g0[p as int].0@, g0[j - 1].0@);
                    }
                } else if i < p {
                    assert(groups@[j] == g0[j - 1]);
                } else {
                    assert(groups@[j] == g0[j - 1]);
                    assert(groups@[i] == g0[i - 1]);
                }
            }
            assert forall|i: int|
                #![trigger groups@[i]]
                0 <= i < groups@.len() implies group_sites(groups@[i]) == q2.filter(
                    in_file(groups@[i].0@),
                ) && groups@[i].1@.len() > 0 by {
                crate::order::lemma_filter_push(q, x, in_file(groups@[i].0@));
                if i == p {
                    assert forall|k: int| 0 <= k < q.len() implies !in_file(f@)(q[k]) by {
                        if in_file(f@)(q[k]) {
                            assert(has_group(g0, q[k].reference.file@));
                            let j = choose|j: int|
                                0 <= j < g0.len() && g0[j].0@ == q[k].reference.file@;
                            if j < p {
                                crate::text::lemma_seq_lt_irrefl(f@);
                            } else {
                                if j > p {
                                    crate::text::lemma_seq_lt_trans(
                                        f@,
                                        g0[p as int].0@,
                                        g0[j].0@,
                                    );
                                }
                                crate::text::lemma_seq_lt_irrefl(f@);
                            }
                        }
                    }
                    crate::order::lemma_filter_empty(q, in_file(f@));
                    assert(seq![x] =~= Seq::<RefResolution>::empty().push(x));
                } else {
                    let j = if i < p {
                        i
                    } else {
                        i - 1
                    };
                    assert(groups@[i] == g0[j]);
                    if g0[j].0@ == f@ {
                        if j < p {
                            crate::text::lemma_seq_lt_irrefl(f@);
                        } else {
                            crate::text::lemma_seq_lt_irrefl(f@);
                        }
                    }
                }
            }
            assert forall|k: int|
                #![trigger q2[k]]
                0 <= k < q2.len() implies has_group(groups@, q2[k].reference.file@) by {
                if k < q.len() {
                    assert(q2[k] == q[k]);
                    assert(has_group(g0, q[k].reference.file@));
                    let i = choose|i: int| 0 <= i < g0.len() && g0[i].0@ == q[k].reference.file@;
                    if i < p {
                        assert(groups@[i] == g0[i]);
                    } else {
                        assert(groups@[i + 1] == g0[i]);
                    }
                } else {
                    assert(groups@[p as int].0@ == f@);
                }
            }
            assert(grouped(groups@, q2));
        }
    }
}

/// Groups the queued sites by file.
fn queue_by_file<'a, 'b>(idx: &Index, resolved: &'a Vec<Resolved<'b>>, old: &str, anchor: &Option<
    String,
>) -> (res: Vec<(String, Vec<&'a Resolved<'b>>)>)
    requires
        idx.well_formed(),
    ensures
        grouped(
            res@,
            resolved@.map_values(|r: Resolved| resolved_view(r)).filter(
                queue_pred(*idx, old@, opt_string_view(*anchor)),
            ),
        ),
{
    let ghost rs = resolved@.map_values(|r: Resolved| resolved_view(r));
    let ghost pred = queue_pred(*idx, old@, opt_string_view(*anchor));
    let parsed = match anchor {
        Some(a) => parse_anchor(a.as_str()),
        None => None,
    };
    let has_anchor = anchor.is_some();
    let mut groups: Vec<(String, Vec<&'a Resolved<'b>>)> = Vec::new();
    let mut i: usize = 0;
    proof {
        reveal(Seq::filter);
    }
    assert(rs.take(0).filter(pred) =~= Seq::<RefResolution>::empty());
    while i < resolved.len()
        invariant
            i <= resolved@.len(),
            idx.well_formed(),
            rs == resolved@.map_values(|r: Resolved| resolved_view(r)),
            pred == queue_pred(*idx, old@, opt_string_view(*anchor)),
            has_anchor == anchor.is_some(),
            anchor matches Some(a) ==> match parsed {
                Some((f, l)) => anchor_parts(a@) == Some((f@, l)),
                None => anchor_parts(a@) is None,
            },
            grouped(groups@, rs.take(i as int).filter(pred)),
        decreases resolved@.len() - i,
    {
        let r = &resolved[i];
        let ghost x = resolved_view(*r);
        proof {
            assert(rs.take(i + 1) =~= rs.take(i as int).push(x));
            crate::order::lemma_filter_push(rs.take(i as int), x, pred);
        }
        let admitted = anchor_admits(&parsed, has_anchor, r.definition);
        if !matches!(r.confidence, Confidence::Low) && !on_alias_site(idx, old, r.reference)
            && admitted {
            add_to_group(&mut groups, r, Ghost(rs.take(i as int).filter(pred)));
        }
        i = i + 1;
    }
    assert(rs.take(i as int) =~= rs);
    groups
}

// ---------------------------------------------------------------------------
// The command
// ---------------------------------------------------------------------------
/// What `rename` reports, and its exit status.
#[derive(Debug)]
pub struct RenameOutcome {
    pub data: RenameData,
    pub code: i32,
}

/// Some applied file is `f`.
pub open spec fn has_applied(applied: Seq<AppliedFile>, f: Seq<char>) -> bool {
    exists|i: int| 0 <= i < applied.len() && applied[i].file@ == f
}

/// `applied` holds the edits of the queue `q`, one entry per file, files in
/// increasing order.
pub open spec fn applied_ok(
    applied: Seq<AppliedFile>,
    q: Seq<RefResolution>,
    old: Seq<char>,
    new: Seq<char>,
    old_len: nat,
    new_len: nat,
) -> bool {
    &&& forall|i: int, j: int|
        0 <= i < j < applied.len() ==> seq_lt(applied[i].file@, applied[j].file@)
    &&& forall|i: int|
        #![trigger applied[i]]
        0 <= i < applied.len() ==> q.filter(in_file(applied[i].file@)).len() > 0 && file_edits_ok(
            applied[i],
            applied[i].file@,
            q.filter(in_file(applied[i].file@)),
            old,
            new,
            old_len,
            new_len,
        )
    &&& forall|k: int| #![trigger q[k]] 0 <= k < q.len() ==> has_applied(applied, q[k].reference.file@)
}

proof fn lemma_in_filter<A>(s: Seq<A>, p: spec_fn(A) -> bool, k: int)
    requires
        0 <= k < s.filter(p).len(),
    ensures
        s.contains(s.filter(p)[k]),
{
    broadcast use vstd::seq_lib::group_filter_ensures;

    assert(s.filter(p).contains(s.filter(p)[k]));
    s.lemma_filter_contains_rev(p, s.filter(p)[k]);
}

/// Sites of the queue are references to `old`, so their offsets obey the
/// bound that the index's references obey.
proof fn lemma_site_bound(
    idx: Index,
    old: Seq<char>,
    rs: Seq<RefResolution>,
    q: Seq<RefResolution>,
    g: Seq<RefResolution>,
    f: Seq<char>,
    k: int,
    bound: nat,
    anchor: Option<Seq<char>>,
)
    requires
        rs == resolutions(idx, old),
        q == rs.filter(queue_pred(idx, old, anchor)),
        g == q.filter(in_file(f)),
        0 <= k < g.len(),
        forall|j: int|
            0 <= j < idx.references@.len() ==> #[trigger] idx.references@[j].byte_offset + bound
                <= usize::MAX,
    ensures
        g[k].reference.byte_offset + bound <= usize::MAX,
{
    lemma_in_filter(q, in_file(f), k);
    let j = choose|j: int| 0 <= j < q.len() && q[j] == g[k];
    lemma_in_filter(rs, queue_pred(idx, old, anchor), j);
    let m = choose|m: int| 0 <= m < rs.len() && rs[m] == q[j];
    let named_refs = refs_named(idx.references@, old);
    assert(rs[m].reference == named_refs[m]);
    assert(rs.len() == named_refs.len());
    lemma_in_filter(idx.references@, crate::resolve::has_name(old), m);
    let n = choose|n: int| 0 <= n < idx.references@.len() && idx.references@[n] == named_refs[m];
    assert(idx.references@[n].byte_offset + bound <= usize::MAX);
}

/// The machine limits `rename` relies on: every offset plus the old name's
/// length fits in `usize`, and the byte counts fit in `i64`.
pub open spec fn rename_fits(idx: Index, args: RenameArgs) -> bool {
    &&& forall|j: int|
        0 <= j < idx.references@.len() ==> #[trigger] idx.references@[j].byte_offset + byte_len(
            args.old@,
        ) <= usize::MAX
    &&& idx.references@.len() * (byte_len(args.old@) + byte_len(args.new@)) <= i64::MAX
    &&& byte_len(args.old@) + byte_len(args.new@) <= i64::MAX
    &&& byte_len(args.old@) + byte_len(args.new@) <= usize::MAX
    &&& idx.references@.len() <= i64::MAX
}

/// Renames `args.old` to `args.new` over the index: reports the candidates
/// and exit status 2 when several files define the name and no anchor is
/// given; otherwise the low-confidence, alias and wildcard sites as skipped,
/// the remaining sites as edits grouped by file, and exit status 0.
pub fn run(idx: &Index, args: &RenameArgs) -> (res: RenameOutcome)
    requires
        idx.well_formed(),
        rename_fits(*idx, *args),
    ensures
        res.data.subcommand@ == "rename"@,
        res.data.dry_run == !args.apply,
        defined_in_several_files(idx.definitions@, args.old@) && args.anchor is None ==> {
            &&& res.code == 2
            &&& res.data.needs_anchor == Some(true)
            &&& res.data.candidates matches Some(c) && c@.map_values(|c: Candidate| c@)
                == candidates_of(idx.definitions@, args.old@)
            &&& res.data.applied is None
            &&& res.data.skipped is None
            &&& res.data.errors is None
        },
        !(defined_in_several_files(idx.definitions@, args.old@) && args.anchor is None) ==> {
            &&& res.code == 0
            &&& res.data.needs_anchor is None
            &&& res.data.candidates is None
            &&& res.data.skipped matches Some(s) && s@.map_values(|s: SkippedSite| s@) == low_skips(
                resolutions(*idx, args.old@),
                byte_len(args.old@),
            ) + alias_skips(*idx, args.old@) + wildcard_skips(*idx, args.old@)
            &&& res.data.errors matches Some(e) && e@.len() == 0
            &&& res.data.applied matches Some(a) && applied_ok(
                a@,
                queued(
                    *idx,
                    resolutions(*idx, args.old@),
                    args.old@,
                    opt_string_view(args.anchor),
                ),
                args.old@,
                args.new@,
                byte_len(args.old@),
                byte_len(args.new@),
            )
        },
{
    let old = args.old.as_str();
    let resolved = resolve_refs(idx, old);
    let ghost rs = resolved@.map_values(|r: Resolved| resolved_view(r));
    proof {
        assert(rs =~= resolutions(*idx, old@));
    }
    if defined_in_several(&idx.definitions, old) && args.anchor.is_none() {
        let cands = candidates(&idx.definitions, old);
        let data = RenameData {
            subcommand: "rename",
            dry_run: !args.apply,
            needs_anchor: Some(true),
            candidates: Some(cands),
            applied: None,
            skipped: None,
            errors: None,
        };
        return RenameOutcome { data, code: 2 };
    }
    let old_len = old.len();
    assert(old.spec_bytes() == vstd::utf8::encode_utf8(old@));
    assert(old_len == byte_len(args.old@));
    proof {
        assert forall|k: int|
            0 <= k < resolved@.len() implies #[trigger] resolved@[k].reference.byte_offset + old_len
                <= usize::MAX by {
            let named_refs = refs_named(idx.references@, old@);
            assert(*resolved@[k].reference == named_refs[k]);
            lemma_in_filter(idx.references@, crate::resolve::has_name(old@), k);
            let n = choose|n: int|
                0 <= n < idx.references@.len() && idx.references@[n] == named_refs[k];
            assert(idx.references@[n].byte_offset + byte_len(args.old@) <= usize::MAX);
        }
    }
    let mut skipped = low_confidence_skips(&resolved, old_len);
    let mut aliases = alias_skip_sites(idx, old);
    let mut wildcards = wildcard_skip_sites(idx, old);
    let ghost s1 = skipped@;
    let ghost s2 = aliases@;
    let ghost s3 = wildcards@;
    skipped.append(&mut aliases);
    skipped.append(&mut wildcards);
    proof {
        assert(skipped@ =~= s1 + s2 + s3);
        assert(skipped@.map_values(|s: SkippedSite| s@) =~= s1.map_values(|s: SkippedSite| s@)
            + s2.map_values(|s: SkippedSite| s@) + s3.map_values(|s: SkippedSite| s@));
    }
    let groups = queue_by_file(idx, &resolved, old, &args.anchor);
    let ghost q = rs.filter(queue_pred(*idx, old@, opt_string_view(args.anchor)));
    let mut applied: Vec<AppliedFile> = Vec::new();
    let mut i: usize = 0;
    proof {
        broadcast use vstd::seq_lib::group_filter_ensures;

        assert(q.len() <= rs.len());
        assert(rs.len() == refs_named(idx.references@, old@).len());
        assert(refs_named(idx.references@, old@).len() <= idx.references@.len());
    }
    while i < groups.len()
        invariant
            i <= groups@.len(),
            idx.well_formed(),
            rename_fits(*idx, *args),
            rs == resolutions(*idx, args.old@),
            q == rs.filter(queue_pred(*idx, args.old@, opt_string_view(args.anchor))),
            q.len() <= idx.references@.len(),
            grouped(groups@, q),
            applied@.len() == i,
            forall|j: int|
                0 <= j < i ==> #[trigger] applied@[j].file@ == groups@[j].0@ && file_edits_ok(
                    applied@[j],
                    groups@[j].0@,
                    q.filter(in_file(groups@[j].0@)),
                    args.old@,
                    args.new@,
                    byte_len(args.old@),
                    byte_len(args.new@),
                ),
        decreases groups@.len() - i,
    {
        let g = &groups[i];
        proof {
            broadcast use vstd::seq_lib::group_filter_ensures;

            let sites = q.filter(in_file(g.0@));
            assert(group_sites(*g) == sites);
            assert(g.1@.len() == sites.len());
            assert(sites.len() <= q.len());
            assert forall|k: int|
                0 <= k < g.1@.len() implies #[trigger] g.1@[k].reference.byte_offset + byte_len(
                    args.old@,
                ) <= usize::MAX by {
                assert(sites[k] == resolved_view(*g.1@[k]));
                lemma_site_bound(
                    *idx,
                    args.old@,
                    rs,
                    q,
                    sites,
                    g.0@,
                    k,
                    byte_len(args.old@),
                    opt_string_view(args.anchor),
                );
            }
            assert(g.1@.len() * (byte_len(args.old@) + byte_len(args.new@)) <= idx.references@.len()
                * (byte_len(args.old@) + byte_len(args.new@))) by (nonlinear_arith)
                requires
                    g.1@.len() <= idx.references@.len(),
            ;
            assert(g.1@.map_values(|r: &Resolved| resolved_view(*r)) == sites);
        }
        let entry = build_edits(g.0.as_str(), &g.1, args);
        applied.push(entry);
        i = i + 1;
    }
    proof {
        assert forall|k: int| #![trigger q[k]] 0 <= k < q.len() implies has_applied(
            applied@,
            q[k].reference.file@,
        ) by {
            assert(has_group(groups@, q[k].reference.file@));
            let j = choose|j: int| 0 <= j < groups@.len() && groups@[j].0@ == q[k].reference.file@;
            assert(applied@[j].file@ == groups@[j].0@);
        }
        assert forall|a: int, b: int| 0 <= a < b < applied@.len() implies seq_lt(
            applied@[a].file@,
            applied@[b].file@,
        ) by {
            assert(applied@[a].file@ == groups@[a].0@);
            assert(applied@[b].file@ == groups@[b].0@);
        }
        assert forall|j: int|
            #![trigger applied@[j]]
            0 <= j < applied@.len() implies q.filter(in_file(applied@[j].file@)).len() > 0
                && file_edits_ok(
                applied@[j],
                applied@[j].file@,
                q.filter(in_file(applied@[j].file@)),
                args.old@,
                args.new@,
                byte_len(args.old@),
                byte_len(args.new@),
            ) by {
            assert(applied@[j].file@ == groups@[j].0@);
            assert(group_sites(groups@[j]) == q.filter(in_file(groups@[j].0@)));
        }
    }
    let data = RenameData {
        subcommand: "rename",
        dry_run: !args.apply,
        needs_anchor: None,
        candidates: None,
        applied: Some(applied),
        skipped: Some(skipped),
        errors: Some(Vec::new()),
    };
    RenameOutcome { data, code: 0 }
}

} // verus!
