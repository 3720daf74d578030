//! `rewrite`: the decisions of a structural rewrite — which languages to
//! compile the pattern for, how a file's matches become edits, and the
//! bytes that applying them gives.
use vstd::prelude::*;

use crate::astedit::error::{error_kind_text, lemma_kind_identifies_variant, AstEditError};
use crate::astedit::rewrite::{
    pattern_compile_error, pattern_has_syntax_error, rewrite_file, syntax_error_message,
    RewriteSite,
};
use crate::astedit::serialize::{
    ErrorEntry, ErrorEntryView, RewriteAppliedFile, RewriteEdit, RewriteEditView,
};
use crate::lang::{language_name, Language};
use crate::order::{stable_sort, stable_sorted, Ranked};
use crate::text::{chars_of, replace, replace_all, starts_with, str_eq, string_from_chars};
use vstd::string::StringSliceAdditionalSpecFns;
use vstd::utf8::encode_utf8;

verus! {

/// A `--lang` value that names no supported language.
#[derive(Debug)]
pub struct UnsupportedLanguage {
    pub name: String,
}

/// The language a `--lang` value names.
pub open spec fn language_by_name(s: Seq<char>) -> Option<Language> {
    if s == "rust"@ {
        Some(Language::Rust)
    } else if s == "typescript"@ {
        Some(Language::TypeScript)
    } else if s == "tsx"@ {
        Some(Language::Tsx)
    } else if s == "javascript"@ {
        Some(Language::JavaScript)
    } else if s == "python"@ {
        Some(Language::Python)
    } else {
        None
    }
}

/// Each language's own name selects it.
pub proof fn lemma_filter_names_round_trip(l: Language)
    ensures
        language_by_name(crate::lang::language_name(l)) == Some(l),
{
    reveal_strlit("rust");
    reveal_strlit("typescript");
    reveal_strlit("tsx");
    reveal_strlit("javascript");
    reveal_strlit("python");
    assert("rust"@.len() == 4 && "tsx"@.len() == 3 && "python"@.len() == 6);
    assert("typescript"@.len() == 10 && "javascript"@.len() == 10);
    assert("typescript"@[0] != "javascript"@[0]);
}

/// No filter without `--lang`; the named language with it; an error for a
/// name that is not one of `rust`, `typescript`, `tsx`, `javascript`, `python`.
pub fn parse_lang_filter(lang: Option<&str>) -> (res: Result<Option<Language>, UnsupportedLanguage>)
    ensures
        lang is None ==> res == Ok::<Option<Language>, UnsupportedLanguage>(None),
        lang matches Some(s) ==> match language_by_name(s@) {
            Some(l) => res == Ok::<Option<Language>, UnsupportedLanguage>(Some(l)),
            None => res matches Err(e) && e.name@ == s@,
        },
{
    match lang {
        None => Ok(None),
        Some(s) => {
            if str_eq(s, "rust") {
                Ok(Some(Language::Rust))
            } else if str_eq(s, "typescript") {
                Ok(Some(Language::TypeScript))
            } else if str_eq(s, "tsx") {
                Ok(Some(Language::Tsx))
            } else if str_eq(s, "javascript") {
                Ok(Some(Language::JavaScript))
            } else if str_eq(s, "python") {
                Ok(Some(Language::Python))
            } else {
                Err(UnsupportedLanguage { name: s.to_owned() })
            }
        },
    }
}

/// `Path::strip_prefix` followed by `to_string_lossy`: the path of `abs`
/// relative to `root`, when `root`'s components begin `abs`'s.
pub uninterp spec fn path_strip_prefix(abs: Seq<char>, root: Seq<char>) -> Option<Seq<char>>;

/// Calls `Path::strip_prefix`; the result is a function of the two paths.
#[verifier::external_body]
fn strip_prefix(abs: &str, root: &str) -> (res: Option<String>)
    ensures
        match res {
            Some(s) => path_strip_prefix(abs@, root@) == Some(s@),
            None => path_strip_prefix(abs@, root@) is None,
        },
{
    std::path::Path::new(abs).strip_prefix(root).ok().map(|p| p.to_string_lossy().into_owned())
}

/// The repo-relative form of a path: `abs` without the `root` prefix (all of
/// `abs` when `root` is not a prefix), with `\` written as `/`.
pub open spec fn relative_form(abs: Seq<char>, root: Seq<char>) -> Seq<char> {
    let rel = match path_strip_prefix(abs, root) {
        Some(r) => r,
        None => abs,
    };
    replace(rel, seq!['\\'], "/"@)
}

pub fn relative_path(abs: &str, root: &str) -> (res: String)
    ensures
        res@ == relative_form(abs@, root@),
{
    let rel = match strip_prefix(abs, root) {
        Some(r) => r,
        None => abs.to_owned(),
    };
    let cs = chars_of(rel.as_str());
    let backslash = vec!['\\'];
    assert(backslash@ =~= seq!['\\']);
    let slash = chars_of("/");
    let out = replace_all(cs.as_slice(), backslash.as_slice(), slash.as_slice());
    string_from_chars(out.as_slice())
}

/// The languages to compile the pattern for: those of the source files, in
/// order of first appearance, once each, restricted to the filter.
pub open spec fn distinct_langs(langs: Seq<Language>, filter: Option<Language>) -> Seq<Language>
    decreases langs.len(),
{
    if langs.len() == 0 {
        Seq::empty()
    } else {
        let prev = distinct_langs(langs.drop_last(), filter);
        let l = langs.last();
        if (filter matches Some(t) && t != l) || prev.contains(l) {
            prev
        } else {
            prev.push(l)
        }
    }
}

pub fn langs_to_process(langs: &Vec<Language>, filter: Option<Language>) -> (res: Vec<Language>)
    ensures
        res@ == distinct_langs(langs@, filter),
{
    let mut out: Vec<Language> = Vec::new();
    let mut i: usize = 0;
    assert(langs@.take(0) =~= Seq::<Language>::empty());
    while i < langs.len()
        invariant
            i <= langs@.len(),
            out@ == distinct_langs(langs@.take(i as int), filter),
        decreases langs@.len() - i,
    {
        let l = langs[i];
        assert(langs@.take(i + 1).drop_last() =~= langs@.take(i as int));
        let mut skip = false;
        if let Some(t) = filter {
            if t != l {
                skip = true;
            }
        }
        if !skip {
            let mut seen = false;
            let mut j: usize = 0;
            while j < out.len()
                invariant
                    j <= out@.len(),
                    seen <==> exists|k: int| 0 <= k < j && out@[k] == l,
                decreases out@.len() - j,
            {
                if out[j] == l {
                    seen = true;
                }
                j = j + 1;
            }
            if !seen {
                out.push(l);
            }
        }
        i = i + 1;
    }
    assert(langs@.take(i as int) =~= langs@);
    out
}

/// The entry reported for a pattern that does not compile for `l`.
pub open spec fn compile_failure_entry(l: Language, message: Seq<char>) -> ErrorEntryView {
    ErrorEntryView {
        error_kind: "pattern-compile"@,
        file: None,
        message: Some(message),
        os_code: None,
        line: None,
        col: None,
        lang: Some(language_name(l)),
    }
}

/// An entry for a replacement, produced for `l`, that is not valid UTF-8.
pub open spec fn non_utf8_entry(en: ErrorEntryView, l: Language) -> bool {
    &&& en.error_kind == "parse-error"@
    &&& en.file == Some(language_name(l))
    &&& en.message matches Some(msg) && starts_with(msg, "rewrite produced non-utf8 bytes: "@)
    &&& en.os_code is None
    &&& en.line is None
    &&& en.col is None
    &&& en.lang is None
}

/// The entry compiling `pattern` for `l` reports: the compile error when
/// it does not compile; else the syntax error when it holds one; else a
/// replacement that is not UTF-8.
pub open spec fn compile_check_entry(en: ErrorEntryView, pattern: Seq<char>, l: Language) -> bool {
    match pattern_compile_error(pattern, l) {
        Some(m) => en == compile_failure_entry(l, m),
        None => if pattern_has_syntax_error(pattern, l) {
            en == compile_failure_entry(l, syntax_error_message(pattern))
        } else {
            non_utf8_entry(en, l)
        },
    }
}

/// `entries` are the reports for the languages at positions `idx` of
/// `langs`, in order, one each; every language left out compiled.
pub open spec fn reports_in_order(
    entries: Seq<ErrorEntry>,
    idx: Seq<int>,
    pattern: Seq<char>,
    langs: Seq<Language>,
) -> bool {
    &&& idx.len() == entries.len()
    &&& forall|j: int| 0 <= j < idx.len() ==> 0 <= #[trigger] idx[j] < langs.len()
    &&& forall|j1: int, j2: int| 0 <= j1 < j2 < idx.len() ==> idx[j1] < idx[j2]
    &&& forall|j: int|
        0 <= j < idx.len() ==> compile_check_entry(#[trigger] entries[j]@, pattern, langs[idx[j]])
    &&& forall|k: int|
        0 <= k < langs.len() && !idx.contains(k) ==> (#[trigger] pattern_compile_error(
            pattern,
            langs[k],
        )) is None
}

/// Compiles (pattern, rewrite) once per language, against an empty source.
/// Every failure is reported, in the order of the languages; the flag is
/// set when one of them is a pattern that did not compile.
pub fn compile_check(pattern: &str, rewrite: &str, langs: &Vec<Language>) -> (res: (
    Vec<ErrorEntry>,
    bool,
))
    ensures
        res.0@.len() <= langs@.len(),
        exists|idx: Seq<int>| reports_in_order(res.0@, idx, pattern@, langs@),
        forall|k: int|
            0 <= k < langs@.len() && (#[trigger] pattern_compile_error(pattern@, langs@[k])) is Some
                ==> res.1,
        res.1 <==> exists|k: int|
            0 <= k < res.0@.len() && res.0@[k].error_kind@ == "pattern-compile"@,
{
    let mut errors: Vec<ErrorEntry> = Vec::new();
    let mut failed = false;
    let ghost mut idx: Seq<int> = Seq::empty();
    let mut i: usize = 0;
    while i < langs.len()
        invariant
            i <= langs@.len(),
            errors@.len() <= i,
            reports_in_order(errors@, idx, pattern@, langs@.take(i as int)),
            forall|j: int| 0 <= j < idx.len() ==> #[trigger] idx[j] < i,
            failed <==> exists|k: int|
                0 <= k < errors@.len() && errors@[k].error_kind@ == "pattern-compile"@,
        decreases langs@.len() - i,
    {
        let ghost prev = langs@.take(i as int);
        let ghost next = langs@.take(i + 1);
        assert(next =~= prev.push(langs@[i as int]));
        let res = rewrite_file("", pattern, rewrite, langs[i]);
        match res {
            Ok(_) => {
                assert forall|k: int|
                    0 <= k < next.len() && !idx.contains(k) implies (#[trigger] pattern_compile_error(
                    pattern@,
                    next[k],
                )) is None by {
                    if k < i {
                        assert(next[k] == prev[k]);
                    }
                }
                assert forall|j: int| 0 <= j < idx.len() implies compile_check_entry(
                    #[trigger] errors@[j]@,
                    pattern@,
                    next[idx[j]],
                ) by {
                    assert(next[idx[j]] == prev[idx[j]]);
                }
            },
            Err(e) => {
                let entry = ErrorEntry::from(&e);
                proof {
                    lemma_kind_identifies_variant(e);
                }
                let ghost was_failed = failed;
                if matches!(e, AstEditError::PatternCompile { .. }) {
                    failed = true;
                }
                let ghost before = errors@;
                let ghost idx0 = idx;
                errors.push(entry);
                proof {
                    idx = idx0.push(i as int);
                    assert(compile_check_entry(entry@, pattern@, langs@[i as int]));
                    assert(entry.error_kind@ == error_kind_text(e));
                    assert(errors@[errors@.len() - 1] == entry);
                    assert forall|k: int| 0 <= k < before.len() implies errors@[k] == before[k] by {}
                    assert forall|j: int| 0 <= j < idx.len() implies compile_check_entry(
                        #[trigger] errors@[j]@,
                        pattern@,
                        next[idx[j]],
                    ) by {
                        if j < idx0.len() {
                            assert(next[idx0[j]] == prev[idx0[j]]);
                        }
                    }
                    assert forall|k: int|
                        0 <= k < next.len() && !idx.contains(k) implies (
                        #[trigger] pattern_compile_error(pattern@, next[k])) is None by {
                        assert(idx[idx0.len() as int] == i);
                        if k < i {
                            assert(next[k] == prev[k]);
                            if idx0.contains(k) {
                                let j = choose|j: int| 0 <= j < idx0.len() && idx0[j] == k;
                                assert(idx[j] == k);
                            }
                        }
                    }
                    if was_failed {
                        let k = choose|k: int|
                            0 <= k < before.len() && before[k].error_kind@ == "pattern-compile"@;
                        assert(errors@[k] == before[k]);
                    }
                    if exists|k: int|
                        0 <= k < errors@.len() && errors@[k].error_kind@ == "pattern-compile"@ {
                        let k = choose|k: int|
                            0 <= k < errors@.len() && errors@[k].error_kind@ == "pattern-compile"@;
                        if k < before.len() {
                            assert(before[k] == errors@[k]);
                        }
                    }
                }
            },
        }
        i = i + 1;
    }
    assert(langs@.take(i as int) =~= langs@);
    assert forall|k: int|
        0 <= k < langs@.len() && (#[trigger] pattern_compile_error(pattern@, langs@[k])) is Some
            implies failed by {
        if !idx.contains(k) {
            assert(pattern_compile_error(pattern@, langs@[k]) is None);
        } else {
            let j = choose|j: int| 0 <= j < idx.len() && idx[j] == k;
            assert(compile_check_entry(errors@[j]@, pattern@, langs@[idx[j]]));
            assert(errors@[j].error_kind@ == "pattern-compile"@);
        }
    }
    (errors, failed)
}

// ---------------------------------------------------------------------------
// Edits and their application
// ---------------------------------------------------------------------------
/// Rewrite edits are ordered by start byte, last first.
impl Ranked for RewriteEdit {
    open spec fn spec_rank_le(&self, other: &Self) -> bool {
        self.start_byte >= other.start_byte
    }

    fn rank_le(&self, other: &Self) -> (res: bool) {
        self.start_byte >= other.start_byte
    }

    proof fn rank_total(a: &Self, b: &Self) {
    }

    proof fn rank_trans(a: &Self, b: &Self, c: &Self) {
    }
}

pub open spec fn edit_of_site(s: RewriteSite) -> RewriteEditView {
    RewriteEditView {
        line: s.line,
        col: s.col,
        start_byte: s.start_byte,
        end_byte: s.end_byte,
        old: s.old@,
        new: s.new@,
    }
}

/// The change in length that the sites' edits make, in bytes.
pub open spec fn bytes_delta(edits: Seq<RewriteSite>) -> int
    decreases edits.len(),
{
    if edits.len() == 0 {
        0
    } else {
        encode_utf8(edits[0].new@).len() - encode_utf8(edits[0].old@).len() + bytes_delta(
            edits.skip(1),
        )
    }
}

/// Total length of the texts of the sites, in bytes.
pub open spec fn bytes_total(edits: Seq<RewriteSite>) -> int
    decreases edits.len(),
{
    if edits.len() == 0 {
        0
    } else {
        encode_utf8(edits[0].new@).len() + encode_utf8(edits[0].old@).len() + bytes_total(
            edits.skip(1),
        )
    }
}

/// Applies the edits in order to `bytes`: each must find its old text at
/// its byte range (else the result names its line and column), which is
/// then replaced by the new text.
pub open spec fn splice_all(bytes: Seq<u8>, edits: Seq<RewriteEdit>) -> Result<Seq<u8>, (usize, usize)>
    decreases edits.len(),
{
    if edits.len() == 0 {
        Ok(bytes)
    } else {
        let e = edits[0];
        if e.end_byte > bytes.len() || bytes.subrange(e.start_byte as int, e.end_byte as int)
            != encode_utf8(e.old@) {
            Err((e.line, e.col))
        } else {
            splice_all(
                bytes.subrange(0, e.start_byte as int) + encode_utf8(e.new@) + bytes.subrange(
                    e.end_byte as int,
                    bytes.len() as int,
                ),
                edits.skip(1),
            )
        }
    }
}

/// The edit's range lies in `src`, whose bytes there are its old text.
pub open spec fn edit_in_source(src: Seq<u8>, e: RewriteEdit) -> bool {
    &&& e.start_byte <= e.end_byte <= src.len()
    &&& src.subrange(e.start_byte as int, e.end_byte as int) == encode_utf8(e.old@)
}

/// Edits that each find their old text in `src`, and that come last first
/// without overlapping (each ends where or before the previous one starts),
/// all apply: splicing them never reports a mismatch.
pub proof fn lemma_disjoint_edits_apply(src: Seq<u8>, edits: Seq<RewriteEdit>)
    requires
        forall|i: int| 0 <= i < edits.len() ==> #[trigger] edit_in_source(src, edits[i]),
        forall|i: int, j: int|
            0 <= i < j < edits.len() ==> #[trigger] edits[j].end_byte <= #[trigger] edits[i].start_byte,
    ensures
        splice_all(src, edits) is Ok,
    decreases edits.len(),
{
    if edits.len() > 0 {
        let e = edits[0];
        assert(edit_in_source(src, e));
        let next = src.subrange(0, e.start_byte as int) + encode_utf8(e.new@) + src.subrange(
            e.end_byte as int,
            src.len() as int,
        );
        let rest = edits.skip(1);
        assert forall|i: int| 0 <= i < rest.len() implies #[trigger] edit_in_source(next, rest[i]) by {
            let f = rest[i];
            assert(f == edits[i + 1]);
            assert(edit_in_source(src, edits[i + 1]));
            assert(f.end_byte <= e.start_byte);
            assert(next.subrange(f.start_byte as int, f.end_byte as int) =~= src.subrange(
                f.start_byte as int,
                f.end_byte as int,
            ));
        }
        assert forall|i: int, j: int| 0 <= i < j < rest.len() implies #[trigger] rest[j].end_byte
            <= #[trigger] rest[i].start_byte by {
            assert(rest[i] == edits[i + 1] && rest[j] == edits[j + 1]);
        }
        lemma_disjoint_edits_apply(next, rest);
    }
}

/// Applies `edits` to `bytes` (see `splice_all`).
pub fn splice_edits(bytes: Vec<u8>, edits: &Vec<RewriteEdit>) -> (res: Result<Vec<u8>, (usize, usize)>)
    requires
        forall|k: int| 0 <= k < edits@.len() ==> #[trigger] edits@[k].start_byte <= edits@[k].end_byte,
    ensures
        match res {
            Ok(b) => splice_all(bytes@, edits@) == Ok::<Seq<u8>, (usize, usize)>(b@),
            Err(p) => splice_all(bytes@, edits@) == Err::<Seq<u8>, (usize, usize)>(p),
        },
{
    let mut cur = bytes;
    let mut i: usize = 0;
    assert(edits@.skip(0) =~= edits@);
    while i < edits.len()
        invariant
            i <= edits@.len(),
            forall|k: int| 0 <= k < edits@.len() ==> #[trigger] edits@[k].start_byte <= edits@[k].end_byte,
            splice_all(bytes@, edits@) == splice_all(cur@, edits@.skip(i as int)),
        decreases edits@.len() - i,
    {
        let e = &edits[i];
        let ghost rest = edits@.skip(i as int);
        assert(rest[0] == *e);
        assert(rest.skip(1) =~= edits@.skip(i + 1));
        let old = e.old.as_str().as_bytes();
        let new = e.new.as_str().as_bytes();
        if e.end_byte > cur.len() {
            return Err((e.line, e.col));
        }
        let start = e.start_byte;
        let end = e.end_byte;
        // Compare cur[start..end] with the old text.
        let mut same = end - start == old.len();
        let mut k: usize = 0;
        if same {
            while k < old.len()
                invariant
                    k <= old@.len(),
                    start + old@.len() == end,
                    end <= cur@.len(),
                    same ==> forall|m: int| 0 <= m < k ==> cur@[start + m] == old@[m],
                    !same ==> exists|m: int| 0 <= m < old@.len() && cur@[start + m] != old@[m],
                decreases old@.len() - k,
            {
                if cur[start + k] != old[k] {
                    same = false;
                }
                k = k + 1;
            }
        }
        if !same {
            proof {
                if end - start == old@.len() {
                    let m = choose|m: int| 0 <= m < old@.len() && cur@[start + m] != old@[m];
                    assert(cur@.subrange(start as int, end as int)[m] != old@[m]);
                }
            }
            return Err((e.line, e.col));
        }
        assert(cur@.subrange(start as int, end as int) =~= old@);
        let mut next: Vec<u8> = Vec::new();
        let mut j: usize = 0;
        while j < start
            invariant
                j <= start <= end <= cur@.len(),
                next@ == cur@.subrange(0, j as int),
            decreases start - j,
        {
            next.push(cur[j]);
            assert(cur@.subrange(0, j + 1) =~= cur@.subrange(0, j as int).push(cur@[j as int]));
            j = j + 1;
        }
        let mut j: usize = 0;
        while j < new.len()
            invariant
                j <= new@.len(),
                start <= end <= cur@.len(),
                next@ == cur@.subrange(0, start as int) + new@.subrange(0, j as int),
            decreases new@.len() - j,
        {
            next.push(new[j]);
            assert(new@.subrange(0, j + 1) =~= new@.subrange(0, j as int).push(new@[j as int]));
            j = j + 1;
        }
        let mut j: usize = end;
        assert(new@.subrange(0, new@.len() as int) =~= new@);
        while j < cur.len()
            invariant
                end <= j <= cur@.len(),
                next@ == cur@.subrange(0, start as int) + new@ + cur@.subrange(end as int, j as int),
            decreases cur@.len() - j,
        {
            next.push(cur[j]);
            assert(cur@.subrange(end as int, j + 1) =~= cur@.subrange(end as int, j as int).push(
                cur@[j as int],
            ));
            j = j + 1;
        }
        cur = next;
        i = i + 1;
    }
    assert(edits@.skip(i as int) =~= Seq::<RewriteEdit>::empty());
    Ok(cur)
}

/// `edits` are the sites' edits, last first (ties keep their order).
pub open spec fn edits_for(sites: Seq<RewriteSite>, edits: Seq<RewriteEdit>) -> bool {
    exists|u: Seq<RewriteEdit>|
        #![trigger stable_sorted(u, edits)]
        u.map_values(|e: RewriteEdit| e@) == sites.map_values(|s: RewriteSite| edit_of_site(s))
            && stable_sorted(u, edits)
}

/// The entry of a file: its relative path, the sites' edits last first, and
/// their change in length.
pub open spec fn rewrite_entry_ok(res: RewriteAppliedFile, rel: Seq<char>, sites: Seq<RewriteSite>) -> bool {
    &&& res.file@ == rel
    &&& res.bytes_changed == bytes_delta(sites)
    &&& edits_for(sites, res.edits@)
}

proof fn lemma_delta_bound(edits: Seq<RewriteSite>)
    ensures
        -bytes_total(edits) <= bytes_delta(edits) <= bytes_total(edits),
        bytes_total(edits) >= 0,
    decreases edits.len(),
{
    if edits.len() > 0 {
        lemma_delta_bound(edits.skip(1));
    }
}

/// The change in length, in bytes, that one edit makes.
pub open spec fn edit_change(e: RewriteEdit) -> int {
    encode_utf8(e.new@).len() - encode_utf8(e.old@).len()
}

/// The change in length that the edits make, in bytes.
pub open spec fn edits_delta(es: Seq<RewriteEdit>) -> int
    decreases es.len(),
{
    if es.len() == 0 {
        0
    } else {
        edit_change(es[0]) + edits_delta(es.skip(1))
    }
}

/// Splicing edits in changes the length by their change in length.
pub proof fn lemma_splice_len(bytes: Seq<u8>, es: Seq<RewriteEdit>, out: Seq<u8>)
    requires
        forall|k: int| 0 <= k < es.len() ==> #[trigger] es[k].start_byte <= es[k].end_byte,
        splice_all(bytes, es) == Ok::<Seq<u8>, (usize, usize)>(out),
    ensures
        out.len() == bytes.len() + edits_delta(es),
    decreases es.len(),
{
    if es.len() > 0 {
        let e = es[0];
        let next = bytes.subrange(0, e.start_byte as int) + encode_utf8(e.new@) + bytes.subrange(
            e.end_byte as int,
            bytes.len() as int,
        );
        assert(bytes.subrange(e.start_byte as int, e.end_byte as int).len() == e.end_byte
            - e.start_byte);
        assert forall|k: int| 0 <= k < es.skip(1).len() implies #[trigger] es.skip(1)[k].start_byte
            <= es.skip(1)[k].end_byte by {
            assert(es.skip(1)[k] == es[k + 1]);
        }
        lemma_splice_len(next, es.skip(1), out);
    }
}

/// Taking out the edit at `j` takes out its change.
proof fn lemma_delta_remove(es: Seq<RewriteEdit>, j: int)
    requires
        0 <= j < es.len(),
    ensures
        edits_delta(es) == edit_change(es[j]) + edits_delta(es.remove(j)),
    decreases es.len(),
{
    if j == 0 {
        assert(es.remove(0) =~= es.skip(1));
    } else {
        assert(es.remove(j)[0] == es[0]);
        assert(es.remove(j).skip(1) =~= es.skip(1).remove(j - 1));
        lemma_delta_remove(es.skip(1), j - 1);
    }
}

/// The change in length does not depend on the edits' order.
pub proof fn lemma_delta_permutation(a: Seq<RewriteEdit>, b: Seq<RewriteEdit>)
    requires
        a.to_multiset() == b.to_multiset(),
    ensures
        edits_delta(a) == edits_delta(b),
    decreases a.len(),
{
    a.to_multiset_ensures();
    b.to_multiset_ensures();
    if a.len() == 0 {
        if b.len() > 0 {
            assert(b.to_multiset().count(b[0]) > 0);
        }
    } else {
        let x = a[0];
        assert(a.to_multiset().count(x) > 0);
        assert(b.contains(x));
        let j = choose|j: int| 0 <= j < b.len() && b[j] == x;
        assert(a.remove(0) =~= a.skip(1));
        assert(a.skip(1).to_multiset() =~= b.remove(j).to_multiset());
        lemma_delta_permutation(a.skip(1), b.remove(j));
        lemma_delta_remove(b, j);
    }
}

/// Edits whose views are the sites' edits change the length as they do.
proof fn lemma_delta_pointwise(u: Seq<RewriteEdit>, sites: Seq<RewriteSite>)
    requires
        u.len() == sites.len(),
        forall|k: int| 0 <= k < u.len() ==> #[trigger] u[k]@ == edit_of_site(sites[k]),
    ensures
        edits_delta(u) == bytes_delta(sites),
    decreases sites.len(),
{
    if sites.len() > 0 {
        assert(u[0]@ == edit_of_site(sites[0]));
        assert forall|k: int| 0 <= k < u.skip(1).len() implies #[trigger] u.skip(1)[k]@ == edit_of_site(
            sites.skip(1)[k],
        ) by {
            assert(u[k + 1]@ == edit_of_site(sites[k + 1]));
        }
        lemma_delta_pointwise(u.skip(1), sites.skip(1));
    }
}

/// The edits of the sites change the length as the sites do.
proof fn lemma_delta_of_sites(u: Seq<RewriteEdit>, sites: Seq<RewriteSite>)
    requires
        u.map_values(|e: RewriteEdit| e@) == sites.map_values(|s: RewriteSite| edit_of_site(s)),
    ensures
        edits_delta(u) == bytes_delta(sites),
{
    let mu = u.map_values(|e: RewriteEdit| e@);
    let ms = sites.map_values(|s: RewriteSite| edit_of_site(s));
    assert(u.len() == mu.len() && sites.len() == ms.len());
    assert forall|k: int| 0 <= k < u.len() implies #[trigger] u[k]@ == edit_of_site(sites[k]) by {
        assert(mu[k] == u[k]@);
        assert(ms[k] == edit_of_site(sites[k]));
    }
    lemma_delta_pointwise(u, sites);
}

/// What applying or reporting a file's sites gives.
#[derive(Debug)]
pub struct FileRewrite {
    pub entry: RewriteAppliedFile,
    /// The new contents, when applying.
    pub new_bytes: Option<Vec<u8>>,
}

/// What reporting (`apply` false) or applying a file's sites gives: the
/// entry, and when applying the spliced bytes, whose length is the
/// source's plus the entry's change; or, when applying and a site's range
/// no longer holds its old text, a node-kind mismatch at its position.
pub open spec fn applied_as_stated(
    res: Result<FileRewrite, AstEditError>,
    rel: Seq<char>,
    source: Seq<u8>,
    sites: Seq<RewriteSite>,
    apply: bool,
) -> bool {
    &&& !apply ==> (res matches Ok(r) && rewrite_entry_ok(r.entry, rel, sites) && r.new_bytes is None)
    &&& apply ==> match res {
        Ok(r) => rewrite_entry_ok(r.entry, rel, sites) && (r.new_bytes matches Some(b) && splice_all(
            source,
            r.entry.edits@,
        ) == Ok::<Seq<u8>, (usize, usize)>(b@) && b@.len() == source.len() + r.entry.bytes_changed),
        Err(e) => (e matches AstEditError::NodeKindMismatch { file, line, col } && file@ == rel
            && exists|edits: Seq<RewriteEdit>|
            #![trigger edits_for(sites, edits)]
            edits_for(sites, edits) && splice_all(source, edits) == Err::<Seq<u8>, (usize, usize)>(
                (line, col),
            )),
    }
}

/// Turns a file's sites into its entry (edits last first, change in
/// length) and, when applying, splices them into `source`: a site whose
/// range no longer holds its old text is a node-kind mismatch at its line
/// and column. Writing the bytes is the caller's.
pub fn apply_or_dry_run(rel: &str, source: &str, sites: &Vec<RewriteSite>, apply: bool) -> (res: Result<
    FileRewrite,
    AstEditError,
>)
    requires
        forall|k: int| 0 <= k < sites@.len() ==> #[trigger] sites@[k].start_byte <= sites@[k].end_byte,
        bytes_total(sites@) <= i64::MAX,
        bytes_total(sites@) <= usize::MAX,
    ensures
        applied_as_stated(res, rel@, source.spec_bytes(), sites@, apply),
{
    let mut edits: Vec<RewriteEdit> = Vec::new();
    let mut delta: i64 = 0;
    let mut i: usize = 0;
    assert(sites@.skip(0) =~= sites@);
    proof {
        lemma_delta_bound(sites@);
    }
    while i < sites.len()
        invariant
            i <= sites@.len(),
            forall|k: int| 0 <= k < sites@.len() ==> #[trigger] sites@[k].start_byte <= sites@[k].end_byte,
            bytes_total(sites@) <= i64::MAX,
            bytes_total(sites@) <= usize::MAX,
            edits@.map_values(|e: RewriteEdit| e@) == sites@.take(i as int).map_values(
                |s: RewriteSite| edit_of_site(s),
            ),
            forall|k: int| 0 <= k < edits@.len() ==> #[trigger] edits@[k].start_byte <= edits@[k].end_byte,
            bytes_delta(sites@) == delta + bytes_delta(sites@.skip(i as int)),
            bytes_total(sites@) == bytes_total(sites@.take(i as int)) + bytes_total(sites@.skip(i as int)),
            -bytes_total(sites@.take(i as int)) <= delta <= bytes_total(sites@.take(i as int)),
        decreases sites@.len() - i,
    {
        let s = &sites[i];
        let ghost rest = sites@.skip(i as int);
        assert(rest[0] == *s);
        assert(rest.skip(1) =~= sites@.skip(i + 1));
        proof {
            lemma_delta_bound(rest.skip(1));
            lemma_delta_bound(sites@.take(i as int));
            lemma_total_split(sites@, i as int);
        }
        let old_str = s.old.as_str();
        let new_str = s.new.as_str();
        assert(old_str@ == s.old@ && new_str@ == s.new@);
        let old_len = old_str.len();
        let new_len = new_str.len();
        assert(old_len == encode_utf8(s.old@).len());
        assert(new_len == encode_utf8(s.new@).len());
        delta = delta + (new_len as i64 - old_len as i64);
        let e = RewriteEdit {
            line: s.line,
            col: s.col,
            start_byte: s.start_byte,
            end_byte: s.end_byte,
            old: s.old.clone(),
            new: s.new.clone(),
        };
        let ghost before = edits@;
        edits.push(e);
        proof {
            assert(edits@.map_values(|e: RewriteEdit| e@) =~= before.map_values(|e: RewriteEdit| e@).push(e@));
            assert(sites@.take(i + 1).map_values(|s: RewriteSite| edit_of_site(s)) =~= sites@.take(
                i as int,
            ).map_values(|s: RewriteSite| edit_of_site(s)).push(edit_of_site(*s)));
        }
        i = i + 1;
    }
    assert(sites@.take(i as int) =~= sites@);
    assert(sites@.skip(i as int) =~= Seq::<RewriteSite>::empty());
    let ghost unsorted = edits@;
    let sorted = stable_sort(edits);
    proof {
        sorted@.to_multiset_ensures();
        unsorted.to_multiset_ensures();
        assert forall|k: int| 0 <= k < sorted@.len() implies #[trigger] sorted@[k].start_byte
            <= sorted@[k].end_byte by {
            assert(sorted@.to_multiset().count(sorted@[k]) > 0);
            assert(unsorted.contains(sorted@[k]));
        }
    }
    let entry_file = rel.to_owned();
    if !apply {
        let entry = RewriteAppliedFile { file: entry_file, bytes_changed: delta, edits: sorted };
        assert(stable_sorted(unsorted, entry.edits@));
        return Ok(FileRewrite { entry, new_bytes: None });
    }
    let bytes = vstd::slice::slice_to_vec(source.as_bytes());
    match splice_edits(bytes, &sorted) {
        Ok(b) => {
            proof {
                lemma_splice_len(source.spec_bytes(), sorted@, b@);
                lemma_delta_permutation(sorted@, unsorted);
                lemma_delta_of_sites(unsorted, sites@);
            }
            let entry = RewriteAppliedFile { file: entry_file, bytes_changed: delta, edits: sorted };
            assert(stable_sorted(unsorted, entry.edits@));
            Ok(FileRewrite { entry, new_bytes: Some(b) })
        },
        Err((line, col)) => {
            let e = AstEditError::NodeKindMismatch { file: rel.to_owned(), line, col };
            assert(stable_sorted(unsorted, sorted@));
            assert(edits_for(sites@, sorted@));
            Err(e)
        },
    }
}

proof fn lemma_total_split(s: Seq<RewriteSite>, i: int)
    requires
        0 <= i < s.len(),
    ensures
        bytes_total(s.take(i + 1)) == bytes_total(s.take(i)) + encode_utf8(s[i].new@).len()
            + encode_utf8(s[i].old@).len(),
    decreases i,
{
    if i > 0 {
        lemma_total_split(s.skip(1), i - 1);
        assert(s.take(i + 1).skip(1) =~= s.skip(1).take(i));
        assert(s.take(i).skip(1) =~= s.skip(1).take(i - 1));
        assert(s.skip(1)[i - 1] == s[i]);
    } else {
        assert(s.take(1).skip(1) =~= Seq::<RewriteSite>::empty());
        assert(s.take(0) =~= Seq::<RewriteSite>::empty());
    }
}

// ---------------------------------------------------------------------------
// One file's turn, and the command's outcome
// ---------------------------------------------------------------------------
/// The sites' ranges run forward and their byte counts fit the machine's
/// integers.
pub open spec fn sites_fit(sites: Seq<RewriteSite>) -> bool {
    &&& forall|k: int| 0 <= k < sites.len() ==> #[trigger] sites[k].start_byte <= sites[k].end_byte
    &&& bytes_total(sites) <= i64::MAX
    &&& bytes_total(sites) <= usize::MAX
}

proof fn lemma_total_prefix(s: Seq<RewriteSite>, i: int, j: int)
    requires
        0 <= i <= j <= s.len(),
    ensures
        bytes_total(s.take(i)) <= bytes_total(s.take(j)),
    decreases j - i,
{
    if i < j {
        lemma_total_split(s, j - 1);
        lemma_total_prefix(s, i, j - 1);
    }
}

fn check_sites_fit(sites: &Vec<RewriteSite>) -> (res: bool)
    ensures
        res == sites_fit(sites@),
{
    let limit: u64 = if (usize::MAX as u64) < (i64::MAX as u64) {
        usize::MAX as u64
    } else {
        i64::MAX as u64
    };
    let mut acc: u64 = 0;
    let mut i: usize = 0;
    assert(sites@.take(0) =~= Seq::<RewriteSite>::empty());
    while i < sites.len()
        invariant
            i <= sites@.len(),
            limit == if usize::MAX < i64::MAX { usize::MAX as int } else { i64::MAX as int },
            acc == bytes_total(sites@.take(i as int)),
            acc <= limit,
            forall|k: int| 0 <= k < i ==> #[trigger] sites@[k].start_byte <= sites@[k].end_byte,
        decreases sites@.len() - i,
    {
        let s = &sites[i];
        proof {
            lemma_total_split(sites@, i as int);
            lemma_total_prefix(sites@, i + 1, sites@.len() as int);
            assert(sites@.take(sites@.len() as int) =~= sites@);
        }
        if s.start_byte > s.end_byte {
            return false;
        }
        let old_str = s.old.as_str();
        let new_str = s.new.as_str();
        let n_old = old_str.as_bytes().len() as u64;
        let n_new = new_str.as_bytes().len() as u64;
        assert(n_old == encode_utf8(s.old@).len() && n_new == encode_utf8(s.new@).len());
        if n_old > limit - acc {
            return false;
        }
        acc = acc + n_old;
        if n_new > limit - acc {
            return false;
        }
        acc = acc + n_new;
        i = i + 1;
    }
    assert(sites@.take(i as int) =~= sites@);
    true
}

/// One source file's turn in a rewrite.
#[derive(Debug)]
pub enum FileStep {
    /// Outside the language filter, or without a match.
    Skipped,
    /// Matching or applying failed with this error.
    Failed(AstEditError),
    /// The sites hold more bytes than the machine's integers count.
    TooLarge,
    /// The file's entry and, when applying, its new bytes.
    Rewritten(FileRewrite),
}

/// What a file's turn gives once its sites are known.
pub open spec fn step_for_sites(
    res: FileStep,
    rel: Seq<char>,
    source: Seq<u8>,
    sites: Seq<RewriteSite>,
    apply: bool,
) -> bool {
    if !sites_fit(sites) {
        res is TooLarge
    } else {
        match res {
            FileStep::Rewritten(r) => applied_as_stated(
                Ok::<FileRewrite, AstEditError>(r),
                rel,
                source,
                sites,
                apply,
            ),
            FileStep::Failed(e) => applied_as_stated(
                Err::<FileRewrite, AstEditError>(e),
                rel,
                source,
                sites,
                apply,
            ),
            _ => false,
        }
    }
}

/// A file of language `lang` at `rel` with text `source`: skipped when the
/// filter names another language; else its match sites (see
/// `rewrite_file`), whose error is reported; skipped without a site; else
/// its entry and new bytes (see `apply_or_dry_run`).
pub fn rewrite_step(
    rel: &str,
    source: &str,
    pattern: &str,
    rewrite: &str,
    lang: Language,
    filter: Option<Language>,
    apply: bool,
) -> (res: FileStep)
    ensures
        (filter matches Some(t) && t != lang) ==> res is Skipped,
        !(filter matches Some(t) && t != lang) ==> {
            let g = crate::astedit::rewrite::grep_matches(source@, pattern@, rewrite@, lang);
            &&& !crate::astedit::rewrite::rewrite_succeeds(source@, pattern@, rewrite@, lang) ==> (
            res matches FileStep::Failed(e) && crate::astedit::rewrite::rewrite_error_for(
                e,
                pattern@,
                lang,
                language_name(lang),
            ))
            &&& (crate::astedit::rewrite::rewrite_succeeds(source@, pattern@, rewrite@, lang) && g.len()
                == 0) ==> res is Skipped
            &&& (crate::astedit::rewrite::rewrite_succeeds(source@, pattern@, rewrite@, lang) && g.len()
                > 0) ==> exists|sites: Seq<RewriteSite>|
                #![trigger crate::astedit::rewrite::sites_of_matches(sites, g)]
                crate::astedit::rewrite::sites_of_matches(sites, g) && step_for_sites(
                    res,
                    rel@,
                    source.spec_bytes(),
                    sites,
                    apply,
                )
        },
{
    if let Some(t) = filter {
        if t != lang {
            return FileStep::Skipped;
        }
    }
    let sites = match rewrite_file(source, pattern, rewrite, lang) {
        Ok(s) => s,
        Err(e) => {
            return FileStep::Failed(e);
        },
    };
    assert(crate::astedit::rewrite::sites_of_matches(
        sites@,
        crate::astedit::rewrite::grep_matches(source@, pattern@, rewrite@, lang),
    ));
    if sites.len() == 0 {
        return FileStep::Skipped;
    }
    if !check_sites_fit(&sites) {
        return FileStep::TooLarge;
    }
    match apply_or_dry_run(rel, source, &sites, apply) {
        Ok(r) => FileStep::Rewritten(r),
        Err(e) => FileStep::Failed(e),
    }
}

/// What a file contributed to the command's report.
#[derive(Debug)]
pub enum FileResult {
    Skipped,
    Applied(RewriteAppliedFile),
    Error(ErrorEntry),
}

/// The entries of the files that were rewritten, in order.
pub open spec fn applied_of(files: Seq<FileResult>) -> Seq<RewriteAppliedFile>
    decreases files.len(),
{
    if files.len() == 0 {
        Seq::empty()
    } else {
        let prev = applied_of(files.drop_last());
        match files.last() {
            FileResult::Applied(a) => prev.push(a),
            _ => prev,
        }
    }
}

/// The errors of the files, in order.
pub open spec fn errors_of(files: Seq<FileResult>) -> Seq<ErrorEntry>
    decreases files.len(),
{
    if files.len() == 0 {
        Seq::empty()
    } else {
        let prev = errors_of(files.drop_last());
        match files.last() {
            FileResult::Error(e) => prev.push(e),
            _ => prev,
        }
    }
}

/// The rewrite command's report and exit code. When a pattern failed to
/// compile no file is rewritten: the report holds the compile errors only
/// and the code is 2. Otherwise it holds the files' entries and, after the
/// compile errors, their errors, in order, and the code is 0.
pub fn rewrite_outcome(
    compile_errors: Vec<ErrorEntry>,
    compile_failed: bool,
    files: Vec<FileResult>,
    apply: bool,
) -> (res: (crate::astedit::serialize::RewriteData, i32))
    ensures
        res.0.subcommand@ == "rewrite"@,
        res.0.dry_run == !apply,
        res.0.applied matches Some(a) && a@ == if compile_failed {
            Seq::empty()
        } else {
            applied_of(files@)
        },
        res.0.errors matches Some(e) && e@ == compile_errors@ + if compile_failed {
            Seq::empty()
        } else {
            errors_of(files@)
        },
        res.1 == if compile_failed {
            2i32
        } else {
            0i32
        },
{
    let mut applied: Vec<RewriteAppliedFile> = Vec::new();
    let mut errors = compile_errors;
    let ghost ce = errors@;
    if !compile_failed {
        let ghost fs = files@;
        let mut rest = files;
        let mut i: usize = 0;
        let n = rest.len();
        assert(fs.take(0) =~= Seq::<FileResult>::empty());
        assert(ce + errors_of(fs.take(0)) =~= ce);
        while i < n
            invariant
                n == fs.len(),
                i <= n,
                rest@ == fs.skip(i as int),
                applied@ == applied_of(fs.take(i as int)),
                errors@ == ce + errors_of(fs.take(i as int)),
            decreases n - i,
        {
            let f = rest.remove(0);
            assert(f == fs[i as int]);
            assert(rest@ =~= fs.skip(i + 1));
            assert(fs.take(i + 1).drop_last() =~= fs.take(i as int));
            assert(fs.take(i + 1).last() == f);
            match f {
                FileResult::Applied(a) => applied.push(a),
                FileResult::Error(e) => {
                    errors.push(e);
                    assert(errors@ =~= ce + errors_of(fs.take(i + 1)));
                },
                FileResult::Skipped => {},
            }
            i = i + 1;
        }
        assert(fs.take(i as int) =~= fs);
    } else {
        assert(errors@ =~= ce + Seq::<ErrorEntry>::empty());
    }
    let data = crate::astedit::serialize::RewriteData {
        subcommand: "rewrite",
        dry_run: !apply,
        applied: Some(applied),
        errors: Some(errors),
    };
    proof {
        reveal_strlit("rewrite");
    }
    let code: i32 = if compile_failed {
        2
    } else {
        0
    };
    (data, code)
}

} // verus!
