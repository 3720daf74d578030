//! Resolution of the references to a name against the index: each
//! reference gets the definition it most plausibly points at, a confidence
//! and the rule that decided.
use vstd::prelude::*;

use crate::index::{Definition, Import, Index, Reference};
use crate::text::{
    chars_of, ends_with, has_char, has_char_in, join, last_segment, last_segment_of, replace,
    replace_all, slice_ends_with, slice_eq, slice_starts_with, starts_with, stem_or_empty,
    file_stem_or_empty, str_eq, trim_char, trim_end, trim_end_matches, trim_matches_char,
    trim_start, trim_start_matches,
};

verus! {

#[derive(Debug, Clone, Copy, PartialEq, Eq, Structural)]
pub enum Confidence {
    High,
    Medium,
    Low,
}

#[derive(Debug, Clone, Copy, PartialEq, Eq, Structural)]
pub enum ResolveReason {
    SameFileScope,
    ImportResolved,
    NameOnly,
}

pub open spec fn confidence_text(c: Confidence) -> Seq<char> {
    match c {
        Confidence::High => "high"@,
        Confidence::Medium => "medium"@,
        Confidence::Low => "low"@,
    }
}

pub open spec fn reason_text(r: ResolveReason) -> Seq<char> {
    match r {
        ResolveReason::SameFileScope => "same-file-scope"@,
        ResolveReason::ImportResolved => "import-resolved"@,
        ResolveReason::NameOnly => "name-only"@,
    }
}

impl Confidence {
    pub fn as_str(self) -> (res: &'static str)
        ensures
            res@ == confidence_text(self),
    {
        match self {
            Confidence::High => "high",
            Confidence::Medium => "medium",
            Confidence::Low => "low",
        }
    }
}

impl ResolveReason {
    pub fn as_str(self) -> (res: &'static str)
        ensures
            res@ == reason_text(self),
    {
        match self {
            ResolveReason::SameFileScope => "same-file-scope",
            ResolveReason::ImportResolved => "import-resolved",
            ResolveReason::NameOnly => "name-only",
        }
    }
}

// ---------------------------------------------------------------------------
// Module paths
// ---------------------------------------------------------------------------
/// Does the module path `module` (as written in an import) plausibly name
/// the file `def_file`? Rust paths (`crate::a::b`, `self::a`) are mapped to
/// `a/b.rs` or `a/b/mod.rs` (optionally under `src/`); JS/TS relative paths
/// (`./a`, `../a`, `/a`) are compared by their last segment, extensions
/// dropped, with the file's stem; Python dotted paths (`a.b`, `.b`) match a
/// file ending in `a/b.py` or `a/b/__init__.py`, or one whose stem is the
/// last segment. Quotes around the path are ignored; `\` in the file path
/// reads as `/`.
pub open spec fn module_names_file(def_file: Seq<char>, module: Seq<char>) -> bool {
    if module.len() == 0 {
        false
    } else {
        let raw = trim_char(trim_char(module, '"'), '\'');
        let df = replace(def_file, seq!['\\'], "/"@);
        if starts_with(raw, "crate::"@) || raw == "crate"@ || starts_with(raw, "self::"@) {
            let path = replace(
                trim_start_matches(trim_start_matches(raw, "crate::"@), "self::"@),
                "::"@,
                "/"@,
            );
            if path.len() == 0 {
                df == "src/lib.rs"@ || df == "src/main.rs"@ || df == "lib.rs"@
            } else {
                df == "src/"@ + path + ".rs"@ || df == "src/"@ + path + "/mod.rs"@ || df == path
                    + ".rs"@ || df == path + "/mod.rs"@
            }
        } else if starts_with(raw, "./"@) || starts_with(raw, "../"@) || starts_with(raw, "/"@) {
            let t = trim_start_matches(raw, "./"@);
            let t = trim_end_matches(
                trim_end_matches(
                    trim_end_matches(
                        trim_end_matches(trim_end_matches(t, ".ts"@), ".tsx"@),
                        ".js"@,
                    ),
                    ".mjs"@,
                ),
                ".cjs"@,
            );
            last_segment(t, "/"@) == stem_or_empty(df)
        } else if starts_with(raw, "."@) || has_char(raw, '.') {
            let normalized = replace(trim_start_matches(raw, "."@), "."@, "/"@);
            ends_with(df, normalized + ".py"@) || ends_with(df, normalized + "/__init__.py"@)
                || stem_or_empty(df) == last_segment(normalized, "/"@)
        } else {
            false
        }
    }
}

/// The characters of a string literal.
fn lit(s: &'static str) -> (res: Vec<char>)
    ensures
        res@ == s@,
{
    chars_of(s)
}

fn module_matches(def: &Definition, imp: &Import) -> (res: bool)
    ensures
        res == module_names_file(def.file@, imp.module@),
{
    proof {
        reveal_strlit("/");
        reveal_strlit("::");
        reveal_strlit("crate::");
        reveal_strlit("crate");
        reveal_strlit("self::");
        reveal_strlit("src/lib.rs");
        reveal_strlit("src/main.rs");
        reveal_strlit("lib.rs");
        reveal_strlit("src/");
        reveal_strlit(".rs");
        reveal_strlit("/mod.rs");
        reveal_strlit("./");
        reveal_strlit("../");
        reveal_strlit(".ts");
        reveal_strlit(".tsx");
        reveal_strlit(".js");
        reveal_strlit(".mjs");
        reveal_strlit(".cjs");
        reveal_strlit(".");
        reveal_strlit(".py");
        reveal_strlit("/__init__.py");
    }
    let module = chars_of(imp.module.as_str());
    if module.len() == 0 {
        return false;
    }
    let raw0 = trim_matches_char(module.as_slice(), '"');
    let raw = trim_matches_char(raw0.as_slice(), '\'');
    let backslash = vec!['\\'];
    assert(backslash@ =~= seq!['\\']);
    let file = chars_of(def.file.as_str());
    let slash = lit("/");
    let df = replace_all(file.as_slice(), backslash.as_slice(), slash.as_slice());
    let rs = raw.as_slice();
    if slice_starts_with(rs, lit("crate::").as_slice()) || slice_eq(rs, lit("crate").as_slice())
        || slice_starts_with(rs, lit("self::").as_slice()) {
        let a = trim_start(rs, lit("crate::").as_slice());
        let b = trim_start(a.as_slice(), lit("self::").as_slice());
        let path = replace_all(b.as_slice(), lit("::").as_slice(), slash.as_slice());
        let d = df.as_slice();
        if path.len() == 0 {
            return slice_eq(d, lit("src/lib.rs").as_slice()) || slice_eq(
                d,
                lit("src/main.rs").as_slice(),
            ) || slice_eq(d, lit("lib.rs").as_slice());
        }
        let p = path.as_slice();
        let src_path = join(lit("src/").as_slice(), p);
        let c1 = join(src_path.as_slice(), lit(".rs").as_slice());
        let c2 = join(src_path.as_slice(), lit("/mod.rs").as_slice());
        let c3 = join(p, lit(".rs").as_slice());
        let c4 = join(p, lit("/mod.rs").as_slice());
        return slice_eq(d, c1.as_slice()) || slice_eq(d, c2.as_slice()) || slice_eq(
            d,
            c3.as_slice(),
        ) || slice_eq(d, c4.as_slice());
    }
    if slice_starts_with(rs, lit("./").as_slice()) || slice_starts_with(rs, lit("../").as_slice())
        || slice_starts_with(rs, slash.as_slice()) {
        let t0 = trim_start(rs, lit("./").as_slice());
        let t1 = trim_end(t0.as_slice(), lit(".ts").as_slice());
        let t2 = trim_end(t1.as_slice(), lit(".tsx").as_slice());
        let t3 = trim_end(t2.as_slice(), lit(".js").as_slice());
        let t4 = trim_end(t3.as_slice(), lit(".mjs").as_slice());
        let t5 = trim_end(t4.as_slice(), lit(".cjs").as_slice());
        let import_last = last_segment_of(t5.as_slice(), slash.as_slice());
        let stem = file_stem_or_empty(df.as_slice());
        return slice_eq(import_last.as_slice(), stem.as_slice());
    }
    let dot = lit(".");
    if slice_starts_with(rs, dot.as_slice()) || has_char_in(rs, '.') {
        let n0 = trim_start(rs, dot.as_slice());
        let normalized = replace_all(n0.as_slice(), dot.as_slice(), slash.as_slice());
        let c1 = join(normalized.as_slice(), lit(".py").as_slice());
        let c2 = join(normalized.as_slice(), lit("/__init__.py").as_slice());
        let stem = file_stem_or_empty(df.as_slice());
        let last = last_segment_of(normalized.as_slice(), slash.as_slice());
        return slice_ends_with(df.as_slice(), c1.as_slice()) || slice_ends_with(
            df.as_slice(),
            c2.as_slice(),
        ) || slice_eq(stem.as_slice(), last.as_slice());
    }
    false
}

// ---------------------------------------------------------------------------
// Resolution
// ---------------------------------------------------------------------------
/// The first element of `s` that satisfies `p`.
pub open spec fn first_where<A>(s: Seq<A>, p: spec_fn(A) -> bool) -> Option<A>
    decreases s.len(),
{
    if s.len() == 0 {
        None
    } else if p(s[0]) {
        Some(s[0])
    } else {
        first_where(s.skip(1), p)
    }
}

/// The number of elements of `s` that satisfy `p`.
pub open spec fn count_where<A>(s: Seq<A>, p: spec_fn(A) -> bool) -> nat
    decreases s.len(),
{
    if s.len() == 0 {
        0
    } else {
        (if p(s[0]) {
            1nat
        } else {
            0nat
        }) + count_where(s.skip(1), p)
    }
}

pub proof fn lemma_first_where_skip<A>(s: Seq<A>, p: spec_fn(A) -> bool, j: int)
    requires
        0 <= j <= s.len(),
        forall|i: int| 0 <= i < j ==> !p(s[i]),
    ensures
        first_where(s, p) == first_where(s.skip(j), p),
    decreases j,
{
    if j > 0 {
        assert(s.skip(1).skip(j - 1) =~= s.skip(j));
        assert forall|i: int| 0 <= i < j - 1 implies !p(s.skip(1)[i]) by {
            assert(s.skip(1)[i] == s[i + 1]);
        }
        lemma_first_where_skip(s.skip(1), p, j - 1);
    } else {
        assert(s.skip(0) =~= s);
    }
}

/// `first_where` is the element at the first index that satisfies `p`.
pub proof fn lemma_first_where_at<A>(s: Seq<A>, p: spec_fn(A) -> bool, j: int)
    requires
        0 <= j <= s.len(),
        forall|i: int| 0 <= i < j ==> !p(s[i]),
        j < s.len() ==> p(s[j]),
    ensures
        first_where(s, p) == (if j < s.len() {
            Some(s[j])
        } else {
            None::<A>
        }),
{
    lemma_first_where_skip(s, p, j);
    if j < s.len() {
        assert(s.skip(j)[0] == s[j]);
    }
}

pub proof fn lemma_count_skip<A>(s: Seq<A>, p: spec_fn(A) -> bool, j: int)
    requires
        0 <= j < s.len(),
    ensures
        count_where(s.skip(j), p) == (if p(s[j]) {
            1nat
        } else {
            0nat
        }) + count_where(s.skip(j + 1), p),
{
    assert(s.skip(j).skip(1) =~= s.skip(j + 1));
    assert(s.skip(j)[0] == s[j]);
}

/// Definition named `t` in file `f`.
pub open spec fn named_in_file(t: Seq<char>, f: Seq<char>) -> spec_fn(Definition) -> bool {
    |d: Definition| d.name@ == t && d.file@ == f
}

/// Definition named `t`.
pub open spec fn named(t: Seq<char>) -> spec_fn(Definition) -> bool {
    |d: Definition| d.name@ == t
}

/// Definition named `t` in a file that `module` plausibly names.
pub open spec fn named_in_module(t: Seq<char>, module: Seq<char>) -> spec_fn(Definition) -> bool {
    |d: Definition| d.name@ == t && module_names_file(d.file@, module)
}

/// Named (non-glob) import of `t` in file `f`.
pub open spec fn named_import(t: Seq<char>, f: Seq<char>) -> spec_fn(Import) -> bool {
    |i: Import| i.file@ == f && i.local_name@ == t && i.imported_name@ != "*"@
}

/// The definition reached through the first glob import of file `f` (in
/// import order) whose module holds a definition named `t`.
pub open spec fn glob_resolution(defs: Seq<Definition>, imps: Seq<Import>, t: Seq<char>, f: Seq<
    char,
>) -> Option<Definition>
    decreases imps.len(),
{
    if imps.len() == 0 {
        None
    } else if imps[0].file@ == f && imps[0].imported_name@ == "*"@ && first_where(
        defs,
        named_in_module(t, imps[0].module@),
    ) is Some {
        first_where(defs, named_in_module(t, imps[0].module@))
    } else {
        glob_resolution(defs, imps.skip(1), t, f)
    }
}

/// How a reference to `t` from file `f` resolves, rule by rule: a
/// definition of `t` in the same file (high); else, through the first named
/// import of `t` in `f`, a definition in the module it names (high); else,
/// through a glob import of `f`, a definition in its module (medium); else
/// by name only: the first definition of `t`, medium when it is the only
/// one, low otherwise.
pub open spec fn resolution(defs: Seq<Definition>, imps: Seq<Import>, t: Seq<char>, f: Seq<char>) -> (
    Option<Definition>,
    Confidence,
    ResolveReason,
) {
    let same = first_where(defs, named_in_file(t, f));
    if same is Some {
        (same, Confidence::High, ResolveReason::SameFileScope)
    } else {
        let via = match first_where(imps, named_import(t, f)) {
            Some(imp) => first_where(defs, named_in_module(t, imp.module@)),
            None => None,
        };
        if via is Some {
            (via, Confidence::High, ResolveReason::ImportResolved)
        } else {
            let glob = glob_resolution(defs, imps, t, f);
            if glob is Some {
                (glob, Confidence::Medium, ResolveReason::ImportResolved)
            } else {
                (
                    first_where(defs, named(t)),
                    if count_where(defs, named(t)) == 1 {
                        Confidence::Medium
                    } else {
                        Confidence::Low
                    },
                    ResolveReason::NameOnly,
                )
            }
        }
    }
}

/// Nothing satisfies `p`: there is no first and the count is 0.
pub proof fn lemma_where_none<A>(s: Seq<A>, p: spec_fn(A) -> bool)
    requires
        forall|i: int| 0 <= i < s.len() ==> !p(#[trigger] s[i]),
    ensures
        first_where(s, p) is None,
        count_where(s, p) == 0,
    decreases s.len(),
{
    if s.len() > 0 {
        assert(!p(s[0]));
        assert forall|i: int| 0 <= i < s.skip(1).len() implies !p(#[trigger] s.skip(1)[i]) by {
            assert(s.skip(1)[i] == s[i + 1]);
        }
        lemma_where_none(s.skip(1), p);
    }
}

/// Exactly `s[i]` satisfies `p`: it is the first and the count is 1.
pub proof fn lemma_where_one<A>(s: Seq<A>, p: spec_fn(A) -> bool, i: int)
    requires
        0 <= i < s.len(),
        p(s[i]),
        forall|j: int| 0 <= j < s.len() && j != i ==> !p(#[trigger] s[j]),
    ensures
        first_where(s, p) == Some(s[i]),
        count_where(s, p) == 1,
    decreases s.len(),
{
    if i == 0 {
        assert forall|j: int| 0 <= j < s.skip(1).len() implies !p(#[trigger] s.skip(1)[j]) by {
            assert(s.skip(1)[j] == s[j + 1]);
        }
        lemma_where_none(s.skip(1), p);
    } else {
        assert(!p(s[0]));
        assert(s.skip(1)[i - 1] == s[i]);
        assert forall|j: int| 0 <= j < s.skip(1).len() && j != i - 1 implies !p(#[trigger] s.skip(1)[j]) by {
            assert(s.skip(1)[j] == s[j + 1]);
        }
        lemma_where_one(s.skip(1), p, i - 1);
    }
}

/// Two elements satisfying `p` count at least 2.
pub proof fn lemma_where_two<A>(s: Seq<A>, p: spec_fn(A) -> bool, i: int, j: int)
    requires
        0 <= i < j < s.len(),
        p(s[i]),
        p(s[j]),
    ensures
        count_where(s, p) >= 2,
    decreases s.len(),
{
    assert(s.skip(1)[j - 1] == s[j]);
    if i == 0 {
        lemma_where_some(s.skip(1), p, j - 1);
    } else {
        assert(s.skip(1)[i - 1] == s[i]);
        lemma_where_two(s.skip(1), p, i - 1, j - 1);
    }
}

/// One element satisfying `p` counts at least 1.
pub proof fn lemma_where_some<A>(s: Seq<A>, p: spec_fn(A) -> bool, j: int)
    requires
        0 <= j < s.len(),
        p(s[j]),
    ensures
        count_where(s, p) >= 1,
    decreases s.len(),
{
    if j > 0 {
        assert(s.skip(1)[j - 1] == s[j]);
        lemma_where_some(s.skip(1), p, j - 1);
    }
}

/// A file without glob imports resolves nothing through one.
pub proof fn lemma_no_glob(defs: Seq<Definition>, imps: Seq<Import>, t: Seq<char>, f: Seq<char>)
    requires
        forall|j: int| 0 <= j < imps.len() && (#[trigger] imps[j]).file@ == f ==> imps[j].imported_name@ != "*"@,
    ensures
        glob_resolution(defs, imps, t, f) is None,
    decreases imps.len(),
{
    if imps.len() > 0 {
        assert(imps[0].file@ == f ==> imps[0].imported_name@ != "*"@);
        assert forall|j: int| 0 <= j < imps.skip(1).len() && (#[trigger] imps.skip(1)[j]).file@ == f implies imps.skip(1)[j].imported_name@ != "*"@ by {
            assert(imps.skip(1)[j] == imps[j + 1]);
        }
        lemma_no_glob(defs, imps.skip(1), t, f);
    }
}

/// A reference to `t` from file `f`, where `f` defines no `t` and imports
/// neither `t` by name nor anything by glob, resolves by name only: to the
/// one definition named `t`, with medium confidence, when there is exactly
/// one; with low confidence when there is none (and then to nothing) or
/// when there are several.
#[verifier::rlimit(60)]
pub proof fn lemma_name_only_confidence(defs: Seq<Definition>, imps: Seq<Import>, t: Seq<char>, f: Seq<char>)
    requires
        forall|i: int| 0 <= i < defs.len() ==> !((#[trigger] defs[i]).name@ == t && defs[i].file@ == f),
        forall|j: int|
            0 <= j < imps.len() && (#[trigger] imps[j]).file@ == f ==> imps[j].local_name@ != t
                && imps[j].imported_name@ != "*"@,
    ensures
        resolution(defs, imps, t, f).2 == ResolveReason::NameOnly,
        forall|i: int|
            0 <= i < defs.len() && (#[trigger] defs[i]).name@ == t && (forall|j: int|
                0 <= j < defs.len() && j != i ==> defs[j].name@ != t) ==> resolution(defs, imps, t, f)
                == (Some(defs[i]), Confidence::Medium, ResolveReason::NameOnly),
        (forall|i: int| 0 <= i < defs.len() ==> (#[trigger] defs[i]).name@ != t) ==> resolution(
            defs,
            imps,
            t,
            f,
        ) == (None::<Definition>, Confidence::Low, ResolveReason::NameOnly),
        forall|i: int, j: int|
            0 <= i < j < defs.len() && (#[trigger] defs[i]).name@ == t && (#[trigger] defs[j]).name@
                == t ==> resolution(defs, imps, t, f).1 == Confidence::Low,
{
    lemma_falls_to_name(defs, imps, t, f);
    let first = first_where(defs, named(t));
    let n = count_where(defs, named(t));
    assert(resolution(defs, imps, t, f) == (first, if n == 1 {
        Confidence::Medium
    } else {
        Confidence::Low
    }, ResolveReason::NameOnly));
    assert forall|i: int|
        0 <= i < defs.len() && (#[trigger] defs[i]).name@ == t && (forall|j: int|
            0 <= j < defs.len() && j != i ==> defs[j].name@ != t) implies resolution(defs, imps, t, f)
        == (Some(defs[i]), Confidence::Medium, ResolveReason::NameOnly) by {
        assert forall|j: int| 0 <= j < defs.len() && j != i implies !named(t)(#[trigger] defs[j]) by {}
        lemma_where_one(defs, named(t), i);
    }
    if forall|i: int| 0 <= i < defs.len() ==> (#[trigger] defs[i]).name@ != t {
        assert forall|i: int| 0 <= i < defs.len() implies !named(t)(#[trigger] defs[i]) by {}
        lemma_where_none(defs, named(t));
    }
    assert forall|i: int, j: int|
        0 <= i < j < defs.len() && (#[trigger] defs[i]).name@ == t && (#[trigger] defs[j]).name@ == t implies resolution(
        defs,
        imps,
        t,
        f,
    ).1 == Confidence::Low by {
        lemma_where_two(defs, named(t), i, j);
    }
}

/// Without a same-file definition, named import or glob import, the
/// resolution is the name-only rule.
proof fn lemma_falls_to_name(defs: Seq<Definition>, imps: Seq<Import>, t: Seq<char>, f: Seq<char>)
    requires
        forall|i: int| 0 <= i < defs.len() ==> !((#[trigger] defs[i]).name@ == t && defs[i].file@ == f),
        forall|j: int|
            0 <= j < imps.len() && (#[trigger] imps[j]).file@ == f ==> imps[j].local_name@ != t
                && imps[j].imported_name@ != "*"@,
    ensures
        resolution(defs, imps, t, f) == (
            first_where(defs, named(t)),
            if count_where(defs, named(t)) == 1 {
                Confidence::Medium
            } else {
                Confidence::Low
            },
            ResolveReason::NameOnly,
        ),
{
    assert forall|i: int| 0 <= i < defs.len() implies !named_in_file(t, f)(#[trigger] defs[i]) by {}
    lemma_where_none(defs, named_in_file(t, f));
    assert forall|j: int| 0 <= j < imps.len() implies !named_import(t, f)(#[trigger] imps[j]) by {}
    lemma_where_none(imps, named_import(t, f));
    assert forall|j: int| 0 <= j < imps.len() && (#[trigger] imps[j]).file@ == f implies imps[j].imported_name@
        != "*"@ by {}
    lemma_no_glob(defs, imps, t, f);
}

/// What `first_where` finds satisfies `p` and is an element.
pub proof fn lemma_first_where_sound<A>(s: Seq<A>, p: spec_fn(A) -> bool)
    ensures
        first_where(s, p) matches Some(x) ==> p(x) && s.contains(x),
    decreases s.len(),
{
    if s.len() > 0 && !p(s[0]) {
        lemma_first_where_sound(s.skip(1), p);
        if let Some(x) = first_where(s.skip(1), p) {
            let k = choose|k: int| 0 <= k < s.skip(1).len() && s.skip(1)[k] == x;
            assert(s[k + 1] == x);
        }
    } else if s.len() > 0 {
        assert(s[0] == s[0]);
    }
}

/// When some element satisfies `p`, the first one found satisfies it and is
/// an element.
pub proof fn lemma_where_found<A>(s: Seq<A>, p: spec_fn(A) -> bool, i: int)
    requires
        0 <= i < s.len(),
        p(s[i]),
    ensures
        first_where(s, p) matches Some(x) && p(x) && s.contains(x),
    decreases s.len(),
{
    if !p(s[0]) {
        assert(s.skip(1)[i - 1] == s[i]);
        lemma_where_found(s.skip(1), p, i - 1);
        let x = first_where(s.skip(1), p)->Some_0;
        let k = choose|k: int| 0 <= k < s.skip(1).len() && s.skip(1)[k] == x;
        assert(s[k + 1] == x);
    } else {
        assert(s[0] == s[0]);
    }
}

/// A reference to `t` from a file that defines `t` resolves to such a
/// definition of that file, with high confidence, by same-file scope,
/// whatever else the index holds.
pub proof fn lemma_same_file_wins(defs: Seq<Definition>, imps: Seq<Import>, t: Seq<char>, f: Seq<char>, i: int)
    requires
        0 <= i < defs.len(),
        defs[i].name@ == t,
        defs[i].file@ == f,
    ensures
        resolution(defs, imps, t, f).1 == Confidence::High,
        resolution(defs, imps, t, f).2 == ResolveReason::SameFileScope,
        resolution(defs, imps, t, f).0 matches Some(d) && d.name@ == t && d.file@ == f && defs.contains(d),
{
    lemma_where_found(defs, named_in_file(t, f), i);
}

/// A glob import of `f`, at `j`, whose module holds a definition of `t`
/// gives a glob resolution: a definition of `t` in the module of some glob
/// import of `f`.
pub proof fn lemma_glob_found(defs: Seq<Definition>, imps: Seq<Import>, t: Seq<char>, f: Seq<char>, j: int, i: int)
    requires
        0 <= j < imps.len(),
        imps[j].file@ == f,
        imps[j].imported_name@ == "*"@,
        0 <= i < defs.len(),
        named_in_module(t, imps[j].module@)(defs[i]),
    ensures
        glob_resolution(defs, imps, t, f) matches Some(d) && d.name@ == t && defs.contains(d) && exists|k: int|
            0 <= k < imps.len() && (#[trigger] imps[k]).file@ == f && imps[k].imported_name@ == "*"@
                && module_names_file(d.file@, imps[k].module@),
    decreases imps.len(),
{
    if imps[0].file@ == f && imps[0].imported_name@ == "*"@ && first_where(
        defs,
        named_in_module(t, imps[0].module@),
    ) is Some {
        lemma_first_where_sound(defs, named_in_module(t, imps[0].module@));
        assert(imps[0].file@ == f);
    } else {
        if j == 0 {
            lemma_where_found(defs, named_in_module(t, imps[0].module@), i);
        }
        assert(imps.skip(1)[j - 1] == imps[j]);
        lemma_glob_found(defs, imps.skip(1), t, f, j - 1, i);
        let d = glob_resolution(defs, imps.skip(1), t, f)->Some_0;
        let k = choose|k: int|
            0 <= k < imps.skip(1).len() && (#[trigger] imps.skip(1)[k]).file@ == f && imps.skip(1)[k].imported_name@
                == "*"@ && module_names_file(d.file@, imps.skip(1)[k].module@);
        assert(imps[k + 1] == imps.skip(1)[k]);
    }
}

/// A reference to `t` from file `f`, where `f` defines no `t` and imports
/// no `t` by name, but has a glob import whose module holds a definition of
/// `t`, resolves through a glob import: to a definition of `t` in the
/// module of a glob import of `f`, with medium confidence.
pub proof fn lemma_glob_import_medium(
    defs: Seq<Definition>,
    imps: Seq<Import>,
    t: Seq<char>,
    f: Seq<char>,
    j: int,
    i: int,
)
    requires
        forall|k: int| 0 <= k < defs.len() ==> !((#[trigger] defs[k]).name@ == t && defs[k].file@ == f),
        forall|k: int|
            0 <= k < imps.len() && (#[trigger] imps[k]).file@ == f && imps[k].local_name@ == t ==> imps[k].imported_name@
                == "*"@,
        0 <= j < imps.len(),
        imps[j].file@ == f,
        imps[j].imported_name@ == "*"@,
        0 <= i < defs.len(),
        defs[i].name@ == t,
        module_names_file(defs[i].file@, imps[j].module@),
    ensures
        resolution(defs, imps, t, f).1 == Confidence::Medium,
        resolution(defs, imps, t, f).2 == ResolveReason::ImportResolved,
        resolution(defs, imps, t, f).0 matches Some(d) && d.name@ == t && defs.contains(d) && exists|k: int|
            0 <= k < imps.len() && (#[trigger] imps[k]).file@ == f && imps[k].imported_name@ == "*"@
                && module_names_file(d.file@, imps[k].module@),
{
    assert forall|k: int| 0 <= k < defs.len() implies !named_in_file(t, f)(#[trigger] defs[k]) by {}
    lemma_where_none(defs, named_in_file(t, f));
    assert forall|k: int| 0 <= k < imps.len() implies !named_import(t, f)(#[trigger] imps[k]) by {}
    lemma_where_none(imps, named_import(t, f));
    lemma_glob_found(defs, imps, t, f, j, i);
}

/// A reference to `t` from file `f`, where `f` defines no `t` and its first
/// named import of `t` (at `k`) comes from a module that holds a definition
/// of `t`, resolves through that import to such a definition, with high
/// confidence.
pub proof fn lemma_named_import_high(
    defs: Seq<Definition>,
    imps: Seq<Import>,
    t: Seq<char>,
    f: Seq<char>,
    k: int,
    i: int,
)
    requires
        forall|q: int| 0 <= q < defs.len() ==> !((#[trigger] defs[q]).name@ == t && defs[q].file@ == f),
        0 <= k < imps.len(),
        named_import(t, f)(imps[k]),
        forall|q: int| 0 <= q < k ==> !named_import(t, f)(#[trigger] imps[q]),
        0 <= i < defs.len(),
        defs[i].name@ == t,
        module_names_file(defs[i].file@, imps[k].module@),
    ensures
        resolution(defs, imps, t, f).1 == Confidence::High,
        resolution(defs, imps, t, f).2 == ResolveReason::ImportResolved,
        resolution(defs, imps, t, f).0 matches Some(d) && d.name@ == t && defs.contains(d)
            && module_names_file(d.file@, imps[k].module@),
{
    assert forall|q: int| 0 <= q < defs.len() implies !named_in_file(t, f)(#[trigger] defs[q]) by {}
    lemma_where_none(defs, named_in_file(t, f));
    lemma_first_where_at(imps, named_import(t, f), k);
    lemma_where_found(defs, named_in_module(t, imps[k].module@), i);
}

#[derive(Debug)]
pub struct Resolved<'a> {
    pub reference: &'a Reference,
    /// The matched definition.
    pub definition: Option<&'a Definition>,
    pub confidence: Confidence,
    pub reason: ResolveReason,
}

/// The definition behind an optional reference.
pub open spec fn deref_opt(d: Option<&Definition>) -> Option<Definition> {
    match d {
        Some(d) => Some(*d),
        None => None,
    }
}

/// The references named `t`, in index order.
pub open spec fn refs_named(refs: Seq<Reference>, t: Seq<char>) -> Seq<Reference> {
    refs.filter(has_name(t))
}

/// Reference named `t`.
pub open spec fn has_name(t: Seq<char>) -> spec_fn(Reference) -> bool {
    |r: Reference| r.name@ == t
}

/// First definition satisfying `named_in_file(t, f)`.
fn find_same_file<'a>(defs: &'a Vec<Definition>, t: &str, f: &str) -> (res: Option<&'a Definition>)
    ensures
        deref_opt(res) == first_where(defs@, named_in_file(t@, f@)),
{
    let mut i: usize = 0;
    while i < defs.len()
        invariant
            i <= defs@.len(),
            forall|j: int| 0 <= j < i ==> !named_in_file(t@, f@)(defs@[j]),
        decreases defs@.len() - i,
    {
        if str_eq(defs[i].name.as_str(), t) && str_eq(defs[i].file.as_str(), f) {
            proof {
                lemma_first_where_at(defs@, named_in_file(t@, f@), i as int);
            }
            return Some(&defs[i]);
        }
        i = i + 1;
    }
    proof {
        lemma_first_where_at(defs@, named_in_file(t@, f@), i as int);
    }
    None
}

/// First definition satisfying `named_in_module(t, module)`.
fn find_in_module<'a>(defs: &'a Vec<Definition>, t: &str, imp: &Import) -> (res: Option<
    &'a Definition,
>)
    ensures
        deref_opt(res) == first_where(defs@, named_in_module(t@, imp.module@)),
{
    let mut i: usize = 0;
    while i < defs.len()
        invariant
            i <= defs@.len(),
            forall|j: int| 0 <= j < i ==> !named_in_module(t@, imp.module@)(defs@[j]),
        decreases defs@.len() - i,
    {
        if str_eq(defs[i].name.as_str(), t) && module_matches(&defs[i], imp) {
            proof {
                lemma_first_where_at(defs@, named_in_module(t@, imp.module@), i as int);
            }
            return Some(&defs[i]);
        }
        i = i + 1;
    }
    proof {
        lemma_first_where_at(defs@, named_in_module(t@, imp.module@), i as int);
    }
    None
}

/// First import satisfying `named_import(t, f)`.
fn find_named_import<'a>(imps: &'a Vec<Import>, t: &str, f: &str) -> (res: Option<&'a Import>)
    ensures
        match res {
            Some(i) => first_where(imps@, named_import(t@, f@)) == Some(*i),
            None => first_where(imps@, named_import(t@, f@)) is None,
        },
{
    proof {
        reveal_strlit("*");
    }
    let mut i: usize = 0;
    while i < imps.len()
        invariant
            i <= imps@.len(),
            forall|j: int| 0 <= j < i ==> !named_import(t@, f@)(imps@[j]),
        decreases imps@.len() - i,
    {
        if str_eq(imps[i].file.as_str(), f) && str_eq(imps[i].local_name.as_str(), t) && !str_eq(
            imps[i].imported_name.as_str(),
            "*",
        ) {
            proof {
                lemma_first_where_at(imps@, named_import(t@, f@), i as int);
            }
            return Some(&imps[i]);
        }
        i = i + 1;
    }
    proof {
        lemma_first_where_at(imps@, named_import(t@, f@), i as int);
    }
    None
}

/// `glob_resolution`, computed.
fn find_glob<'a>(defs: &'a Vec<Definition>, imps: &Vec<Import>, t: &str, f: &str) -> (res: Option<
    &'a Definition,
>)
    ensures
        deref_opt(res) == glob_resolution(defs@, imps@, t@, f@),
{
    proof {
        reveal_strlit("*");
    }
    let mut i: usize = 0;
    assert(imps@.skip(0) =~= imps@);
    while i < imps.len()
        invariant
            i <= imps@.len(),
            glob_resolution(defs@, imps@, t@, f@) == glob_resolution(
                defs@,
                imps@.skip(i as int),
                t@,
                f@,
            ),
        decreases imps@.len() - i,
    {
        let ghost rest = imps@.skip(i as int);
        assert(rest[0] == imps@[i as int]);
        assert(rest.skip(1) =~= imps@.skip(i + 1));
        if str_eq(imps[i].file.as_str(), f) && str_eq(imps[i].imported_name.as_str(), "*") {
            let d = find_in_module(defs, t, &imps[i]);
            if d.is_some() {
                return d;
            }
        }
        i = i + 1;
    }
    None
}

/// Number of definitions named `t`.
pub(crate) fn count_named(defs: &Vec<Definition>, t: &str) -> (res: usize)
    ensures
        res == count_where(defs@, named(t@)),
{
    let mut n: usize = 0;
    let mut i: usize = 0;
    assert(defs@.skip(0) =~= defs@);
    while i < defs.len()
        invariant
            i <= defs@.len(),
            n <= i,
            count_where(defs@, named(t@)) == n + count_where(defs@.skip(i as int), named(t@)),
        decreases defs@.len() - i,
    {
        proof {
            lemma_count_skip(defs@, named(t@), i as int);
        }
        if str_eq(defs[i].name.as_str(), t) {
            n = n + 1;
        }
        i = i + 1;
    }
    assert(defs@.skip(i as int) =~= Seq::<Definition>::empty());
    n
}

/// First definition named `t`.
fn find_named<'a>(defs: &'a Vec<Definition>, t: &str) -> (res: Option<&'a Definition>)
    ensures
        deref_opt(res) == first_where(defs@, named(t@)),
{
    let mut i: usize = 0;
    while i < defs.len()
        invariant
            i <= defs@.len(),
            forall|j: int| 0 <= j < i ==> !named(t@)(defs@[j]),
        decreases defs@.len() - i,
    {
        if str_eq(defs[i].name.as_str(), t) {
            proof {
                lemma_first_where_at(defs@, named(t@), i as int);
            }
            return Some(&defs[i]);
        }
        i = i + 1;
    }
    proof {
        lemma_first_where_at(defs@, named(t@), i as int);
    }
    None
}

/// Resolves one reference from file `f` to `t`.
pub(crate) fn resolve_one<'a>(idx: &'a Index, t: &str, f: &str, n_named: usize) -> (res: (
    Option<&'a Definition>,
    Confidence,
    ResolveReason,
))
    requires
        n_named == count_where(idx.definitions@, named(t@)),
    ensures
        (deref_opt(res.0), res.1, res.2) == resolution(idx.definitions@, idx.imports@, t@, f@),
{
    let same = find_same_file(&idx.definitions, t, f);
    if same.is_some() {
        return (same, Confidence::High, ResolveReason::SameFileScope);
    }
    let via = match find_named_import(&idx.imports, t, f) {
        Some(imp) => find_in_module(&idx.definitions, t, imp),
        None => None,
    };
    if via.is_some() {
        return (via, Confidence::High, ResolveReason::ImportResolved);
    }
    let glob = find_glob(&idx.definitions, &idx.imports, t, f);
    if glob.is_some() {
        return (glob, Confidence::Medium, ResolveReason::ImportResolved);
    }
    let conf = if n_named == 1 {
        Confidence::Medium
    } else {
        Confidence::Low
    };
    (find_named(&idx.definitions, t), conf, ResolveReason::NameOnly)
}

/// Resolves every reference named `target`, in index order. Definitions are
/// matched on the name only.
pub fn resolve_refs<'a>(idx: &'a Index, target: &str) -> (res: Vec<Resolved<'a>>)
    ensures
        res@.len() == refs_named(idx.references@, target@).len(),
        forall|k: int|
            #![trigger res@[k]]
            0 <= k < res@.len() ==> {
                let r = refs_named(idx.references@, target@)[k];
                &&& *res@[k].reference == r
                &&& (deref_opt(res@[k].definition), res@[k].confidence, res@[k].reason)
                    == resolution(idx.definitions@, idx.imports@, target@, r.file@)
            },
{
    let n_named = count_named(&idx.definitions, target);
    let mut out: Vec<Resolved<'a>> = Vec::new();
    let mut i: usize = 0;
    let ghost p = has_name(target@);
    proof {
        reveal(Seq::filter);
    }
    assert(idx.references@.take(0).filter(p) =~= Seq::<Reference>::empty());
    while i < idx.references.len()
        invariant
            i <= idx.references@.len(),
            n_named == count_where(idx.definitions@, named(target@)),
            p == has_name(target@),
            out@.len() == idx.references@.take(i as int).filter(p).len(),
            forall|k: int|
                #![trigger out@[k]]
                0 <= k < out@.len() ==> {
                    let r = idx.references@.take(i as int).filter(p)[k];
                    &&& *out@[k].reference == r
                    &&& (deref_opt(out@[k].definition), out@[k].confidence, out@[k].reason)
                        == resolution(idx.definitions@, idx.imports@, target@, r.file@)
                },
        decreases idx.references@.len() - i,
    {
        let r = &idx.references[i];
        let ghost before = idx.references@.take(i as int);
        assert(idx.references@.take(i + 1).drop_last() =~= before);
        assert(idx.references@.take(i + 1).last() == *r);
        proof {
            reveal(Seq::filter);
        }
        if str_eq(r.name.as_str(), target) {
            let (d, c, why) = resolve_one(idx, target, r.file.as_str(), n_named);
            out.push(Resolved { reference: r, definition: d, confidence: c, reason: why });
        }
        i = i + 1;
    }
    assert(idx.references@.take(i as int) =~= idx.references@);
    out
}

} // verus!
