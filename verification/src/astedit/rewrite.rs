//! Structural matching with ast-grep: compiles a pattern and a rewrite
//! template for a language and turns every match into a site carrying its
//! byte range, 1-based position and the replacement text.
use vstd::prelude::*;

use ast_grep_core::matcher::Pattern;
use ast_grep_core::replacer::{Replacer, TemplateFix};
use ast_grep_core::tree_sitter::{LanguageExt, StrDoc, Visitor};
use ast_grep_language::SupportLang;

use crate::astedit::error::AstEditError;
use crate::lang::{language_name, Language};
use crate::text::concat;
use vstd::string::StringSliceAdditionalSpecFns;

verus! {

#[verifier::external_type_specification]
#[verifier::external_body]
pub struct ExPattern(Pattern);

#[verifier::external_type_specification]
#[verifier::external_body]
pub struct ExTemplateFix(TemplateFix);

#[verifier::external_type_specification]
#[verifier::external_body]
pub struct ExSupportLang(SupportLang);

/// A match site, with the replacement materialised.
#[derive(Debug)]
pub struct RewriteSite {
    pub start_byte: usize,
    pub end_byte: usize,
    /// 1-based line.
    pub line: usize,
    /// 1-based byte column.
    pub col: usize,
    pub old: String,
    pub new: String,
}

/// A match as ast-grep reports it: byte range, 0-based row and byte column,
/// matched text, and the bytes the template produced for it.
#[derive(Debug)]
pub struct RawMatch {
    pub start_byte: usize,
    pub end_byte: usize,
    pub row: usize,
    pub byte_col: usize,
    pub old: String,
    pub new_bytes: Vec<u8>,
}

/// A match as plain values.
pub struct RawMatchView {
    pub start_byte: usize,
    pub end_byte: usize,
    pub row: usize,
    pub byte_col: usize,
    pub old: Seq<char>,
    pub new_bytes: Seq<u8>,
}

impl View for RawMatch {
    type V = RawMatchView;

    open spec fn view(&self) -> RawMatchView {
        RawMatchView {
            start_byte: self.start_byte,
            end_byte: self.end_byte,
            row: self.row,
            byte_col: self.byte_col,
            old: self.old@,
            new_bytes: self.new_bytes@,
        }
    }
}

/// The ast-grep language of each of ours (one variant to one variant).
#[verifier::external_body]
fn support_lang(lang: Language) -> SupportLang {
    match lang {
        Language::Rust => SupportLang::Rust,
        Language::TypeScript => SupportLang::TypeScript,
        Language::Tsx => SupportLang::Tsx,
        Language::JavaScript => SupportLang::JavaScript,
        Language::Python => SupportLang::Python,
    }
}

/// What `Pattern::try_new` reports when `pattern` does not compile for the
/// ast-grep language of `lang`: the error's text, or `None` when it compiles.
/// It is a function of the pattern and the language alone.
pub uninterp spec fn pattern_compile_error(pattern: Seq<char>, lang: Language) -> Option<Seq<char>>;

/// What `Pattern::has_error` says of the pattern that `pattern` compiles to
/// for `lang`: whether the tree it parsed to holds a syntax error node.
pub uninterp spec fn pattern_has_syntax_error(pattern: Seq<char>, lang: Language) -> bool;

/// The matches ast-grep reports for `pattern` in `source` (pre-order), each
/// with the bytes the template `rewrite` produces for it, for `lang`.
pub uninterp spec fn grep_matches(source: Seq<char>, pattern: Seq<char>, rewrite: Seq<char>, lang: Language) -> Seq<
    RawMatchView,
>;

/// `Pattern::try_new` for the ast-grep language of `lang`, then
/// `Pattern::has_error` on what it compiled. On failure, the error's text.
/// The compiled pattern itself is opaque.
#[verifier::external_body]
fn compile_pattern(pattern: &str, lang: Language) -> (res: Result<(Pattern, bool), String>)
    ensures
        match res {
            Ok((_, has_error)) => pattern_compile_error(pattern@, lang) is None && has_error
                == pattern_has_syntax_error(pattern@, lang),
            Err(m) => pattern_compile_error(pattern@, lang) == Some(m@),
        },
{
    let sl = match lang {
        Language::Rust => SupportLang::Rust,
        Language::TypeScript => SupportLang::TypeScript,
        Language::Tsx => SupportLang::Tsx,
        Language::JavaScript => SupportLang::JavaScript,
        Language::Python => SupportLang::Python,
    };
    Pattern::try_new(pattern, sl).map(|p| { let e = p.has_error(); (p, e) }).map_err(|e| e.to_string())
}

/// `TemplateFix::try_new`: compiles the rewrite template for `lang`. In
/// this version of ast-grep its error type has no values: it splits the
/// template at its metavariables and always returns `Ok`. The compiled
/// template is opaque.
#[verifier::external_body]
fn compile_template(rewrite: &str, lang: &SupportLang) -> (res: Result<TemplateFix, String>)
    ensures
        res is Ok,
{
    TemplateFix::try_new(rewrite, lang).map_err(|e| e.to_string())
}

/// Compiles `pattern` (`Pattern::new`, which panics where `try_new` fails)
/// and `rewrite` (`TemplateFix::with_transform` with no transforms, the same
/// template `try_new` builds), parses `source`, and reports every node the
/// pattern matches (pre-order) with the replacement the template generates
/// for it. The result is named `grep_matches`; a match's text is the
/// source's bytes in its range (`Node::text` reads the node's range).
#[verifier::external_body]
fn find_matches(source: &str, pattern: &str, rewrite: &str, lang: Language) -> (res: Vec<RawMatch>)
    requires
        pattern_compile_error(pattern@, lang) is None,
    ensures
        res@.map_values(|m: RawMatch| m@) == grep_matches(source@, pattern@, rewrite@, lang),
        forall|i: int| 0 <= i < res@.len() ==> #[trigger] in_source(source.spec_bytes(), res@[i]@),
{
    let sl = support_lang(lang);
    let (p, fix) = (Pattern::new(pattern, sl), TemplateFix::with_transform(rewrite, &sl, &[]));
    let root = sl.ast_grep(source);
    Visitor::new(&p).visit(root.root()).map(|m| RawMatch {
        start_byte: m.range().start, end_byte: m.range().end,
        row: m.start_pos().byte_point().0, byte_col: m.start_pos().byte_point().1,
        old: m.text().into_owned(),
        new_bytes: <TemplateFix as Replacer<StrDoc<SupportLang>>>::generate_replacement(&fix, &m),
    }).collect()
}

/// `String::from_utf8`: the string when `bytes` are valid UTF-8, else the
/// error's text.
#[verifier::external_body]
fn utf8_string(bytes: Vec<u8>) -> (res: Result<String, String>)
    ensures
        res is Ok <==> vstd::utf8::valid_utf8(bytes@),
        res matches Ok(s) ==> vstd::utf8::encode_utf8(s@) == bytes@,
{
    String::from_utf8(bytes).map_err(|e| e.to_string())
}

/// The match's range lies in `src`, whose bytes there are the match's text.
pub open spec fn in_source(src: Seq<u8>, m: RawMatchView) -> bool {
    &&& m.start_byte <= m.end_byte <= src.len()
    &&& vstd::utf8::encode_utf8(m.old) == src.subrange(m.start_byte as int, m.end_byte as int)
}

/// The site's range lies in `src`, whose bytes there are the site's old text.
pub open spec fn site_in_source(src: Seq<u8>, s: RewriteSite) -> bool {
    &&& s.start_byte <= s.end_byte <= src.len()
    &&& vstd::utf8::encode_utf8(s.old@) == src.subrange(s.start_byte as int, s.end_byte as int)
}

/// `n + 1`, saturating.
pub open spec fn succ_sat(n: usize) -> usize {
    if n == usize::MAX {
        n
    } else {
        (n + 1) as usize
    }
}

/// The site reported for a match whose replacement decoded to `new`.
pub open spec fn site_matches(s: RewriteSite, m: RawMatchView) -> bool {
    &&& s.start_byte == m.start_byte
    &&& s.end_byte == m.end_byte
    &&& s.line == succ_sat(m.row)
    &&& s.col == succ_sat(m.byte_col)
    &&& s.old@ == m.old
    &&& vstd::utf8::encode_utf8(s.new@) == m.new_bytes
}

/// Turns matches into sites: 1-based positions, replacement bytes decoded.
/// Fails with a parse error naming the language when a replacement is not
/// valid UTF-8.
pub fn sites_from_matches(raw: Vec<RawMatch>, lang_name: &str) -> (res: Result<
    Vec<RewriteSite>,
    AstEditError,
>)
    ensures
        res is Ok <==> forall|i: int|
            0 <= i < raw@.len() ==> vstd::utf8::valid_utf8(#[trigger] raw@[i].new_bytes@),
        res matches Ok(sites) ==> sites@.len() == raw@.len() && forall|i: int|
            0 <= i < raw@.len() ==> site_matches(#[trigger] sites@[i], raw@[i]@),
        res matches Err(e) ==> e matches AstEditError::ParseError { file, message } && file@
            == lang_name@ && crate::text::starts_with(
            message@,
            "rewrite produced non-utf8 bytes: "@,
        ),
{
    let ghost orig = raw@;
    let mut rest = raw;
    let mut out: Vec<RewriteSite> = Vec::new();
    let n = rest.len();
    let mut i: usize = 0;
    while i < n
        invariant
            i <= n,
            n == orig.len(),
            orig == raw@,
            rest@ == orig.skip(i as int),
            out@.len() == i,
            forall|j: int| 0 <= j < i ==> vstd::utf8::valid_utf8(#[trigger] orig[j].new_bytes@),
            forall|j: int| 0 <= j < i ==> site_matches(#[trigger] out@[j], orig[j]@),
        decreases n - i,
    {
        let m = rest.remove(0);
        assert(m == orig[i as int]);
        assert(rest@ =~= orig.skip(i + 1));
        let ghost nb = m.new_bytes@;
        match utf8_string(m.new_bytes) {
            Ok(new) => {
                let start = m.start_byte;
                let end = m.end_byte;
                let line = m.row.saturating_add(1);
                let col = m.byte_col.saturating_add(1);
                out.push(RewriteSite { start_byte: start, end_byte: end, line, col, old: m.old, new });
            },
            Err(e) => {
                let prefix = "rewrite produced non-utf8 bytes: ";
                let message = concat(prefix, e.as_str());
                proof {
                    reveal_strlit("rewrite produced non-utf8 bytes: ");
                    assert(message@.subrange(0, prefix@.len() as int) =~= prefix@);
                    assert(!vstd::utf8::valid_utf8(orig[i as int].new_bytes@));
                    assert(!(forall|j: int|
                        0 <= j < orig.len() ==> vstd::utf8::valid_utf8(
                            #[trigger] orig[j].new_bytes@,
                        )));
                }
                return Err(AstEditError::ParseError { file: lang_name.to_owned(), message });
            },
        }
        i = i + 1;
    }
    Ok(out)
}

/// The message of a pattern that compiled to a tree holding a syntax error.
pub open spec fn syntax_error_message(pattern: Seq<char>) -> Seq<char> {
    "pattern `"@ + pattern + "` contains syntax errors"@
}

/// A rewrite of `pattern` for `lang` in `source` succeeds: the pattern
/// compiles, holds no syntax error, and every replacement is UTF-8.
pub open spec fn rewrite_succeeds(source: Seq<char>, pattern: Seq<char>, rewrite: Seq<char>, lang: Language) -> bool {
    &&& pattern_compile_error(pattern, lang) is None
    &&& !pattern_has_syntax_error(pattern, lang)
    &&& forall|i: int|
        0 <= i < grep_matches(source, pattern, rewrite, lang).len() ==> vstd::utf8::valid_utf8(
            #[trigger] grep_matches(source, pattern, rewrite, lang)[i].new_bytes,
        )
}

/// The error a failed rewrite of `pattern` for `lang` (named `name`) ends
/// in: the compile error itself when the pattern does not compile; else the
/// syntax error message when it holds one; else a replacement that is not
/// UTF-8.
pub open spec fn rewrite_error_for(e: AstEditError, pattern: Seq<char>, lang: Language, name: Seq<char>) -> bool {
    match pattern_compile_error(pattern, lang) {
        Some(m) => (e matches AstEditError::PatternCompile { lang: l, message } && l@ == name
            && message@ == m),
        None => if pattern_has_syntax_error(pattern, lang) {
            (e matches AstEditError::PatternCompile { lang: l, message } && l@ == name && message@
                == syntax_error_message(pattern))
        } else {
            (e matches AstEditError::ParseError { file, message } && file@ == name
                && crate::text::starts_with(message@, "rewrite produced non-utf8 bytes: "@))
        },
    }
}

/// The sites are those of the matches, one each, in order.
pub open spec fn sites_of_matches(sites: Seq<RewriteSite>, ms: Seq<RawMatchView>) -> bool {
    &&& sites.len() == ms.len()
    &&& forall|i: int| 0 <= i < ms.len() ==> site_matches(#[trigger] sites[i], ms[i])
}

/// Compiles (pattern, rewrite) for `lang` and returns every match site. A
/// pattern that does not compile, or compiles to a tree holding a syntax
/// error, is a `PatternCompile` error naming the language.
pub fn rewrite_file(source: &str, pattern: &str, rewrite: &str, lang: Language) -> (res: Result<
    Vec<RewriteSite>,
    AstEditError,
>)
    ensures
        res is Ok <==> rewrite_succeeds(source@, pattern@, rewrite@, lang),
        res matches Err(e) ==> rewrite_error_for(e, pattern@, lang, language_name(lang)),
        res matches Ok(sites) ==> sites_of_matches(
            sites@,
            grep_matches(source@, pattern@, rewrite@, lang),
        ),
        res matches Ok(sites) ==> forall|i: int|
            0 <= i < sites@.len() ==> #[trigger] site_in_source(source.spec_bytes(), sites@[i]),
{
    collect_sites(source, pattern, rewrite, lang, lang.name())
}

/// The work behind `rewrite_file`: compile the pattern, reject one holding
/// a syntax error, compile the template, then match and materialise.
fn collect_sites(source: &str, pattern: &str, rewrite: &str, lang: Language, lang_name: &str) -> (res:
    Result<Vec<RewriteSite>, AstEditError>)
    ensures
        res is Ok <==> rewrite_succeeds(source@, pattern@, rewrite@, lang),
        res matches Err(e) ==> rewrite_error_for(e, pattern@, lang, lang_name@),
        res matches Ok(sites) ==> sites_of_matches(
            sites@,
            grep_matches(source@, pattern@, rewrite@, lang),
        ),
        res matches Ok(sites) ==> forall|i: int|
            0 <= i < sites@.len() ==> #[trigger] site_in_source(source.spec_bytes(), sites@[i]),
{
    let has_error = match compile_pattern(pattern, lang) {
        Ok((_, has_error)) => has_error,
        Err(message) => {
            return Err(AstEditError::PatternCompile { lang: lang_name.to_owned(), message });
        },
    };
    if has_error {
        let a = concat("pattern `", pattern);
        let message = concat(a.as_str(), "` contains syntax errors");
        return Err(AstEditError::PatternCompile { lang: lang_name.to_owned(), message });
    }
    let sl = support_lang(lang);
    if let Err(e) = compile_template(rewrite, &sl) {
        let message = concat("invalid rewrite template: ", e.as_str());
        return Err(AstEditError::PatternCompile { lang: lang_name.to_owned(), message });
    }
    let raw = find_matches(source, pattern, rewrite, lang);
    let ghost rv = raw@;
    let ghost g = grep_matches(source@, pattern@, rewrite@, lang);
    assert(rv.map_values(|m: RawMatch| m@) == g);
    assert forall|i: int| 0 <= i < rv.len() implies #[trigger] rv[i]@ == g[i] by {
        assert(rv.map_values(|m: RawMatch| m@)[i] == rv[i]@);
    }
    let res = sites_from_matches(raw, lang_name);
    proof {
        assert((forall|i: int| 0 <= i < rv.len() ==> vstd::utf8::valid_utf8(#[trigger] rv[i].new_bytes@))
            <==> (forall|i: int| 0 <= i < g.len() ==> vstd::utf8::valid_utf8(#[trigger] g[i].new_bytes))) by {
            if forall|i: int| 0 <= i < rv.len() ==> vstd::utf8::valid_utf8(#[trigger] rv[i].new_bytes@) {
                assert forall|i: int| 0 <= i < g.len() implies vstd::utf8::valid_utf8(#[trigger] g[i].new_bytes) by {
                    assert(rv[i]@ == g[i]);
                }
            }
            if forall|i: int| 0 <= i < g.len() ==> vstd::utf8::valid_utf8(#[trigger] g[i].new_bytes) {
                assert forall|i: int| 0 <= i < rv.len() implies vstd::utf8::valid_utf8(#[trigger] rv[i].new_bytes@) by {
                    assert(rv[i]@ == g[i]);
                    assert(vstd::utf8::valid_utf8(g[i].new_bytes));
                }
            }
        }
        if res is Ok {
            let sites = res->Ok_0;
            assert forall|i: int| 0 <= i < g.len() implies site_matches(#[trigger] sites@[i], g[i]) by {
                assert(site_matches(sites@[i], rv[i]@));
            }
            assert forall|i: int| 0 <= i < sites@.len() implies #[trigger] site_in_source(
                source.spec_bytes(),
                sites@[i],
            ) by {
                assert(site_matches(sites@[i], rv[i]@));
                assert(in_source(source.spec_bytes(), rv[i]@));
            }
        }
    }
    res
}

} // verus!
