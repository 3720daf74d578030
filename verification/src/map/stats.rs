//! Project statistics: files and lines per language, symbols per kind.
use vstd::prelude::*;

use crate::lang::{language_name, Language};
use crate::text::{chars_of, lines, next_line};

verus! {

/// The kinds of symbol the survey counts.
#[derive(Debug, Clone, Copy, PartialEq, Eq, Structural)]
pub enum SymbolKind {
    Fn,
    Struct,
    Enum,
    Trait,
    Class,
    Interface,
    Type,
    Const,
}

/// What reading one source file gave: its language, its number of lines
/// (0 when it could not be read), and the kinds of its symbols.
#[derive(Debug)]
pub struct FileFacts {
    pub language: Language,
    pub lines: usize,
    pub symbols: Vec<SymbolKind>,
}

#[derive(Debug, Clone, Copy)]
pub struct LangStats {
    pub files: usize,
    pub lines: usize,
}

/// The report: totals, then per language and per symbol kind, each in
/// name order and only where something was counted.
#[derive(Debug)]
pub struct Report {
    pub total_files: usize,
    pub total_lines: usize,
    pub languages: Vec<(&'static str, LangStats)>,
    pub symbols: Vec<(&'static str, usize)>,
}

/// The number of lines of `s`, as `str::lines` counts them.
pub fn count_lines(s: &str) -> (res: usize)
    ensures
        res == lines(s@).len(),
{
    let cs = chars_of(s);
    let mut pos: usize = 0;
    let mut n: usize = 0;
    assert(cs@.skip(0) =~= cs@);
    while pos < cs.len()
        invariant
            pos <= cs@.len(),
            cs@ == s@,
            n <= pos,
            lines(s@).len() == n + lines(cs@.skip(pos as int)).len(),
        decreases cs@.len() - pos,
    {
        let (next, _line) = next_line(cs.as_slice(), pos);
        pos = next;
        n = n + 1;
    }
    assert(cs@.skip(pos as int) =~= Seq::<char>::empty());
    n
}

/// The name a symbol kind is counted under.
pub open spec fn kind_name(k: SymbolKind) -> Seq<char> {
    match k {
        SymbolKind::Fn => "fn"@,
        SymbolKind::Struct => "struct"@,
        SymbolKind::Enum => "enum"@,
        SymbolKind::Trait => "trait"@,
        SymbolKind::Class => "class"@,
        SymbolKind::Interface => "interface"@,
        SymbolKind::Type => "type"@,
        SymbolKind::Const => "const"@,
    }
}

fn kind_label(k: SymbolKind) -> (res: &'static str)
    ensures
        res@ == kind_name(k),
{
    match k {
        SymbolKind::Fn => "fn",
        SymbolKind::Struct => "struct",
        SymbolKind::Enum => "enum",
        SymbolKind::Trait => "trait",
        SymbolKind::Class => "class",
        SymbolKind::Interface => "interface",
        SymbolKind::Type => "type",
        SymbolKind::Const => "const",
    }
}

/// The languages in name order.
pub open spec fn languages_by_name() -> Seq<Language> {
    seq![Language::JavaScript, Language::Python, Language::Rust, Language::Tsx, Language::TypeScript]
}

/// The symbol kinds in name order.
pub open spec fn kinds_by_name() -> Seq<SymbolKind> {
    seq![
        SymbolKind::Class,
        SymbolKind::Const,
        SymbolKind::Enum,
        SymbolKind::Fn,
        SymbolKind::Interface,
        SymbolKind::Struct,
        SymbolKind::Trait,
        SymbolKind::Type,
    ]
}

/// Files of language `l` among `fs`.
pub open spec fn files_of(fs: Seq<FileFacts>, l: Language) -> int
    decreases fs.len(),
{
    if fs.len() == 0 {
        0
    } else {
        files_of(fs.drop_last(), l) + if fs.last().language == l {
            1int
        } else {
            0
        }
    }
}

/// Lines of the files of language `l` among `fs`.
pub open spec fn lines_of(fs: Seq<FileFacts>, l: Language) -> int
    decreases fs.len(),
{
    if fs.len() == 0 {
        0
    } else {
        lines_of(fs.drop_last(), l) + if fs.last().language == l {
            fs.last().lines as int
        } else {
            0
        }
    }
}

/// All lines of `fs`.
pub open spec fn total_lines(fs: Seq<FileFacts>) -> int
    decreases fs.len(),
{
    if fs.len() == 0 {
        0
    } else {
        total_lines(fs.drop_last()) + fs.last().lines
    }
}

/// Symbol kind `k`.
pub open spec fn is_kind(k: SymbolKind) -> spec_fn(SymbolKind) -> bool {
    |x: SymbolKind| x == k
}

/// How often `k` occurs among `ks`.
pub open spec fn kind_count(ks: Seq<SymbolKind>, k: SymbolKind) -> int {
    ks.filter(is_kind(k)).len() as int
}

/// Symbols of kind `k` over all of `fs`.
pub open spec fn symbols_of(fs: Seq<FileFacts>, k: SymbolKind) -> int
    decreases fs.len(),
{
    if fs.len() == 0 {
        0
    } else {
        symbols_of(fs.drop_last(), k) + kind_count(fs.last().symbols@, k)
    }
}

/// The per-language rows: languages in name order with at least one file.
pub open spec fn language_rows(fs: Seq<FileFacts>, ls: Seq<Language>) -> Seq<(Seq<char>, int, int)>
    decreases ls.len(),
{
    if ls.len() == 0 {
        Seq::empty()
    } else {
        let prev = language_rows(fs, ls.drop_last());
        let l = ls.last();
        if files_of(fs, l) > 0 {
            prev.push((language_name(l), files_of(fs, l), lines_of(fs, l)))
        } else {
            prev
        }
    }
}

/// The per-kind rows: kinds in name order with at least one symbol.
pub open spec fn symbol_rows(fs: Seq<FileFacts>, ks: Seq<SymbolKind>) -> Seq<(Seq<char>, int)>
    decreases ks.len(),
{
    if ks.len() == 0 {
        Seq::empty()
    } else {
        let prev = symbol_rows(fs, ks.drop_last());
        let k = ks.last();
        if symbols_of(fs, k) > 0 {
            prev.push((kind_name(k), symbols_of(fs, k)))
        } else {
            prev
        }
    }
}

/// The sums fit in a `usize`.
pub open spec fn sums_fit(fs: Seq<FileFacts>) -> bool {
    &&& total_lines(fs) <= usize::MAX
    &&& forall|i: int| 0 <= i < fs.len() ==> #[trigger] fs[i].symbols@.len() <= usize::MAX
    &&& forall|k: SymbolKind| #[trigger] symbols_of(fs, k) <= usize::MAX
}

proof fn lemma_sums_monotone(fs: Seq<FileFacts>, i: int, l: Language, k: SymbolKind)
    requires
        0 <= i <= fs.len(),
    ensures
        0 <= files_of(fs.take(i), l) <= files_of(fs, l) <= fs.len(),
        0 <= lines_of(fs.take(i), l) <= lines_of(fs, l) <= total_lines(fs),
        0 <= total_lines(fs.take(i)) <= total_lines(fs),
        0 <= symbols_of(fs.take(i), k) <= symbols_of(fs, k),
    decreases fs.len(),
{
    if fs.len() > 0 {
        if i == fs.len() {
            assert(fs.take(i) =~= fs);
            lemma_sums_monotone(fs.drop_last(), i - 1, l, k);
        } else {
            assert(fs.drop_last().take(i) =~= fs.take(i));
            lemma_sums_monotone(fs.drop_last(), i, l, k);
        }
    } else {
        assert(fs.take(i) =~= fs);
    }
}

/// Adds up the facts of the files: their count and lines, per language and
/// in all, and the symbols per kind.
pub fn summarize(files: &Vec<FileFacts>) -> (res: Report)
    requires
        sums_fit(files@),
    ensures
        res.total_files == files@.len(),
        res.total_lines == total_lines(files@),
        res.languages@.map_values(|r: (&'static str, LangStats)| (r.0@, r.1.files as int, r.1.lines as int))
            == language_rows(files@, languages_by_name()),
        res.symbols@.map_values(|r: (&'static str, usize)| (r.0@, r.1 as int)) == symbol_rows(
            files@,
            kinds_by_name(),
        ),
{
    let langs: [Language; 5] = [
        Language::JavaScript,
        Language::Python,
        Language::Rust,
        Language::Tsx,
        Language::TypeScript,
    ];
    let kinds: [SymbolKind; 8] = [
        SymbolKind::Class,
        SymbolKind::Const,
        SymbolKind::Enum,
        SymbolKind::Fn,
        SymbolKind::Interface,
        SymbolKind::Struct,
        SymbolKind::Trait,
        SymbolKind::Type,
    ];
    assert(langs@ =~= languages_by_name());
    assert(kinds@ =~= kinds_by_name());
    let mut total: usize = 0;
    let mut i: usize = 0;
    while i < files.len()
        invariant
            i <= files@.len(),
            sums_fit(files@),
            total == total_lines(files@.take(i as int)),
        decreases files@.len() - i,
    {
        assert(files@.take(i + 1).drop_last() =~= files@.take(i as int));
        proof {
            lemma_sums_monotone(files@, i + 1, Language::Rust, SymbolKind::Fn);
        }
        total = total + files[i].lines;
        i = i + 1;
    }
    assert(files@.take(i as int) =~= files@);
    let mut languages: Vec<(&'static str, LangStats)> = Vec::new();
    let mut li: usize = 0;
    assert(languages_by_name().take(0) =~= Seq::<Language>::empty());
    while li < 5
        invariant
            li <= 5,
            langs@ == languages_by_name(),
            sums_fit(files@),
            languages@.map_values(|r: (&'static str, LangStats)| (r.0@, r.1.files as int, r.1.lines as int))
                == language_rows(files@, languages_by_name().take(li as int)),
        decreases 5 - li,
    {
        let l = langs[li];
        let mut nf: usize = 0;
        let mut nl: usize = 0;
        let mut j: usize = 0;
        while j < files.len()
            invariant
                j <= files@.len(),
                sums_fit(files@),
                nf == files_of(files@.take(j as int), l),
                nl == lines_of(files@.take(j as int), l),
            decreases files@.len() - j,
        {
            assert(files@.take(j + 1).drop_last() =~= files@.take(j as int));
            proof {
                lemma_sums_monotone(files@, j + 1, l, SymbolKind::Fn);
            }
            if files[j].language == l {
                nf = nf + 1;
                nl = nl + files[j].lines;
            }
            j = j + 1;
        }
        assert(files@.take(j as int) =~= files@);
        assert(languages_by_name().take(li + 1).drop_last() =~= languages_by_name().take(li as int));
        assert(languages_by_name().take(li + 1).last() == l);
        if nf > 0 {
            let ghost before = languages@;
            languages.push((l.name(), LangStats { files: nf, lines: nl }));
            assert(languages@.map_values(
                |r: (&'static str, LangStats)| (r.0@, r.1.files as int, r.1.lines as int),
            ) =~= before.map_values(
                |r: (&'static str, LangStats)| (r.0@, r.1.files as int, r.1.lines as int),
            ).push((language_name(l), nf as int, nl as int)));
        }
        li = li + 1;
    }
    assert(languages_by_name().take(5) =~= languages_by_name());
    let mut symbols: Vec<(&'static str, usize)> = Vec::new();
    let mut ki: usize = 0;
    assert(kinds_by_name().take(0) =~= Seq::<SymbolKind>::empty());
    while ki < 8
        invariant
            ki <= 8,
            kinds@ == kinds_by_name(),
            sums_fit(files@),
            symbols@.map_values(|r: (&'static str, usize)| (r.0@, r.1 as int)) == symbol_rows(
                files@,
                kinds_by_name().take(ki as int),
            ),
        decreases 8 - ki,
    {
        let k = kinds[ki];
        let mut n: usize = 0;
        let mut j: usize = 0;
        while j < files.len()
            invariant
                j <= files@.len(),
                sums_fit(files@),
                n == symbols_of(files@.take(j as int), k),
            decreases files@.len() - j,
        {
            assert(files@.take(j + 1).drop_last() =~= files@.take(j as int));
            proof {
                lemma_sums_monotone(files@, j + 1, Language::Rust, k);
            }
            let syms = &files[j].symbols;
            let mut c: usize = 0;
            let mut m: usize = 0;
            let ghost p = is_kind(k);
            proof {
                reveal(Seq::filter);
            }
            assert(syms@.take(0).filter(p) =~= Seq::<SymbolKind>::empty());
            while m < syms.len()
                invariant
                    m <= syms@.len(),
                    p == is_kind(k),
                    c == syms@.take(m as int).filter(p).len(),
                    c <= m,
                decreases syms@.len() - m,
            {
                proof {
                    reveal(Seq::filter);
                }
                assert(syms@.take(m + 1).drop_last() =~= syms@.take(m as int));
                if syms[m] == k {
                    c = c + 1;
                }
                m = m + 1;
            }
            assert(syms@.take(m as int) =~= syms@);
            assert(kind_count(syms@, k) == c);
            n = n + c;
            j = j + 1;
        }
        assert(files@.take(j as int) =~= files@);
        assert(kinds_by_name().take(ki + 1).drop_last() =~= kinds_by_name().take(ki as int));
        assert(kinds_by_name().take(ki + 1).last() == k);
        if n > 0 {
            let ghost before = symbols@;
            symbols.push((kind_label(k), n));
            assert(symbols@.map_values(|r: (&'static str, usize)| (r.0@, r.1 as int)) =~= before.map_values(
                |r: (&'static str, usize)| (r.0@, r.1 as int),
            ).push((kind_name(k), n as int)));
        }
        ki = ki + 1;
    }
    assert(kinds_by_name().take(8) =~= kinds_by_name());
    Report { total_files: files.len(), total_lines: total, languages, symbols }
}

// ---------------------------------------------------------------------------
// Laws of the report
// ---------------------------------------------------------------------------
/// The index's keyword for the definitions of the kind of the same name.
pub open spec fn same_def_kind(k: SymbolKind) -> crate::index::DefKind {
    match k {
        SymbolKind::Fn => crate::index::DefKind::Fn,
        SymbolKind::Struct => crate::index::DefKind::Struct,
        SymbolKind::Enum => crate::index::DefKind::Enum,
        SymbolKind::Trait => crate::index::DefKind::Trait,
        SymbolKind::Class => crate::index::DefKind::Class,
        SymbolKind::Interface => crate::index::DefKind::Interface,
        SymbolKind::Type => crate::index::DefKind::Type,
        SymbolKind::Const => crate::index::DefKind::Const,
    }
}

/// A symbol kind is counted under the same lowercase keyword that the
/// index writes for definitions of that kind.
pub proof fn lemma_kind_names_are_keywords(k: SymbolKind)
    ensures
        kind_name(k) == crate::index::def_kind_text(same_def_kind(k)),
{
}

/// The kinds, in the order the report lists them, have strictly increasing
/// names.
proof fn lemma_kind_names_increase(i: int, j: int)
    requires
        0 <= i < j < 8,
    ensures
        crate::text::seq_lt(kind_name(kinds_by_name()[i]), kind_name(kinds_by_name()[j])),
    decreases j - i,
{
    reveal_strlit("class");
    reveal_strlit("const");
    reveal_strlit("enum");
    reveal_strlit("fn");
    reveal_strlit("interface");
    reveal_strlit("struct");
    reveal_strlit("trait");
    reveal_strlit("type");
    let a = kind_name(kinds_by_name()[j - 1]);
    let b = kind_name(kinds_by_name()[j]);
    if j == 1 {
        assert(a[0] == b[0] && a[1] < b[1]);
        assert(crate::text::seq_lt(a.skip(1), b.skip(1)));
    } else if j == 7 {
        assert(a[0] == b[0] && a[1] < b[1]);
        assert(crate::text::seq_lt(a.skip(1), b.skip(1)));
    } else {
        assert(a[0] < b[0]);
    }
    if i < j - 1 {
        lemma_kind_names_increase(i, j - 1);
        crate::text::lemma_seq_lt_trans(kind_name(kinds_by_name()[i]), a, b);
    }
}

/// Over kinds with strictly increasing names, every row of
/// `symbol_rows(fs, ks)` is labelled with the name of one of them and counts
/// that kind's symbols, and the labels strictly increase.
proof fn lemma_symbol_rows_from(fs: Seq<FileFacts>, ks: Seq<SymbolKind>)
    requires
        forall|i: int, j: int|
            0 <= i < j < ks.len() ==> crate::text::seq_lt(kind_name(#[trigger] ks[i]), kind_name(#[trigger] ks[j])),
    ensures
        forall|r: int|
            #![trigger symbol_rows(fs, ks)[r]]
            0 <= r < symbol_rows(fs, ks).len() ==> exists|m: int|
                0 <= m < ks.len() && symbol_rows(fs, ks)[r] == (kind_name(#[trigger] ks[m]), symbols_of(fs, ks[m]))
                    && symbols_of(fs, ks[m]) > 0,
        forall|i: int, j: int|
            0 <= i < j < symbol_rows(fs, ks).len() ==> crate::text::seq_lt(
                (#[trigger] symbol_rows(fs, ks)[i]).0,
                (#[trigger] symbol_rows(fs, ks)[j]).0,
            ),
    decreases ks.len(),
{
    if ks.len() > 0 {
        let d = ks.drop_last();
        assert forall|i: int, j: int| 0 <= i < j < d.len() implies crate::text::seq_lt(
            kind_name(#[trigger] d[i]),
            kind_name(#[trigger] d[j]),
        ) by {
            assert(d[i] == ks[i] && d[j] == ks[j]);
        }
        lemma_symbol_rows_from(fs, d);
        let prev = symbol_rows(fs, d);
        let rows = symbol_rows(fs, ks);
        let last = ks.len() - 1;
        assert forall|r: int| #![trigger rows[r]] 0 <= r < rows.len() implies exists|m: int|
            0 <= m < ks.len() && rows[r] == (kind_name(#[trigger] ks[m]), symbols_of(fs, ks[m]))
                && symbols_of(fs, ks[m]) > 0 by {
            if r < prev.len() {
                assert(rows[r] == prev[r]);
                let m = choose|m: int|
                    0 <= m < d.len() && prev[r] == (kind_name(#[trigger] d[m]), symbols_of(fs, d[m]))
                        && symbols_of(fs, d[m]) > 0;
                assert(d[m] == ks[m]);
            } else {
                assert(rows[r] == (kind_name(ks[last]), symbols_of(fs, ks[last])));
            }
        }
        assert forall|i: int, j: int| 0 <= i < j < rows.len() implies crate::text::seq_lt(
            (#[trigger] rows[i]).0,
            (#[trigger] rows[j]).0,
        ) by {
            assert(rows[i] == prev[i]);
            if j < prev.len() {
                assert(rows[j] == prev[j]);
            } else {
                let m = choose|m: int|
                    0 <= m < d.len() && prev[i] == (kind_name(#[trigger] d[m]), symbols_of(fs, d[m]))
                        && symbols_of(fs, d[m]) > 0;
                assert(d[m] == ks[m]);
                assert(rows[j] == (kind_name(ks[last]), symbols_of(fs, ks[last])));
                assert(crate::text::seq_lt(kind_name(ks[m]), kind_name(ks[last])));
            }
        }
    }
}

/// The report's symbol rows: each labelled with its kind's keyword and
/// counting that kind's symbols over all files, with a row only for a kind
/// that has symbols, and the labels strictly increasing.
pub proof fn lemma_symbol_rows_sorted(fs: Seq<FileFacts>)
    ensures
        ({
            let rows = symbol_rows(fs, kinds_by_name());
            &&& forall|i: int, j: int|
                0 <= i < j < rows.len() ==> crate::text::seq_lt(#[trigger] rows[i].0, #[trigger] rows[j].0)
            &&& forall|r: int|
                0 <= r < rows.len() ==> exists|k: SymbolKind|
                    #[trigger] rows[r] == (kind_name(k), symbols_of(fs, k)) && symbols_of(fs, k) > 0
        }),
{
    let ks = kinds_by_name();
    let rows = symbol_rows(fs, ks);
    assert forall|i: int, j: int| 0 <= i < j < ks.len() implies crate::text::seq_lt(
        kind_name(#[trigger] ks[i]),
        kind_name(#[trigger] ks[j]),
    ) by {
        lemma_kind_names_increase(i, j);
    }
    lemma_symbol_rows_from(fs, ks);
    assert forall|i: int, j: int| 0 <= i < j < rows.len() implies crate::text::seq_lt(
        #[trigger] rows[i].0,
        #[trigger] rows[j].0,
    ) by {
        assert(crate::text::seq_lt(rows[i].0, rows[j].0));
    }
    assert forall|r: int| 0 <= r < rows.len() implies exists|k: SymbolKind|
        #[trigger] rows[r] == (kind_name(k), symbols_of(fs, k)) && symbols_of(fs, k) > 0 by {
        let m = choose|m: int|
            0 <= m < ks.len() && rows[r] == (kind_name(#[trigger] ks[m]), symbols_of(fs, ks[m]))
                && symbols_of(fs, ks[m]) > 0;
        assert(rows[r] == (kind_name(ks[m]), symbols_of(fs, ks[m])));
    }
}
} // verus!
