//! Choosing the source files among what the directory walk found, in path
//! order.
use vstd::prelude::*;

use crate::lang::{language_for_extension, Language};
use crate::order::{stable_sort, stable_sorted, Ranked};
use crate::text::{
    chars_of, copy_range, last_index_before, last_index_of, lemma_last_index_of,
    lemma_seq_lt_asym, lemma_seq_lt_irrefl, lemma_seq_lt_total, lemma_seq_lt_trans, file_name,
    seq_lt, slice_eq, chars_less, string_from_chars,
};

verus! {

/// The names of the directories the walk never enters.
pub open spec fn ignored_dir(name: Seq<char>) -> bool {
    name == "target"@ || name == "node_modules"@ || name == ".git"@ || name == "dist"@ || name
        == "build"@
}

/// Whether the walk skips an entry of this name.
pub fn is_ignored_dir(name: &str) -> (res: bool)
    ensures
        res == ignored_dir(name@),
{
    crate::text::str_eq(name, "target") || crate::text::str_eq(name, "node_modules")
        || crate::text::str_eq(name, ".git") || crate::text::str_eq(name, "dist")
        || crate::text::str_eq(name, "build")
}

/// Something the directory walk yielded: its path, and whether it is a file.
#[derive(Debug)]
pub struct WalkEntry {
    pub path: String,
    pub is_file: bool,
}

/// A source file and its language.
#[derive(Debug)]
pub struct SourceFile {
    pub path: String,
    pub language: Language,
}

/// `Path::extension`: what follows the last `.` of the file name, when that
/// dot is not the name's first character.
pub open spec fn file_extension(p: Seq<char>) -> Option<Seq<char>> {
    match file_name(p) {
        Some(n) => {
            let k = last_index_of(n, '.');
            if k <= 0 {
                None
            } else {
                Some(n.subrange(k + 1, n.len() as int))
            }
        },
        None => None,
    }
}

/// The language of a walked entry: a file whose extension names one.
pub open spec fn source_language(e: WalkEntry) -> Option<Language> {
    if e.is_file {
        match file_extension(e.path@) {
            Some(x) => language_for_extension(x),
            None => None,
        }
    } else {
        None
    }
}

/// The source files among `entries`, in walk order.
pub open spec fn sources_of(entries: Seq<WalkEntry>) -> Seq<(Seq<char>, Language)>
    decreases entries.len(),
{
    if entries.len() == 0 {
        Seq::empty()
    } else {
        let prev = sources_of(entries.drop_last());
        match source_language(entries.last()) {
            Some(l) => prev.push((entries.last().path@, l)),
            None => prev,
        }
    }
}

// ---------------------------------------------------------------------------
// Path order
// ---------------------------------------------------------------------------
/// The `/`-separated pieces of `p` that are neither empty nor `.`.
pub open spec fn path_components(p: Seq<char>) -> Seq<Seq<char>>
    decreases p.len(),
{
    let k = last_index_of(p, '/');
    proof {
        lemma_last_index_of(p, '/');
    }
    let piece = p.subrange(k + 1, p.len() as int);
    let rest = if k < 0 {
        Seq::empty()
    } else {
        path_components(p.subrange(0, k))
    };
    if piece.len() > 0 && piece != "."@ {
        rest.push(piece)
    } else {
        rest
    }
}

/// Paths compare component by component, each component by its characters.
pub open spec fn comps_lt(a: Seq<Seq<char>>, b: Seq<Seq<char>>) -> bool
    decreases a.len(),
{
    if a.len() == 0 {
        b.len() > 0
    } else if b.len() == 0 {
        false
    } else if a[0] != b[0] {
        seq_lt(a[0], b[0])
    } else {
        comps_lt(a.skip(1), b.skip(1))
    }
}

pub proof fn lemma_comps_lt_irrefl(a: Seq<Seq<char>>)
    ensures
        !comps_lt(a, a),
    decreases a.len(),
{
    if a.len() > 0 {
        lemma_comps_lt_irrefl(a.skip(1));
    }
}

pub proof fn lemma_comps_lt_total(a: Seq<Seq<char>>, b: Seq<Seq<char>>)
    ensures
        comps_lt(a, b) || comps_lt(b, a) || a == b,
    decreases a.len(),
{
    if a.len() > 0 && b.len() > 0 && a[0] == b[0] {
        lemma_comps_lt_total(a.skip(1), b.skip(1));
        if a.skip(1) == b.skip(1) {
            assert(a =~= seq![a[0]] + a.skip(1));
            assert(b =~= seq![b[0]] + b.skip(1));
        }
    } else if a.len() > 0 && b.len() > 0 {
        lemma_seq_lt_total(a[0], b[0]);
    } else if a.len() == 0 && b.len() == 0 {
        assert(a =~= b);
    }
}

pub proof fn lemma_comps_lt_trans(a: Seq<Seq<char>>, b: Seq<Seq<char>>, c: Seq<Seq<char>>)
    requires
        comps_lt(a, b),
        comps_lt(b, c),
    ensures
        comps_lt(a, c),
    decreases a.len(),
{
    if a.len() > 0 && b.len() > 0 && c.len() > 0 {
        if a[0] == b[0] && b[0] == c[0] {
            lemma_comps_lt_trans(a.skip(1), b.skip(1), c.skip(1));
        } else if a[0] == b[0] {
            lemma_seq_lt_asym(b[0], c[0]);
        } else if b[0] == c[0] {
        } else {
            lemma_seq_lt_trans(a[0], b[0], c[0]);
            lemma_seq_lt_asym(a[0], c[0]);
            if a[0] == c[0] {
                lemma_seq_lt_irrefl(a[0]);
            }
        }
    }
}

/// The components of `p` (see `path_components`).
pub fn components_of(p: &[char]) -> (res: Vec<Vec<char>>)
    ensures
        res@.map_values(|c: Vec<char>| c@) == path_components(p@),
{
    let mut tail: Vec<Vec<char>> = Vec::new();
    let mut end: usize = p.len();
    assert(p@.subrange(0, end as int) =~= p@);
    let dot = chars_of(".");
    proof {
        reveal_strlit(".");
    }
    loop
        invariant_except_break
            end <= p@.len(),
            dot@ == "."@,
            path_components(p@) == path_components(p@.subrange(0, end as int)) + tail@.map_values(
                |c: Vec<char>| c@,
            ),
        ensures
            path_components(p@) == tail@.map_values(|c: Vec<char>| c@),
        decreases end,
    {
        let ghost q = p@.subrange(0, end as int);
        let k = last_index_before(p, end, '/');
        let start = match k {
            Some(k) => k + 1,
            None => 0,
        };
        proof {
            lemma_last_index_of(q, '/');
        }
        let piece = copy_range(p, start, end);
        assert(piece@ =~= q.subrange(last_index_of(q, '/') + 1, q.len() as int));
        let ghost before = tail@.map_values(|c: Vec<char>| c@);
        let keep = piece.len() > 0 && !slice_eq(piece.as_slice(), dot.as_slice());
        if keep {
            tail.insert(0, piece);
            assert(tail@.map_values(|c: Vec<char>| c@) =~= seq![piece@] + before);
        }
        match k {
            None => {
                assert(path_components(q) =~= if keep {
                    seq![piece@]
                } else {
                    Seq::<Seq<char>>::empty()
                });
                assert(path_components(p@) =~= tail@.map_values(|c: Vec<char>| c@));
                break ;
            },
            Some(k) => {
                assert(q.subrange(0, k as int) =~= p@.subrange(0, k as int));
                let ghost r = path_components(p@.subrange(0, k as int));
                assert(path_components(q) =~= if keep {
                    r.push(piece@)
                } else {
                    r
                });
                assert(path_components(p@) =~= r + tail@.map_values(|c: Vec<char>| c@));
                end = k;
            },
        }
    }
    tail
}

/// Whether components `a` sort before components `b`.
pub(crate) fn comps_less(a: &Vec<Vec<char>>, b: &Vec<Vec<char>>) -> (res: bool)
    ensures
        res == comps_lt(a@.map_values(|c: Vec<char>| c@), b@.map_values(|c: Vec<char>| c@)),
{
    let ghost av = a@.map_values(|c: Vec<char>| c@);
    let ghost bv = b@.map_values(|c: Vec<char>| c@);
    let mut i: usize = 0;
    assert(av.skip(0) =~= av);
    assert(bv.skip(0) =~= bv);
    while i < a.len() && i < b.len() && slice_eq(a[i].as_slice(), b[i].as_slice())
        invariant
            i <= a@.len(),
            i <= b@.len(),
            av == a@.map_values(|c: Vec<char>| c@),
            bv == b@.map_values(|c: Vec<char>| c@),
            comps_lt(av, bv) == comps_lt(av.skip(i as int), bv.skip(i as int)),
        decreases a@.len() - i,
    {
        assert(av.skip(i as int)[0] == av[i as int]);
        assert(bv.skip(i as int)[0] == bv[i as int]);
        assert(av.skip(i as int).skip(1) =~= av.skip(i + 1));
        assert(bv.skip(i as int).skip(1) =~= bv.skip(i + 1));
        i = i + 1;
    }
    if i == a.len() {
        i < b.len()
    } else if i == b.len() {
        false
    } else {
        assert(av.skip(i as int)[0] == av[i as int]);
        assert(bv.skip(i as int)[0] == bv[i as int]);
        chars_less(a[i].as_slice(), b[i].as_slice())
    }
}

/// Source files come in path order.
impl Ranked for SourceFile {
    open spec fn spec_rank_le(&self, other: &Self) -> bool {
        comps_lt(path_components(self.path@), path_components(other.path@)) || path_components(
            self.path@,
        ) == path_components(other.path@)
    }

    fn rank_le(&self, other: &Self) -> (res: bool) {
        let a = chars_of(self.path.as_str());
        let b = chars_of(other.path.as_str());
        let ca = components_of(a.as_slice());
        let cb = components_of(b.as_slice());
        if comps_less(&ca, &cb) {
            true
        } else {
            proof {
                lemma_comps_lt_total(path_components(self.path@), path_components(other.path@));
            }
            !comps_less(&cb, &ca)
        }
    }

    proof fn rank_total(a: &Self, b: &Self) {
        lemma_comps_lt_total(path_components(a.path@), path_components(b.path@));
    }

    proof fn rank_trans(a: &Self, b: &Self, c: &Self) {
        let (x, y, z) = (path_components(a.path@), path_components(b.path@), path_components(c.path@));
        if comps_lt(x, y) && comps_lt(y, z) {
            lemma_comps_lt_trans(x, y, z);
        }
    }
}

/// `file_extension`, computed.
fn extension_of(p: &str) -> (res: Option<String>)
    ensures
        match res {
            Some(x) => file_extension(p@) == Some(x@),
            None => file_extension(p@) is None,
        },
{
    let cs = chars_of(p);
    match crate::text::file_name_of(cs.as_slice()) {
        None => None,
        Some(n) => {
            assert(n@.subrange(0, n@.len() as int) =~= n@);
            match last_index_before(n.as_slice(), n.len(), '.') {
                None => None,
                Some(k) => if k == 0 {
                    None
                } else {
                    let x = copy_range(n.as_slice(), k + 1, n.len());
                    Some(string_from_chars(x.as_slice()))
                },
            }
        },
    }
}

/// The source files among what the walk yielded: files whose extension
/// names a language, sorted by path.
pub fn walk_sources(entries: &Vec<WalkEntry>) -> (res: Vec<SourceFile>)
    ensures
        exists|u: Seq<SourceFile>|
            #![trigger stable_sorted(u, res@)]
            u.map_values(|s: SourceFile| (s.path@, s.language)) == sources_of(entries@)
                && stable_sorted(u, res@),
{
    let mut out: Vec<SourceFile> = Vec::new();
    let mut i: usize = 0;
    assert(entries@.take(0) =~= Seq::<WalkEntry>::empty());
    assert(out@.map_values(|s: SourceFile| (s.path@, s.language)) =~= sources_of(entries@.take(0)));
    while i < entries.len()
        invariant
            i <= entries@.len(),
            out@.map_values(|s: SourceFile| (s.path@, s.language)) == sources_of(
                entries@.take(i as int),
            ),
        decreases entries@.len() - i,
    {
        let e = &entries[i];
        assert(entries@.take(i + 1).drop_last() =~= entries@.take(i as int));
        assert(entries@.take(i + 1).last() == *e);
        let ghost before = out@;
        if e.is_file {
            if let Some(x) = extension_of(e.path.as_str()) {
                if let Some(language) = Language::from_extension(x.as_str()) {
                    out.push(SourceFile { path: e.path.clone(), language });
                    assert(out@.map_values(|s: SourceFile| (s.path@, s.language)) =~= before.map_values(
                        |s: SourceFile| (s.path@, s.language),
                    ).push((e.path@, language)));
                }
            }
        }
        i = i + 1;
    }
    assert(entries@.take(i as int) =~= entries@);
    let ghost u = out@;
    let res = stable_sort(out);
    assert(stable_sorted(u, res@));
    res
}

} // verus!
