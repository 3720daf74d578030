//! The cross-reference index: definitions, imports, references and the
//! re-export tables of every source file under a root.
use vstd::prelude::*;

use crate::text::{
    chars_of, line_of, nth_line, slice_starts_with, starts_with, string_from_chars,
    trim_whitespace, trim_ws, str_eq,
};

verus! {

#[derive(Debug, Clone, Copy, PartialEq, Eq, Structural)]
pub enum DefKind {
    Fn,
    Struct,
    Enum,
    Trait,
    Class,
    Interface,
    Type,
    Const,
    Method,
}

#[derive(Debug)]
pub struct Definition {
    pub file: String,
    pub name: String,
    pub kind: DefKind,
    pub line: usize,
    pub column: usize,
    /// Byte range of the definition's body; a reference whose offset lies in
    /// `[body_start_byte, body_end_byte)` sits inside this definition.
    pub body_start_byte: usize,
    pub body_end_byte: usize,
    /// Module-public (Rust `pub`, an `export` in TS/JS, any Python definition).
    pub exported: bool,
}

/// One "this name in this file refers to that module's symbol". A glob
/// import has `imported_name == "*"`.
#[derive(Debug)]
pub struct Import {
    pub file: String,
    pub line: usize,
    /// The binding the importing file uses.
    pub local_name: String,
    /// The name in the source module.
    pub imported_name: String,
    /// The module path as written (`crate::auth`, `./util`, ...).
    pub module: String,
}

#[derive(Debug, Clone, Copy, PartialEq, Eq, Structural)]
pub enum RefKind {
    Call,
    Reference,
}

#[derive(Debug)]
pub struct Reference {
    pub file: String,
    pub name: String,
    pub kind: RefKind,
    pub line: usize,
    pub column: usize,
    /// Byte offset of the name in its file.
    pub byte_offset: usize,
    /// The trimmed line holding the reference, cut to 200 characters.
    pub context: String,
}

/// Metadata of one source file taken while indexing: its length in bytes.
#[derive(Debug, Clone, Copy, Default)]
pub struct FileMeta {
    pub len: u64,
}

/// A `pub use a::B as C;` (or an aliased export / Python `import ... as`).
#[derive(Debug)]
pub struct AliasReexport {
    pub file: String,
    pub line: usize,
    pub alias: String,
    pub original: String,
    pub module: String,
}

/// A `pub use a::*;` (or `export * from`, Python `from m import *`).
#[derive(Debug)]
pub struct WildcardReexport {
    pub file: String,
    pub line: usize,
    pub module: String,
}

/// The index of a project. The three tables keyed by name hold each key once.
#[derive(Debug)]
pub struct Index {
    pub definitions: Vec<Definition>,
    pub imports: Vec<Import>,
    pub references: Vec<Reference>,
    /// Repo-relative path, and the file's metadata.
    pub file_meta: Vec<(String, FileMeta)>,
    /// Alias re-export sites, keyed by the alias.
    pub alias_reexports: Vec<(String, Vec<AliasReexport>)>,
    /// Wildcard re-export sites, keyed by the module path's last segment.
    pub wildcard_reexports: Vec<(String, Vec<WildcardReexport>)>,
}

/// Each key occurs once in a keyed table.
pub open spec fn keys_unique<V>(t: Seq<(String, V)>) -> bool {
    forall|i: int, j: int| 0 <= i < j < t.len() ==> t[i].0@ != t[j].0@
}

/// The entry of a keyed table whose key is `k`.
pub open spec fn lookup<V>(t: Seq<(String, V)>, k: Seq<char>) -> Option<V> {
    if exists|i: int| 0 <= i < t.len() && t[i].0@ == k {
        let i = choose|i: int| 0 <= i < t.len() && t[i].0@ == k;
        Some(t[i].1)
    } else {
        None
    }
}

/// The values a keyed table holds under `k` (none when `k` is absent).
pub open spec fn entries<V>(t: Seq<(String, Vec<V>)>, k: Seq<char>) -> Seq<V> {
    match lookup(t, k) {
        Some(v) => v@,
        None => Seq::empty(),
    }
}

/// Appends `v` to the values held under `key`, adding the key when absent.
pub fn push_keyed<V>(t: &mut Vec<(String, Vec<V>)>, key: &str, v: V)
    requires
        keys_unique(old(t)@),
    ensures
        keys_unique(final(t)@),
        entries(final(t)@, key@) == entries(old(t)@, key@).push(v),
        forall|k: Seq<char>| k != key@ ==> #[trigger] entries(final(t)@, k) == entries(old(t)@, k),
{
    let ghost before = t@;
    let mut i: usize = 0;
    while i < t.len()
        invariant
            i <= t@.len(),
            t@ == before,
            before == old(t)@,
            keys_unique(before),
            forall|j: int| 0 <= j < i ==> #[trigger] t@[j].0@ != key@,
        decreases t@.len() - i,
    {
        if str_eq(t[i].0.as_str(), key) {
            let mut entry = t.remove(i);
            entry.1.push(v);
            let ghost e = entry;
            t.insert(i, entry);
            proof {
                assert(t@ =~= before.update(i as int, e));
                assert forall|a: int| 0 <= a < t@.len() implies #[trigger] t@[a].0@ == before[a].0@ by {}
                assert forall|k: Seq<char>| k != key@ implies #[trigger] entries(t@, k) == entries(before, k) by {
                    if exists|j: int| 0 <= j < before.len() && before[j].0@ == k {
                        let j = choose|j: int| 0 <= j < before.len() && before[j].0@ == k;
                        assert(t@[j].0@ == k);
                        let j2 = choose|j2: int| 0 <= j2 < t@.len() && t@[j2].0@ == k;
                        assert(j2 == j);
                        assert(j != i);
                        assert(t@[j] == before[j]);
                    }
                    if exists|j: int| 0 <= j < t@.len() && t@[j].0@ == k {
                        let j = choose|j: int| 0 <= j < t@.len() && t@[j].0@ == k;
                        assert(before[j].0@ == k);
                    }
                }
                assert(t@[i as int].0@ == key@);
                let j2 = choose|j2: int| 0 <= j2 < t@.len() && t@[j2].0@ == key@;
                assert(j2 == i);
                let j3 = choose|j3: int| 0 <= j3 < before.len() && before[j3].0@ == key@;
                assert(j3 == i);
                assert(t@[i as int].1@ =~= before[i as int].1@.push(v));
            }
            return;
        }
        i = i + 1;
    }
    t.push((key.to_owned(), vec![v]));
    proof {
        assert forall|a: int, b: int| 0 <= a < b < t@.len() implies t@[a].0@ != t@[b].0@ by {
            if b < before.len() {
                assert(t@[a] == before[a] && t@[b] == before[b]);
            } else {
                assert(t@[a] == before[a]);
            }
        }
        assert forall|k: Seq<char>| k != key@ implies #[trigger] entries(t@, k) == entries(before, k) by {
            if exists|j: int| 0 <= j < before.len() && before[j].0@ == k {
                let j = choose|j: int| 0 <= j < before.len() && before[j].0@ == k;
                assert(t@[j].0@ == k);
                let j2 = choose|j2: int| 0 <= j2 < t@.len() && t@[j2].0@ == k;
                assert(j2 < before.len());
                assert(j2 == j);
                assert(t@[j] == before[j]);
            }
            if exists|j: int| 0 <= j < t@.len() && t@[j].0@ == k {
                let j = choose|j: int| 0 <= j < t@.len() && t@[j].0@ == k;
                assert(j < before.len());
                assert(before[j].0@ == k);
            }
        }
        let last = (t@.len() - 1) as int;
        assert(t@[last].0@ == key@);
        let j2 = choose|j2: int| 0 <= j2 < t@.len() && t@[j2].0@ == key@;
        assert(j2 == last);
        assert(!(exists|j: int| 0 <= j < before.len() && before[j].0@ == key@));
        assert(t@[last].1@ =~= seq![v]);
        assert(entries(before, key@).push(v) =~= seq![v]);
    }
}

/// The lowercase name of a definition kind.
pub open spec fn def_kind_text(k: DefKind) -> Seq<char> {
    match k {
        DefKind::Fn => "fn"@,
        DefKind::Struct => "struct"@,
        DefKind::Enum => "enum"@,
        DefKind::Trait => "trait"@,
        DefKind::Class => "class"@,
        DefKind::Interface => "interface"@,
        DefKind::Type => "type"@,
        DefKind::Const => "const"@,
        DefKind::Method => "method"@,
    }
}

/// `d` is a definition in `file` whose body holds `off`.
pub open spec fn encloses(d: Definition, file: Seq<char>, off: int) -> bool {
    d.file@ == file && d.body_start_byte <= off < d.body_end_byte
}

pub open spec fn body_width(d: Definition) -> int {
    d.body_end_byte - d.body_start_byte
}

/// `defs[i]` is the innermost definition enclosing `(file, off)`: no
/// enclosing definition is narrower, and no earlier one is as narrow.
pub open spec fn is_innermost(defs: Seq<Definition>, file: Seq<char>, off: int, i: int) -> bool {
    &&& 0 <= i < defs.len()
    &&& encloses(defs[i], file, off)
    &&& forall|j: int|
        0 <= j < defs.len() && encloses(defs[j], file, off) ==> body_width(defs[i]) <= body_width(
            defs[j],
        )
    &&& forall|j: int|
        0 <= j < i && encloses(defs[j], file, off) ==> body_width(defs[i]) < body_width(defs[j])
}

/// The innermost definition enclosing `(file, off)`, if any.
pub open spec fn enclosing_of(defs: Seq<Definition>, file: Seq<char>, off: int) -> Option<Definition> {
    if exists|i: int| is_innermost(defs, file, off, i) {
        Some(defs[choose|i: int| is_innermost(defs, file, off, i)])
    } else {
        None
    }
}

/// At most one definition is the innermost one at a place.
pub proof fn lemma_innermost_unique(defs: Seq<Definition>, file: Seq<char>, off: int, i: int, j: int)
    requires
        is_innermost(defs, file, off, i),
        is_innermost(defs, file, off, j),
    ensures
        i == j,
{
    if i < j {
        assert(body_width(defs[j]) < body_width(defs[i]));
    } else if j < i {
        assert(body_width(defs[i]) < body_width(defs[j]));
    }
}

impl Index {
    /// An empty index.
    pub fn new() -> (res: Self)
        ensures
            res.definitions@.len() == 0,
            res.imports@.len() == 0,
            res.references@.len() == 0,
            res.file_meta@.len() == 0,
            res.alias_reexports@.len() == 0,
            res.wildcard_reexports@.len() == 0,
    {
        Index {
            definitions: Vec::new(),
            imports: Vec::new(),
            references: Vec::new(),
            file_meta: Vec::new(),
            alias_reexports: Vec::new(),
            wildcard_reexports: Vec::new(),
        }
    }

    /// The tables keyed by name hold each key once.
    pub open spec fn well_formed(&self) -> bool {
        &&& keys_unique(self.file_meta@)
        &&& keys_unique(self.alias_reexports@)
        &&& keys_unique(self.wildcard_reexports@)
    }

    /// The definition that contains `byte_offset` in `file`, the innermost
    /// one when several do (the first of the narrowest).
    pub fn enclosing_definition(&self, file: &str, byte_offset: usize) -> (res: Option<
        &Definition,
    >)
        ensures
            res is None <==> forall|j: int|
                0 <= j < self.definitions@.len() ==> !encloses(
                    self.definitions@[j],
                    file@,
                    byte_offset as int,
                ),
            res matches Some(d) ==> exists|i: int|
                is_innermost(self.definitions@, file@, byte_offset as int, i) && *d
                    == self.definitions@[i],
            match res {
                Some(d) => enclosing_of(self.definitions@, file@, byte_offset as int) == Some(*d),
                None => enclosing_of(self.definitions@, file@, byte_offset as int) is None,
            },
    {
        let mut best: Option<usize> = None;
        let mut i: usize = 0;
        while i < self.definitions.len()
            invariant
                i <= self.definitions@.len(),
                best matches Some(b) ==> b < i && is_innermost(
                    self.definitions@.subrange(0, i as int),
                    file@,
                    byte_offset as int,
                    b as int,
                ),
                best is None ==> forall|j: int|
                    0 <= j < i ==> !encloses(self.definitions@[j], file@, byte_offset as int),
            decreases self.definitions@.len() - i,
        {
            let d = &self.definitions[i];
            let ghost pre = self.definitions@.subrange(0, i as int);
            let ghost next = self.definitions@.subrange(0, i + 1);
            assert(next =~= pre.push(*d));
            if str_eq(d.file.as_str(), file) && d.body_start_byte <= byte_offset && byte_offset
                < d.body_end_byte {
                match best {
                    None => {
                        best = Some(i);
                    },
                    Some(b) => {
                        let cur = &self.definitions[b];
                        if d.body_end_byte - d.body_start_byte < cur.body_end_byte
                            - cur.body_start_byte {
                            best = Some(i);
                        }
                    },
                }
            }
            i = i + 1;
            assert(self.definitions@.subrange(0, i as int) =~= next);
        }
        assert(self.definitions@.subrange(0, i as int) =~= self.definitions@);
        match best {
            Some(b) => {
                proof {
                    let c = choose|c: int|
                        is_innermost(self.definitions@, file@, byte_offset as int, c);
                    lemma_innermost_unique(self.definitions@, file@, byte_offset as int, b as int, c);
                }
                Some(&self.definitions[b])
            },
            None => None,
        }
    }

    /// The metadata recorded for `file`, if any.
    pub fn meta_for(&self, file: &str) -> (res: Option<FileMeta>)
        requires
            self.well_formed(),
        ensures
            res == lookup(self.file_meta@, file@),
    {
        let mut i: usize = 0;
        while i < self.file_meta.len()
            invariant
                i <= self.file_meta@.len(),
                self.well_formed(),
                forall|j: int| 0 <= j < i ==> self.file_meta@[j].0@ != file@,
            decreases self.file_meta@.len() - i,
        {
            if str_eq(self.file_meta[i].0.as_str(), file) {
                proof {
                    let k = choose|k: int|
                        0 <= k < self.file_meta@.len() && self.file_meta@[k].0@ == file@;
                    if k > i as int {
                        assert(self.file_meta@[i as int].0@ != self.file_meta@[k].0@);
                    }
                    assert(k == i as int);
                }
                return Some(self.file_meta[i].1);
            }
            i = i + 1;
        }
        None
    }

    /// The alias re-export sites recorded under `name`, if any.
    pub fn alias_sites(&self, name: &str) -> (res: Option<&Vec<AliasReexport>>)
        requires
            self.well_formed(),
        ensures
            res matches Some(v) ==> lookup(self.alias_reexports@, name@) == Some(*v),
            res is None ==> lookup(self.alias_reexports@, name@) is None,
    {
        let mut i: usize = 0;
        while i < self.alias_reexports.len()
            invariant
                i <= self.alias_reexports@.len(),
                self.well_formed(),
                forall|j: int| 0 <= j < i ==> self.alias_reexports@[j].0@ != name@,
            decreases self.alias_reexports@.len() - i,
        {
            if str_eq(self.alias_reexports[i].0.as_str(), name) {
                proof {
                    let k = choose|k: int|
                        0 <= k < self.alias_reexports@.len() && self.alias_reexports@[k].0@
                            == name@;
                    if k < i as int {
                        assert(self.alias_reexports@[k].0@ != self.alias_reexports@[i as int].0@);
                    }
                    if k > i as int {
                        assert(self.alias_reexports@[i as int].0@ != self.alias_reexports@[k].0@);
                    }
                    assert(k == i as int);
                }
                return Some(&self.alias_reexports[i].1);
            }
            i = i + 1;
        }
        None
    }
}

/// The kind named by a capture such as `def.fn`.
pub open spec fn def_kind_for_capture(s: Seq<char>) -> Option<DefKind> {
    if !starts_with(s, "def."@) {
        None
    } else {
        let rest = s.skip(4);
        if rest == "fn"@ {
            Some(DefKind::Fn)
        } else if rest == "struct"@ {
            Some(DefKind::Struct)
        } else if rest == "enum"@ {
            Some(DefKind::Enum)
        } else if rest == "trait"@ {
            Some(DefKind::Trait)
        } else if rest == "class"@ {
            Some(DefKind::Class)
        } else if rest == "interface"@ {
            Some(DefKind::Interface)
        } else if rest == "type"@ {
            Some(DefKind::Type)
        } else if rest == "const"@ {
            Some(DefKind::Const)
        } else if rest == "method"@ {
            Some(DefKind::Method)
        } else {
            None
        }
    }
}

/// The kind named by a capture such as `ref.call`.
pub open spec fn ref_kind_for_capture(s: Seq<char>) -> Option<RefKind> {
    if !starts_with(s, "ref."@) {
        None
    } else if s.skip(4) == "call"@ {
        Some(RefKind::Call)
    } else if s.skip(4) == "reference"@ {
        Some(RefKind::Reference)
    } else {
        None
    }
}

impl DefKind {
    pub fn from_capture_suffix(s: &str) -> (res: Option<Self>)
        ensures
            res == def_kind_for_capture(s@),
    {
        let cs = chars_of(s);
        let prefix = chars_of("def.");
        proof {
            reveal_strlit("def.");
        }
        if !slice_starts_with(cs.as_slice(), prefix.as_slice()) {
            return None;
        }
        let rest_chars = crate::text::copy_range(cs.as_slice(), 4, cs.len());
        let rest = string_from_chars(rest_chars.as_slice());
        let r = rest.as_str();
        if str_eq(r, "fn") {
            Some(DefKind::Fn)
        } else if str_eq(r, "struct") {
            Some(DefKind::Struct)
        } else if str_eq(r, "enum") {
            Some(DefKind::Enum)
        } else if str_eq(r, "trait") {
            Some(DefKind::Trait)
        } else if str_eq(r, "class") {
            Some(DefKind::Class)
        } else if str_eq(r, "interface") {
            Some(DefKind::Interface)
        } else if str_eq(r, "type") {
            Some(DefKind::Type)
        } else if str_eq(r, "const") {
            Some(DefKind::Const)
        } else if str_eq(r, "method") {
            Some(DefKind::Method)
        } else {
            None
        }
    }
}

impl RefKind {
    pub fn from_capture_suffix(s: &str) -> (res: Option<Self>)
        ensures
            res == ref_kind_for_capture(s@),
    {
        let cs = chars_of(s);
        let prefix = chars_of("ref.");
        proof {
            reveal_strlit("ref.");
        }
        if !slice_starts_with(cs.as_slice(), prefix.as_slice()) {
            return None;
        }
        let rest_chars = crate::text::copy_range(cs.as_slice(), 4, cs.len());
        let rest = string_from_chars(rest_chars.as_slice());
        if str_eq(rest.as_str(), "call") {
            Some(RefKind::Call)
        } else if str_eq(rest.as_str(), "reference") {
            Some(RefKind::Reference)
        } else {
            None
        }
    }
}

/// The context shown for a reference on line `line` (1-based) of `source`:
/// the trimmed line; one longer than 200 characters is cut to its first 199
/// followed by `…`, so the context never exceeds 200 characters.
pub open spec fn context_line(source: Seq<char>, line: int) -> Seq<char> {
    let n = if line >= 1 {
        line - 1
    } else {
        0
    };
    let t = trim_ws(nth_line(source, n));
    if t.len() > 200 {
        t.take(199).push('…')
    } else {
        t
    }
}

pub fn line_at(source: &str, line: usize) -> (res: String)
    ensures
        res@ == context_line(source@, line as int),
        res@.len() <= 200,
{
    let cs = chars_of(source);
    let n = if line >= 1 {
        line - 1
    } else {
        0
    };
    let raw = line_of(cs.as_slice(), n);
    let mut t = trim_whitespace(raw.as_slice());
    if t.len() > 200 {
        t.truncate(199);
        t.push('…');
        string_from_chars(t.as_slice())
    } else {
        string_from_chars(t.as_slice())
    }
}

} // verus!
