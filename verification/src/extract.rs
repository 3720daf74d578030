//! Filling the index from the matches of the definition, import and
//! reference queries run on a source file. A match is given as plain data:
//! each capture's name and node, with what the indexer reads around the node
//! (its children, and the kinds of its ancestors).
use vstd::prelude::*;

use crate::index::{
    context_line, def_kind_for_capture, entries, line_at, push_keyed, ref_kind_for_capture,
    AliasReexport, DefKind, Definition, FileMeta, Import, Index, RefKind, Reference,
    WildcardReexport,
};
use crate::lang::Language;
use vstd::string::StringSliceAdditionalSpecFns;
use crate::text::{chars_of, last_segment, last_segment_of, starts_with, str_eq, string_from_chars};

verus! {

/// A syntax node: its kind, its text, its byte range and its start (0-based
/// row and byte column).
#[derive(Debug)]
pub struct SyntaxNode {
    pub kind: String,
    pub text: String,
    pub start_byte: usize,
    pub end_byte: usize,
    pub row: usize,
    pub column: usize,
}

/// A child of a child: its kind and its text.
#[derive(Debug)]
pub struct Leaf {
    pub kind: String,
    pub text: String,
}

/// A child of a captured node: its kind, its text, and its own children.
#[derive(Debug)]
pub struct ChildNode {
    pub kind: String,
    pub text: String,
    pub children: Vec<Leaf>,
}

/// The texts of the `identifier` nodes among `kids`, in order.
pub open spec fn identifiers_of(kids: Seq<Leaf>) -> Seq<Seq<char>>
    decreases kids.len(),
{
    if kids.len() == 0 {
        Seq::empty()
    } else {
        let prev = identifiers_of(kids.drop_last());
        if kids.last().kind@ == "identifier"@ {
            prev.push(kids.last().text@)
        } else {
            prev
        }
    }
}

pub fn identifier_texts(kids: &Vec<Leaf>) -> (res: Vec<String>)
    ensures
        res@.map_values(|t: String| t@) == identifiers_of(kids@),
{
    let mut out: Vec<String> = Vec::new();
    let mut i: usize = 0;
    assert(kids@.take(0) =~= Seq::<Leaf>::empty());
    while i < kids.len()
        invariant
            i <= kids@.len(),
            out@.map_values(|t: String| t@) == identifiers_of(kids@.take(i as int)),
        decreases kids@.len() - i,
    {
        assert(kids@.take(i + 1).drop_last() =~= kids@.take(i as int));
        assert(kids@.take(i + 1).last() == kids@[i as int]);
        if str_eq(kids[i].kind.as_str(), "identifier") {
            let ghost before = out@;
            out.push(kids[i].text.clone());
            assert(out@.map_values(|t: String| t@) =~= before.map_values(|t: String| t@).push(
                kids@[i as int].text@,
            ));
        }
        i = i + 1;
    }
    assert(kids@.take(i as int) =~= kids@);
    out
}

/// One capture of a match: the capture's name, the node, the node's
/// children, and the kinds of its ancestors from the parent up.
#[derive(Debug)]
pub struct Capture {
    pub name: String,
    pub node: SyntaxNode,
    pub children: Vec<ChildNode>,
    pub ancestor_kinds: Vec<String>,
}

/// One match of a query: its captures, in order.
#[derive(Debug)]
pub struct QueryMatch {
    pub captures: Vec<Capture>,
}

pub struct SyntaxNodeView {
    pub kind: Seq<char>,
    pub text: Seq<char>,
    pub start_byte: usize,
    pub end_byte: usize,
    pub row: usize,
    pub column: usize,
}

pub struct LeafView {
    pub kind: Seq<char>,
    pub text: Seq<char>,
}

pub struct ChildNodeView {
    pub kind: Seq<char>,
    pub text: Seq<char>,
    pub children: Seq<LeafView>,
}

pub struct CaptureView {
    pub name: Seq<char>,
    pub node: SyntaxNodeView,
    pub children: Seq<ChildNodeView>,
    pub ancestor_kinds: Seq<Seq<char>>,
}

pub struct QueryMatchView {
    pub captures: Seq<CaptureView>,
}

impl View for SyntaxNode {
    type V = SyntaxNodeView;

    open spec fn view(&self) -> SyntaxNodeView {
        SyntaxNodeView {
            kind: self.kind@,
            text: self.text@,
            start_byte: self.start_byte,
            end_byte: self.end_byte,
            row: self.row,
            column: self.column,
        }
    }
}

impl View for Leaf {
    type V = LeafView;

    open spec fn view(&self) -> LeafView {
        LeafView { kind: self.kind@, text: self.text@ }
    }
}

impl View for ChildNode {
    type V = ChildNodeView;

    open spec fn view(&self) -> ChildNodeView {
        ChildNodeView {
            kind: self.kind@,
            text: self.text@,
            children: self.children@.map_values(|l: Leaf| l@),
        }
    }
}

impl View for Capture {
    type V = CaptureView;

    open spec fn view(&self) -> CaptureView {
        CaptureView {
            name: self.name@,
            node: self.node@,
            children: self.children@.map_values(|c: ChildNode| c@),
            ancestor_kinds: self.ancestor_kinds@.map_values(|k: String| k@),
        }
    }
}

impl View for QueryMatch {
    type V = QueryMatchView;

    open spec fn view(&self) -> QueryMatchView {
        QueryMatchView { captures: self.captures@.map_values(|c: Capture| c@) }
    }
}

/// The matches as plain values.
pub open spec fn match_views(ms: Seq<QueryMatch>) -> Seq<QueryMatchView> {
    ms.map_values(|m: QueryMatch| m@)
}

/// Rows and columns can be made 1-based.
pub open spec fn positions_fit(ms: Seq<QueryMatch>) -> bool {
    forall|i: int, j: int|
        0 <= i < ms.len() && 0 <= j < ms[i].captures@.len() ==> #[trigger] ms[i].captures@[j].node.row
            < usize::MAX && ms[i].captures@[j].node.column < usize::MAX
}

// ---------------------------------------------------------------------------
// The captures of a match
// ---------------------------------------------------------------------------
/// The last capture of `caps` called `name`.
pub open spec fn last_called(caps: Seq<Capture>, name: Seq<char>) -> Option<Capture>
    decreases caps.len(),
{
    if caps.len() == 0 {
        None
    } else if caps.last().name@ == name {
        Some(caps.last())
    } else {
        last_called(caps.drop_last(), name)
    }
}

/// The last capture of `caps` whose name is a `def.` kind.
pub open spec fn last_def_capture(caps: Seq<Capture>) -> Option<Capture>
    decreases caps.len(),
{
    if caps.len() == 0 {
        None
    } else if def_kind_for_capture(caps.last().name@) is Some {
        Some(caps.last())
    } else {
        last_def_capture(caps.drop_last())
    }
}

/// The last capture of `caps` whose name is a `ref.` kind.
pub open spec fn last_ref_capture(caps: Seq<Capture>) -> Option<Capture>
    decreases caps.len(),
{
    if caps.len() == 0 {
        None
    } else if ref_kind_for_capture(caps.last().name@) is Some {
        Some(caps.last())
    } else {
        last_ref_capture(caps.drop_last())
    }
}

/// The position of the last capture called `name`.
fn find_last_called(caps: &Vec<Capture>, name: &str) -> (res: Option<usize>)
    ensures
        match res {
            Some(k) => k < caps@.len() && last_called(caps@, name@) == Some(caps@[k as int]),
            None => last_called(caps@, name@) is None,
        },
{
    let mut k: usize = caps.len();
    assert(caps@.take(k as int) =~= caps@);
    while k > 0
        invariant
            k <= caps@.len(),
            last_called(caps@, name@) == last_called(caps@.take(k as int), name@),
        decreases k,
    {
        assert(caps@.take(k as int).drop_last() =~= caps@.take(k - 1));
        assert(caps@.take(k as int).last() == caps@[k - 1]);
        if str_eq(caps[k - 1].name.as_str(), name) {
            return Some(k - 1);
        }
        k = k - 1;
    }
    None
}

fn find_last_def(caps: &Vec<Capture>) -> (res: Option<(usize, DefKind)>)
    ensures
        match res {
            Some((k, kind)) => k < caps@.len() && last_def_capture(caps@) == Some(caps@[k as int])
                && def_kind_for_capture(caps@[k as int].name@) == Some(kind),
            None => last_def_capture(caps@) is None,
        },
{
    let mut k: usize = caps.len();
    assert(caps@.take(k as int) =~= caps@);
    while k > 0
        invariant
            k <= caps@.len(),
            last_def_capture(caps@) == last_def_capture(caps@.take(k as int)),
        decreases k,
    {
        assert(caps@.take(k as int).drop_last() =~= caps@.take(k - 1));
        assert(caps@.take(k as int).last() == caps@[k - 1]);
        if let Some(kind) = DefKind::from_capture_suffix(caps[k - 1].name.as_str()) {
            return Some((k - 1, kind));
        }
        k = k - 1;
    }
    None
}

fn find_last_ref(caps: &Vec<Capture>) -> (res: Option<(usize, RefKind)>)
    ensures
        match res {
            Some((k, kind)) => k < caps@.len() && last_ref_capture(caps@) == Some(caps@[k as int])
                && ref_kind_for_capture(caps@[k as int].name@) == Some(kind),
            None => last_ref_capture(caps@) is None,
        },
{
    let mut k: usize = caps.len();
    assert(caps@.take(k as int) =~= caps@);
    while k > 0
        invariant
            k <= caps@.len(),
            last_ref_capture(caps@) == last_ref_capture(caps@.take(k as int)),
        decreases k,
    {
        assert(caps@.take(k as int).drop_last() =~= caps@.take(k - 1));
        assert(caps@.take(k as int).last() == caps@[k - 1]);
        if let Some(kind) = RefKind::from_capture_suffix(caps[k - 1].name.as_str()) {
            return Some((k - 1, kind));
        }
        k = k - 1;
    }
    None
}

// ---------------------------------------------------------------------------
// Definitions
// ---------------------------------------------------------------------------
/// Whether a definition captured as `c` is visible outside its module: in
/// Rust, a `visibility_modifier` child whose text starts with `pub`; in
/// TypeScript and JavaScript, an `export_statement` or `export_clause`
/// around it; in Python, always.
pub open spec fn exported_by(c: Capture, lang: Language) -> bool {
    match lang {
        Language::Rust => exists|k: int|
            0 <= k < c.children@.len() && is_pub_modifier(#[trigger] c.children@[k]),
        Language::Python => true,
        _ => exists|k: int|
            0 <= k < c.ancestor_kinds@.len() && is_export_kind(#[trigger] c.ancestor_kinds@[k]@),
    }
}

/// A `visibility_modifier` whose text starts with `pub`.
pub open spec fn is_pub_modifier(ch: ChildNode) -> bool {
    ch.kind@ == "visibility_modifier"@ && starts_with(ch.text@, "pub"@)
}

/// The kind of an export around a declaration.
pub open spec fn is_export_kind(k: Seq<char>) -> bool {
    k == "export_statement"@ || k == "export_clause"@
}

/// See `exported_by`.
pub fn is_exported(c: &Capture, lang: Language) -> (res: bool)
    ensures
        res == exported_by(*c, lang),
{
    match lang {
        Language::Rust => {
            let mut k: usize = 0;
            let pfx = chars_of("pub");
            while k < c.children.len()
                invariant
                    k <= c.children@.len(),
                    lang == Language::Rust,
                    pfx@ == "pub"@,
                    forall|j: int| 0 <= j < k ==> !is_pub_modifier(#[trigger] c.children@[j]),
                decreases c.children@.len() - k,
            {
                let child = &c.children[k];
                if str_eq(child.kind.as_str(), "visibility_modifier") {
                    let t = chars_of(child.text.as_str());
                    if crate::text::slice_starts_with(t.as_slice(), pfx.as_slice()) {
                        assert(is_pub_modifier(c.children@[k as int]));

                        return true;
                    }
                }
                k = k + 1;
            }
            false
        },
        Language::Python => true,
        _ => {
            let mut k: usize = 0;
            while k < c.ancestor_kinds.len()
                invariant
                    k <= c.ancestor_kinds@.len(),
                    lang != Language::Rust && lang != Language::Python,
                    forall|j: int| 0 <= j < k ==> !is_export_kind(#[trigger] c.ancestor_kinds@[j]@),
                decreases c.ancestor_kinds@.len() - k,
            {
                let a = c.ancestor_kinds[k].as_str();
                if str_eq(a, "export_statement") || str_eq(a, "export_clause") {
                    assert(is_export_kind(c.ancestor_kinds@[k as int]@));
                    return true;
                }
                k = k + 1;
            }
            false
        },
    }
}

pub struct DefinitionView {
    pub file: Seq<char>,
    pub name: Seq<char>,
    pub kind: DefKind,
    pub line: int,
    pub column: int,
    pub body_start_byte: usize,
    pub body_end_byte: usize,
    pub exported: bool,
}

pub open spec fn def_view(d: Definition) -> DefinitionView {
    DefinitionView {
        file: d.file@,
        name: d.name@,
        kind: d.kind,
        line: d.line as int,
        column: d.column as int,
        body_start_byte: d.body_start_byte,
        body_end_byte: d.body_end_byte,
        exported: d.exported,
    }
}

pub open spec fn def_views(s: Seq<Definition>) -> Seq<DefinitionView> {
    s.map_values(|d: Definition| def_view(d))
}

/// The definition a match of the definition query gives: the node of its
/// last `def.<kind>` capture, named by the text of its last `name` capture.
pub open spec fn def_of_match(m: QueryMatch, rel: Seq<char>, lang: Language) -> Option<DefinitionView> {
    let caps = m.captures@;
    match (last_called(caps, "name"@), last_def_capture(caps)) {
        (Some(n), Some(c)) => Some(
            DefinitionView {
                file: rel,
                name: n.node.text@,
                kind: def_kind_for_capture(c.name@)->0,
                line: c.node.row + 1,
                column: c.node.column + 1,
                body_start_byte: c.node.start_byte,
                body_end_byte: c.node.end_byte,
                exported: exported_by(c, lang),
            },
        ),
        _ => None,
    }
}

/// The definitions the matches give, in order.
pub open spec fn defs_of(ms: Seq<QueryMatch>, rel: Seq<char>, lang: Language) -> Seq<DefinitionView>
    decreases ms.len(),
{
    if ms.len() == 0 {
        Seq::empty()
    } else {
        let prev = defs_of(ms.drop_last(), rel, lang);
        match def_of_match(ms.last(), rel, lang) {
            Some(d) => prev.push(d),
            None => prev,
        }
    }
}

/// Appends the definitions of `ms` to the index.
pub fn index_defs(idx: &mut Index, rel: &str, lang: Language, ms: &Vec<QueryMatch>)
    requires
        positions_fit(ms@),
    ensures
        def_views(final(idx).definitions@) == def_views(old(idx).definitions@) + defs_of(ms@, rel@, lang),
        final(idx).imports@ == old(idx).imports@,
        final(idx).references@ == old(idx).references@,
        final(idx).file_meta@ == old(idx).file_meta@,
        final(idx).alias_reexports@ == old(idx).alias_reexports@,
        final(idx).wildcard_reexports@ == old(idx).wildcard_reexports@,
{
    let ghost start = def_views(idx.definitions@);
    let mut i: usize = 0;
    assert(ms@.take(0) =~= Seq::<QueryMatch>::empty());
    assert(start + defs_of(ms@.take(0), rel@, lang) =~= start);
    while i < ms.len()
        invariant
            i <= ms@.len(),
            positions_fit(ms@),
            def_views(idx.definitions@) == start + defs_of(ms@.take(i as int), rel@, lang),
            start == def_views(old(idx).definitions@),
            idx.imports@ == old(idx).imports@,
            idx.references@ == old(idx).references@,
            idx.file_meta@ == old(idx).file_meta@,
            idx.alias_reexports@ == old(idx).alias_reexports@,
            idx.wildcard_reexports@ == old(idx).wildcard_reexports@,
        decreases ms@.len() - i,
    {
        let m = &ms[i];
        assert(ms@.take(i + 1).drop_last() =~= ms@.take(i as int));
        assert(ms@.take(i + 1).last() == *m);
        let caps = &m.captures;
        let name_at = find_last_called(caps, "name");
        let def_at = find_last_def(caps);
        match (name_at, def_at) {
            (Some(n), Some((k, kind))) => {
                let c = &caps[k];
                assert(positions_fit(ms@) ==> ms@[i as int].captures@[k as int].node.row < usize::MAX);
                let d = Definition {
                    file: rel.to_owned(),
                    name: caps[n].node.text.clone(),
                    kind,
                    line: c.node.row + 1,
                    column: c.node.column + 1,
                    body_start_byte: c.node.start_byte,
                    body_end_byte: c.node.end_byte,
                    exported: is_exported(c, lang),
                };
                let ghost before = idx.definitions@;
                idx.definitions.push(d);
                assert(def_views(idx.definitions@) =~= def_views(before).push(def_view(d)));
            },
            _ => {},
        }
        i = i + 1;
    }
    assert(ms@.take(i as int) =~= ms@);
}

// ---------------------------------------------------------------------------
// Imports
// ---------------------------------------------------------------------------
pub struct ImportView {
    pub file: Seq<char>,
    pub line: int,
    pub local_name: Seq<char>,
    pub imported_name: Seq<char>,
    pub module: Seq<char>,
}

pub open spec fn import_view(i: Import) -> ImportView {
    ImportView {
        file: i.file@,
        line: i.line as int,
        local_name: i.local_name@,
        imported_name: i.imported_name@,
        module: i.module@,
    }
}

pub open spec fn import_views(s: Seq<Import>) -> Seq<ImportView> {
    s.map_values(|i: Import| import_view(i))
}

/// A group member that may rename what it imports: Rust's `b as c`, and a
/// TS/JS import or export specifier.
pub open spec fn is_renaming_clause(k: Seq<char>) -> bool {
    k == "use_as_clause"@ || k == "import_specifier"@ || k == "export_specifier"@
}

/// The imports of a `{a, b as c}` group: each `identifier` child imports
/// itself; each renaming clause imports its first identifier under its
/// second (itself when there is none; nothing named when it has none).
pub open spec fn group_imports(children: Seq<ChildNode>, rel: Seq<char>, line: int, module: Seq<char>) -> Seq<
    ImportView,
>
    decreases children.len(),
{
    if children.len() == 0 {
        Seq::empty()
    } else {
        let prev = group_imports(children.drop_last(), rel, line, module);
        let ch = children.last();
        if ch.kind@ == "identifier"@ {
            prev.push(
                ImportView {
                    file: rel,
                    line,
                    local_name: ch.text@,
                    imported_name: ch.text@,
                    module,
                },
            )
        } else if is_renaming_clause(ch.kind@) {
            let ids = identifiers_of(ch.children@);
            let imp = if ids.len() > 0 {
                ids[0]
            } else {
                Seq::empty()
            };
            let als = if ids.len() > 1 {
                ids[1]
            } else {
                imp
            };
            prev.push(ImportView { file: rel, line, local_name: als, imported_name: imp, module })
        } else {
            prev
        }
    }
}

/// The imports a match of the import query gives. The line is that of the
/// `import` capture (0 without one) and the module the text of `path`
/// (empty without one). A `name` imports itself; else an `alias` imports
/// the `orig` capture's text, or without one the path's last `::` segment;
/// else a `group` imports its members; else the match is a glob import.
pub open spec fn imports_of_match(m: QueryMatch, rel: Seq<char>) -> Seq<ImportView> {
    let caps = m.captures@;
    let line = match last_called(caps, "import"@) {
        Some(c) => c.node.row + 1,
        None => 0,
    };
    let module = match last_called(caps, "path"@) {
        Some(c) => c.node.text@,
        None => Seq::empty(),
    };
    match last_called(caps, "name"@) {
        Some(n) => seq![
            ImportView {
                file: rel,
                line,
                local_name: n.node.text@,
                imported_name: n.node.text@,
                module,
            },
        ],
        None => match last_called(caps, "alias"@) {
            Some(a) => seq![
                ImportView {
                    file: rel,
                    line,
                    local_name: a.node.text@,
                    imported_name: match last_called(caps, "orig"@) {
                        Some(o) => o.node.text@,
                        None => last_segment(module, "::"@),
                    },
                    module,
                },
            ],
            None => match last_called(caps, "group"@) {
                Some(g) => group_imports(g.children@, rel, line, module),
                None => seq![
                    ImportView {
                        file: rel,
                        line,
                        local_name: "*"@,
                        imported_name: "*"@,
                        module,
                    },
                ],
            },
        },
    }
}

/// The imports the matches give, in order.
pub open spec fn imports_of(ms: Seq<QueryMatch>, rel: Seq<char>) -> Seq<ImportView>
    decreases ms.len(),
{
    if ms.len() == 0 {
        Seq::empty()
    } else {
        imports_of(ms.drop_last(), rel) + imports_of_match(ms.last(), rel)
    }
}

fn push_import(imports: &mut Vec<Import>, rel: &str, line: usize, local: String, imported: String, module: &str)
    ensures
        import_views(final(imports)@) == import_views(old(imports)@).push(
            ImportView {
                file: rel@,
                line: line as int,
                local_name: local@,
                imported_name: imported@,
                module: module@,
            },
        ),
{
    let i = Import {
        file: rel.to_owned(),
        line,
        local_name: local,
        imported_name: imported,
        module: module.to_owned(),
    };
    let ghost before = imports@;
    imports.push(i);
    assert(import_views(imports@) =~= import_views(before).push(import_view(i)));
}

/// Appends the imports of one match.
fn add_match_imports(imports: &mut Vec<Import>, m: &QueryMatch, rel: &str)
    requires
        forall|j: int| 0 <= j < m.captures@.len() ==> #[trigger] m.captures@[j].node.row < usize::MAX,
    ensures
        import_views(final(imports)@) == import_views(old(imports)@) + imports_of_match(*m, rel@),
{
    let caps = &m.captures;
    let line: usize = match find_last_called(caps, "import") {
        Some(k) => caps[k].node.row + 1,
        None => 0,
    };
    let module: String = match find_last_called(caps, "path") {
        Some(k) => caps[k].node.text.clone(),
        None => String::new(),
    };
    let ghost start = import_views(imports@);
    if let Some(n) = find_last_called(caps, "name") {
        let t = caps[n].node.text.clone();
        push_import(imports, rel, line, t.clone(), t, module.as_str());
        assert(import_views(imports@) =~= start + imports_of_match(*m, rel@));
        return;
    }
    if let Some(a) = find_last_called(caps, "alias") {
        let imported: String = match find_last_called(caps, "orig") {
            Some(o) => caps[o].node.text.clone(),
            None => {
                let mc = chars_of(module.as_str());
                let sep = chars_of("::");
                let seg = last_segment_of(mc.as_slice(), sep.as_slice());
                string_from_chars(seg.as_slice())
            },
        };
        push_import(imports, rel, line, caps[a].node.text.clone(), imported, module.as_str());
        assert(import_views(imports@) =~= start + imports_of_match(*m, rel@));
        return;
    }
    if let Some(g) = find_last_called(caps, "group") {
        let children = &caps[g].children;
        let mut i: usize = 0;
        assert(children@.take(0) =~= Seq::<ChildNode>::empty());
        assert(start + group_imports(children@.take(0), rel@, line as int, module@) =~= start);
        while i < children.len()
            invariant
                i <= children@.len(),
                import_views(imports@) == start + group_imports(
                    children@.take(i as int),
                    rel@,
                    line as int,
                    module@,
                ),
            decreases children@.len() - i,
        {
            let ch = &children[i];
            assert(children@.take(i + 1).drop_last() =~= children@.take(i as int));
            assert(children@.take(i + 1).last() == *ch);
            let ghost prev = import_views(imports@);
            if str_eq(ch.kind.as_str(), "identifier") {
                push_import(imports, rel, line, ch.text.clone(), ch.text.clone(), module.as_str());
            } else if str_eq(ch.kind.as_str(), "use_as_clause") || str_eq(ch.kind.as_str(), "import_specifier")
                || str_eq(ch.kind.as_str(), "export_specifier") {
                let ids = identifier_texts(&ch.children);
                proof {
                    assert forall|k: int| 0 <= k < ids@.len() implies #[trigger] ids@[k]@
                        == identifiers_of(ch.children@)[k] by {
                        assert(ids@.map_values(|t: String| t@)[k] == ids@[k]@);
                    }
                    assert(ids@.len() == identifiers_of(ch.children@).len());
                }
                let imp: String = if ids.len() > 0 {
                    ids[0].clone()
                } else {
                    String::new()
                };
                let als: String = if ids.len() > 1 {
                    ids[1].clone()
                } else {
                    imp.clone()
                };
                push_import(imports, rel, line, als, imp, module.as_str());
            }
            i = i + 1;
        }
        assert(children@.take(i as int) =~= children@);
        return;
    }
    push_import(imports, rel, line, "*".to_owned(), "*".to_owned(), module.as_str());
    assert(import_views(imports@) =~= start + imports_of_match(*m, rel@));
}

/// Appends the imports of `ms` to the index.
pub fn index_imports(idx: &mut Index, rel: &str, ms: &Vec<QueryMatch>)
    requires
        positions_fit(ms@),
    ensures
        import_views(final(idx).imports@) == import_views(old(idx).imports@) + imports_of(ms@, rel@),
        final(idx).definitions@ == old(idx).definitions@,
        final(idx).references@ == old(idx).references@,
        final(idx).file_meta@ == old(idx).file_meta@,
        final(idx).alias_reexports@ == old(idx).alias_reexports@,
        final(idx).wildcard_reexports@ == old(idx).wildcard_reexports@,
{
    let ghost start = import_views(idx.imports@);
    let mut i: usize = 0;
    assert(ms@.take(0) =~= Seq::<QueryMatch>::empty());
    assert(start + imports_of(ms@.take(0), rel@) =~= start);
    while i < ms.len()
        invariant
            i <= ms@.len(),
            positions_fit(ms@),
            import_views(idx.imports@) == start + imports_of(ms@.take(i as int), rel@),
            start == import_views(old(idx).imports@),
            idx.definitions@ == old(idx).definitions@,
            idx.references@ == old(idx).references@,
            idx.file_meta@ == old(idx).file_meta@,
            idx.alias_reexports@ == old(idx).alias_reexports@,
            idx.wildcard_reexports@ == old(idx).wildcard_reexports@,
        decreases ms@.len() - i,
    {
        let m = &ms[i];
        assert(ms@.take(i + 1).drop_last() =~= ms@.take(i as int));
        assert(ms@.take(i + 1).last() == *m);
        assert forall|j: int| 0 <= j < m.captures@.len() implies #[trigger] m.captures@[j].node.row
            < usize::MAX by {
            assert(ms@[i as int].captures@[j].node.row < usize::MAX);
        }
        let ghost before = import_views(idx.imports@);
        add_match_imports(&mut idx.imports, m, rel);
        assert(start + imports_of(ms@.take(i + 1), rel@) =~= before + imports_of_match(*m, rel@));
        i = i + 1;
    }
    assert(ms@.take(i as int) =~= ms@);
}

// ---------------------------------------------------------------------------
// Re-exports
// ---------------------------------------------------------------------------
pub struct AliasReexportView {
    pub file: Seq<char>,
    pub line: int,
    pub alias: Seq<char>,
    pub original: Seq<char>,
    pub module: Seq<char>,
}

pub open spec fn alias_views(s: Seq<AliasReexport>) -> Seq<AliasReexportView> {
    s.map_values(
        |a: AliasReexport|
            AliasReexportView {
                file: a.file@,
                line: a.line as int,
                alias: a.alias@,
                original: a.original@,
                module: a.module@,
            },
    )
}

pub struct WildcardReexportView {
    pub file: Seq<char>,
    pub line: int,
    pub module: Seq<char>,
}

pub open spec fn wildcard_views(s: Seq<WildcardReexport>) -> Seq<WildcardReexportView> {
    s.map_values(
        |w: WildcardReexport| WildcardReexportView { file: w.file@, line: w.line as int, module: w.module@ },
    )
}

/// An import match re-exports when its `import` statement is an `export
/// ... from` (TS/JS), a Python `from .. import ..` (a module's names are
/// its imports), or carries a visibility modifier (Rust `pub use`).
pub open spec fn is_reexport(m: QueryMatch) -> bool {
    match last_called(m.captures@, "import"@) {
        Some(c) => c.node.kind@ == "export_statement"@ || c.node.kind@ == "import_from_statement"@
            || exists|k: int|
            0 <= k < c.children@.len() && #[trigger] c.children@[k].kind@ == "visibility_modifier"@,
        None => false,
    }
}

/// The imports of the re-exporting matches, in order.
pub open spec fn reexport_imports(ms: Seq<QueryMatch>, rel: Seq<char>) -> Seq<ImportView>
    decreases ms.len(),
{
    if ms.len() == 0 {
        Seq::empty()
    } else {
        reexport_imports(ms.drop_last(), rel) + if is_reexport(ms.last()) {
            imports_of_match(ms.last(), rel)
        } else {
            Seq::empty()
        }
    }
}

/// The key of a wildcard re-export: the module path's last segment.
pub open spec fn wildcard_key(module: Seq<char>) -> Seq<char> {
    last_segment(last_segment(module, "::"@), "/"@)
}

/// The alias re-export sites keyed `k` among re-exported imports: those
/// bound under another name than they have in their module.
pub open spec fn alias_reexports_of(ivs: Seq<ImportView>, k: Seq<char>) -> Seq<AliasReexportView>
    decreases ivs.len(),
{
    if ivs.len() == 0 {
        Seq::empty()
    } else {
        let prev = alias_reexports_of(ivs.drop_last(), k);
        let iv = ivs.last();
        if iv.imported_name != "*"@ && iv.local_name != iv.imported_name && iv.local_name == k {
            prev.push(
                AliasReexportView {
                    file: iv.file,
                    line: iv.line,
                    alias: iv.local_name,
                    original: iv.imported_name,
                    module: iv.module,
                },
            )
        } else {
            prev
        }
    }
}

/// The wildcard re-export sites keyed `k` among re-exported imports.
pub open spec fn wildcard_reexports_of(ivs: Seq<ImportView>, k: Seq<char>) -> Seq<WildcardReexportView>
    decreases ivs.len(),
{
    if ivs.len() == 0 {
        Seq::empty()
    } else {
        let prev = wildcard_reexports_of(ivs.drop_last(), k);
        let iv = ivs.last();
        if iv.imported_name == "*"@ && wildcard_key(iv.module) == k {
            prev.push(WildcardReexportView { file: iv.file, line: iv.line, module: iv.module })
        } else {
            prev
        }
    }
}

fn is_reexport_match(m: &QueryMatch) -> (res: bool)
    ensures
        res == is_reexport(*m),
{
    match find_last_called(&m.captures, "import") {
        Some(k) => {
            let c = &m.captures[k];
            if str_eq(c.node.kind.as_str(), "export_statement") || str_eq(
                c.node.kind.as_str(),
                "import_from_statement",
            ) {
                return true;
            }
            let mut j: usize = 0;
            while j < c.children.len()
                invariant
                    j <= c.children@.len(),
                    last_called(m.captures@, "import"@) == Some(*c),
                    c.node.kind@ != "export_statement"@,
                    c.node.kind@ != "import_from_statement"@,
                    forall|q: int| 0 <= q < j ==> #[trigger] c.children@[q].kind@ != "visibility_modifier"@,
                decreases c.children@.len() - j,
            {
                if str_eq(c.children[j].kind.as_str(), "visibility_modifier") {
                    proof {
                        assert(c.children@[j as int].kind@ == "visibility_modifier"@);
                    }
                    return true;
                }
                j = j + 1;
            }
            false
        },
        None => false,
    }
}

/// Records the re-export sites of one re-exported import.
fn record_reexport(idx: &mut Index, imp: &Import)
    requires
        old(idx).well_formed(),
    ensures
        final(idx).well_formed(),
        forall|k: Seq<char>|
            #[trigger] alias_views(entries(final(idx).alias_reexports@, k)) == alias_views(
                entries(old(idx).alias_reexports@, k),
            ) + alias_reexports_of(seq![import_view(*imp)], k),
        forall|k: Seq<char>|
            #[trigger] wildcard_views(entries(final(idx).wildcard_reexports@, k)) == wildcard_views(
                entries(old(idx).wildcard_reexports@, k),
            ) + wildcard_reexports_of(seq![import_view(*imp)], k),
        final(idx).definitions@ == old(idx).definitions@,
        final(idx).imports@ == old(idx).imports@,
        final(idx).references@ == old(idx).references@,
        final(idx).file_meta@ == old(idx).file_meta@,
{
    let ghost one = seq![import_view(*imp)];
    assert(one.drop_last() =~= Seq::<ImportView>::empty());
    proof {
        reveal_strlit("*");
    }
    if str_eq(imp.imported_name.as_str(), "*") {
        let mc = chars_of(imp.module.as_str());
        let dc = chars_of("::");
        let sl = chars_of("/");
        let s1 = last_segment_of(mc.as_slice(), dc.as_slice());
        let s2 = last_segment_of(s1.as_slice(), sl.as_slice());
        let key = string_from_chars(s2.as_slice());
        assert(key@ == wildcard_key(imp.module@));
        let ghost before = idx.wildcard_reexports@;
        let site = WildcardReexport { file: imp.file.clone(), line: imp.line, module: imp.module.clone() };
        push_keyed(&mut idx.wildcard_reexports, key.as_str(), site);
        proof {
            assert forall|k: Seq<char>| #[trigger] wildcard_views(entries(idx.wildcard_reexports@, k))
                == wildcard_views(entries(before, k)) + wildcard_reexports_of(one, k) by {
                assert(alias_reexports_of(one.drop_last(), k) =~= Seq::<AliasReexportView>::empty());
                assert(wildcard_reexports_of(one.drop_last(), k) =~= Seq::<WildcardReexportView>::empty());
                if k == key@ {
                    assert(one.last().imported_name == "*"@);
                    assert(wildcard_key(one.last().module) == k);
                    assert(wildcard_reexports_of(one.drop_last(), k) =~= Seq::<WildcardReexportView>::empty());
                    assert(wildcard_reexports_of(one, k) =~= seq![WildcardReexportView { file: imp.file@, line: imp.line as int, module: imp.module@ }]);
                    assert(wildcard_views(entries(before, k).push(site)) =~= wildcard_views(
                        entries(before, k),
                    ) + wildcard_reexports_of(one, k));
                } else {
                    assert(wildcard_views(entries(before, k)) =~= wildcard_views(entries(before, k))
                        + wildcard_reexports_of(one, k));
                }
            }
            assert forall|k: Seq<char>| #[trigger] alias_views(entries(idx.alias_reexports@, k))
                == alias_views(entries(idx.alias_reexports@, k)) + alias_reexports_of(one, k) by {
                assert(alias_reexports_of(one.drop_last(), k) =~= Seq::<AliasReexportView>::empty());
                assert(wildcard_reexports_of(one.drop_last(), k) =~= Seq::<WildcardReexportView>::empty());
                assert(alias_views(entries(idx.alias_reexports@, k)) =~= alias_views(
                    entries(idx.alias_reexports@, k),
                ) + alias_reexports_of(one, k));
            }
        }
    } else if !str_eq(imp.local_name.as_str(), imp.imported_name.as_str()) {
        let ghost before = idx.alias_reexports@;
        let site = AliasReexport {
            file: imp.file.clone(),
            line: imp.line,
            alias: imp.local_name.clone(),
            original: imp.imported_name.clone(),
            module: imp.module.clone(),
        };
        push_keyed(&mut idx.alias_reexports, imp.local_name.as_str(), site);
        proof {
            assert forall|k: Seq<char>| #[trigger] alias_views(entries(idx.alias_reexports@, k))
                == alias_views(entries(before, k)) + alias_reexports_of(one, k) by {
                assert(alias_reexports_of(one.drop_last(), k) =~= Seq::<AliasReexportView>::empty());
                assert(wildcard_reexports_of(one.drop_last(), k) =~= Seq::<WildcardReexportView>::empty());
                if k == imp.local_name@ {
                    assert(alias_views(entries(before, k).push(site)) =~= alias_views(
                        entries(before, k),
                    ) + alias_reexports_of(one, k));
                } else {
                    assert(alias_views(entries(before, k)) =~= alias_views(entries(before, k))
                        + alias_reexports_of(one, k));
                }
            }
            assert forall|k: Seq<char>| #[trigger] wildcard_views(entries(idx.wildcard_reexports@, k))
                == wildcard_views(entries(idx.wildcard_reexports@, k)) + wildcard_reexports_of(one, k) by {
                assert(alias_reexports_of(one.drop_last(), k) =~= Seq::<AliasReexportView>::empty());
                assert(wildcard_reexports_of(one.drop_last(), k) =~= Seq::<WildcardReexportView>::empty());
                assert(wildcard_views(entries(idx.wildcard_reexports@, k)) =~= wildcard_views(
                    entries(idx.wildcard_reexports@, k),
                ) + wildcard_reexports_of(one, k));
            }
        }
    } else {
        proof {
            assert forall|k: Seq<char>| #[trigger] alias_views(entries(idx.alias_reexports@, k))
                == alias_views(entries(idx.alias_reexports@, k)) + alias_reexports_of(one, k) by {
                assert(alias_reexports_of(one.drop_last(), k) =~= Seq::<AliasReexportView>::empty());
                assert(wildcard_reexports_of(one.drop_last(), k) =~= Seq::<WildcardReexportView>::empty());
                assert(alias_views(entries(idx.alias_reexports@, k)) =~= alias_views(
                    entries(idx.alias_reexports@, k),
                ) + alias_reexports_of(one, k));
            }
            assert forall|k: Seq<char>| #[trigger] wildcard_views(entries(idx.wildcard_reexports@, k))
                == wildcard_views(entries(idx.wildcard_reexports@, k)) + wildcard_reexports_of(one, k) by {
                assert(alias_reexports_of(one.drop_last(), k) =~= Seq::<AliasReexportView>::empty());
                assert(wildcard_reexports_of(one.drop_last(), k) =~= Seq::<WildcardReexportView>::empty());
                assert(wildcard_views(entries(idx.wildcard_reexports@, k)) =~= wildcard_views(
                    entries(idx.wildcard_reexports@, k),
                ) + wildcard_reexports_of(one, k));
            }
        }
    }
}

/// Appending one import adds its own sites after the others'.
pub proof fn lemma_reexports_push(s: Seq<ImportView>, x: ImportView, k: Seq<char>)
    ensures
        alias_reexports_of(s.push(x), k) == alias_reexports_of(s, k) + alias_reexports_of(seq![x], k),
        wildcard_reexports_of(s.push(x), k) == wildcard_reexports_of(s, k) + wildcard_reexports_of(
            seq![x],
            k,
        ),
{
    assert(s.push(x).drop_last() =~= s);
    assert(s.push(x).last() == x);
    assert(seq![x].drop_last() =~= Seq::<ImportView>::empty());
    assert(seq![x].last() == x);
    assert(alias_reexports_of(Seq::<ImportView>::empty(), k) =~= Seq::<AliasReexportView>::empty());
    assert(wildcard_reexports_of(Seq::<ImportView>::empty(), k) =~= Seq::<WildcardReexportView>::empty());
    assert(alias_reexports_of(seq![x].drop_last(), k) =~= Seq::<AliasReexportView>::empty());
    assert(wildcard_reexports_of(seq![x].drop_last(), k) =~= Seq::<WildcardReexportView>::empty());
    assert(alias_reexports_of(s.push(x), k) =~= alias_reexports_of(s, k) + alias_reexports_of(
        seq![x],
        k,
    ));
    assert(wildcard_reexports_of(s.push(x), k) =~= wildcard_reexports_of(s, k)
        + wildcard_reexports_of(seq![x], k));
}

/// Records the alias and wildcard re-export sites of the re-exporting
/// matches of `ms`, in order.
pub fn record_reexports(idx: &mut Index, rel: &str, ms: &Vec<QueryMatch>)
    requires
        old(idx).well_formed(),
        positions_fit(ms@),
    ensures
        final(idx).well_formed(),
        forall|k: Seq<char>|
            #[trigger] alias_views(entries(final(idx).alias_reexports@, k)) == alias_views(
                entries(old(idx).alias_reexports@, k),
            ) + alias_reexports_of(reexport_imports(ms@, rel@), k),
        forall|k: Seq<char>|
            #[trigger] wildcard_views(entries(final(idx).wildcard_reexports@, k)) == wildcard_views(
                entries(old(idx).wildcard_reexports@, k),
            ) + wildcard_reexports_of(reexport_imports(ms@, rel@), k),
        final(idx).definitions@ == old(idx).definitions@,
        final(idx).imports@ == old(idx).imports@,
        final(idx).references@ == old(idx).references@,
        final(idx).file_meta@ == old(idx).file_meta@,
{
    let mut i: usize = 0;
    assert(ms@.take(0) =~= Seq::<QueryMatch>::empty());
    assert forall|k: Seq<char>| #[trigger] alias_views(entries(idx.alias_reexports@, k)) == alias_views(
        entries(old(idx).alias_reexports@, k),
    ) + alias_reexports_of(reexport_imports(ms@.take(0), rel@), k) by {
        assert(alias_views(entries(idx.alias_reexports@, k)) =~= alias_views(
            entries(old(idx).alias_reexports@, k),
        ) + alias_reexports_of(reexport_imports(ms@.take(0), rel@), k));
    }
    assert forall|k: Seq<char>| #[trigger] wildcard_views(entries(idx.wildcard_reexports@, k))
        == wildcard_views(entries(old(idx).wildcard_reexports@, k)) + wildcard_reexports_of(
        reexport_imports(ms@.take(0), rel@),
        k,
    ) by {
        assert(wildcard_views(entries(idx.wildcard_reexports@, k)) =~= wildcard_views(
            entries(old(idx).wildcard_reexports@, k),
        ) + wildcard_reexports_of(reexport_imports(ms@.take(0), rel@), k));
    }
    while i < ms.len()
        invariant
            i <= ms@.len(),
            positions_fit(ms@),
            idx.well_formed(),
            forall|k: Seq<char>|
                #[trigger] alias_views(entries(idx.alias_reexports@, k)) == alias_views(
                    entries(old(idx).alias_reexports@, k),
                ) + alias_reexports_of(reexport_imports(ms@.take(i as int), rel@), k),
            forall|k: Seq<char>|
                #[trigger] wildcard_views(entries(idx.wildcard_reexports@, k)) == wildcard_views(
                    entries(old(idx).wildcard_reexports@, k),
                ) + wildcard_reexports_of(reexport_imports(ms@.take(i as int), rel@), k),
            idx.definitions@ == old(idx).definitions@,
            idx.imports@ == old(idx).imports@,
            idx.references@ == old(idx).references@,
            idx.file_meta@ == old(idx).file_meta@,
        decreases ms@.len() - i,
    {
        let m = &ms[i];
        let ghost p = reexport_imports(ms@.take(i as int), rel@);
        assert(ms@.take(i + 1).drop_last() =~= ms@.take(i as int));
        assert(ms@.take(i + 1).last() == *m);
        if is_reexport_match(m) {
            assert forall|j: int| 0 <= j < m.captures@.len() implies #[trigger] m.captures@[j].node.row
                < usize::MAX by {
                assert(ms@[i as int].captures@[j].node.row < usize::MAX);
            }
            let mut tmp: Vec<Import> = Vec::new();
            add_match_imports(&mut tmp, m, rel);
            let ghost t = import_views(tmp@);
            assert(Seq::<ImportView>::empty() + imports_of_match(*m, rel@) =~= imports_of_match(*m, rel@));
            assert(t == imports_of_match(*m, rel@));
            assert(reexport_imports(ms@.take(i + 1), rel@) == p + t);
            let mut j: usize = 0;
            assert(p + t.take(0) =~= p);
            while j < tmp.len()
                invariant
                    j <= tmp@.len(),
                    t == import_views(tmp@),
                    i < ms@.len(),
                    positions_fit(ms@),
                    idx.well_formed(),
                    forall|k: Seq<char>|
                        #[trigger] alias_views(entries(idx.alias_reexports@, k)) == alias_views(
                            entries(old(idx).alias_reexports@, k),
                        ) + alias_reexports_of(p + t.take(j as int), k),
                    forall|k: Seq<char>|
                        #[trigger] wildcard_views(entries(idx.wildcard_reexports@, k)) == wildcard_views(
                            entries(old(idx).wildcard_reexports@, k),
                        ) + wildcard_reexports_of(p + t.take(j as int), k),
                    idx.definitions@ == old(idx).definitions@,
                    idx.imports@ == old(idx).imports@,
                    idx.references@ == old(idx).references@,
                    idx.file_meta@ == old(idx).file_meta@,
                decreases tmp@.len() - j,
            {
                let ghost a0 = idx.alias_reexports@;
                let ghost w0 = idx.wildcard_reexports@;
                record_reexport(idx, &tmp[j]);
                proof {
                    assert(t[j as int] == import_view(tmp@[j as int]));
                    assert(p + t.take(j + 1) =~= (p + t.take(j as int)).push(t[j as int]));
                    assert forall|k: Seq<char>| #[trigger] alias_views(entries(idx.alias_reexports@, k))
                        == alias_views(entries(old(idx).alias_reexports@, k)) + alias_reexports_of(
                        p + t.take(j + 1),
                        k,
                    ) by {
                        lemma_reexports_push(p + t.take(j as int), t[j as int], k);
                        assert(alias_views(entries(a0, k)) == alias_views(
                            entries(old(idx).alias_reexports@, k),
                        ) + alias_reexports_of(p + t.take(j as int), k));
                    }
                    assert forall|k: Seq<char>| #[trigger] wildcard_views(
                        entries(idx.wildcard_reexports@, k),
                    ) == wildcard_views(entries(old(idx).wildcard_reexports@, k))
                        + wildcard_reexports_of(p + t.take(j + 1), k) by {
                        lemma_reexports_push(p + t.take(j as int), t[j as int], k);
                        assert(wildcard_views(entries(w0, k)) == wildcard_views(
                            entries(old(idx).wildcard_reexports@, k),
                        ) + wildcard_reexports_of(p + t.take(j as int), k));
                    }
                }
                j = j + 1;
            }
            assert(t.take(j as int) =~= t);
        } else {
            assert(reexport_imports(ms@.take(i + 1), rel@) =~= p);
        }
        i = i + 1;
    }
    assert(ms@.take(i as int) =~= ms@);
}

// ---------------------------------------------------------------------------
// References
// ---------------------------------------------------------------------------
pub struct ReferenceView {
    pub file: Seq<char>,
    pub name: Seq<char>,
    pub kind: RefKind,
    pub line: int,
    pub column: int,
    pub byte_offset: usize,
    pub context: Seq<char>,
}

pub open spec fn ref_view(r: Reference) -> ReferenceView {
    ReferenceView {
        file: r.file@,
        name: r.name@,
        kind: r.kind,
        line: r.line as int,
        column: r.column as int,
        byte_offset: r.byte_offset,
        context: r.context@,
    }
}

pub open spec fn ref_views(s: Seq<Reference>) -> Seq<ReferenceView> {
    s.map_values(|r: Reference| ref_view(r))
}

/// The reference a match of the reference query gives: the node of its last
/// `name` capture, of the kind of its last `ref.<kind>` capture, with the
/// line it sits on as context.
pub open spec fn ref_of_match(m: QueryMatch, rel: Seq<char>, source: Seq<char>) -> Option<ReferenceView> {
    let caps = m.captures@;
    match (last_called(caps, "name"@), last_ref_capture(caps)) {
        (Some(n), Some(c)) => Some(
            ReferenceView {
                file: rel,
                name: n.node.text@,
                kind: ref_kind_for_capture(c.name@)->0,
                line: n.node.row + 1,
                column: n.node.column + 1,
                byte_offset: n.node.start_byte,
                context: context_line(source, n.node.row + 1),
            },
        ),
        _ => None,
    }
}

/// Some reference of `rs` has the name and offset of `r`.
pub open spec fn seen_site(rs: Seq<ReferenceView>, r: ReferenceView) -> bool {
    exists|k: int| 0 <= k < rs.len() && #[trigger] rs[k].byte_offset == r.byte_offset && rs[k].name == r.name
}

/// The references the matches give, in order, each (offset, name) once:
/// the first match at a site wins.
pub open spec fn refs_of(ms: Seq<QueryMatch>, rel: Seq<char>, source: Seq<char>) -> Seq<ReferenceView>
    decreases ms.len(),
{
    if ms.len() == 0 {
        Seq::empty()
    } else {
        let prev = refs_of(ms.drop_last(), rel, source);
        match ref_of_match(ms.last(), rel, source) {
            Some(r) => if seen_site(prev, r) {
                prev
            } else {
                prev.push(r)
            },
            None => prev,
        }
    }
}

/// A file's references hold each site (offset, name) once.
pub proof fn lemma_refs_of_distinct(ms: Seq<QueryMatch>, rel: Seq<char>, source: Seq<char>)
    ensures
        ({
            let rs = refs_of(ms, rel, source);
            forall|i: int, j: int|
                0 <= i < j < rs.len() ==> !(#[trigger] rs[i].byte_offset == #[trigger] rs[j].byte_offset
                    && rs[i].name == rs[j].name)
        }),
    decreases ms.len(),
{
    if ms.len() > 0 {
        lemma_refs_of_distinct(ms.drop_last(), rel, source);
        let prev = refs_of(ms.drop_last(), rel, source);
        let rs = refs_of(ms, rel, source);
        match ref_of_match(ms.last(), rel, source) {
            Some(r) => if !seen_site(prev, r) {
                assert forall|i: int, j: int| 0 <= i < j < rs.len() implies !(
                #[trigger] rs[i].byte_offset == #[trigger] rs[j].byte_offset && rs[i].name
                    == rs[j].name) by {
                    if j == prev.len() {
                        assert(rs[i] == prev[i]);
                    } else {
                        assert(rs[i] == prev[i] && rs[j] == prev[j]);
                    }
                }
            },
            None => {},
        }
    }
}

/// Whether a reference from position `from` on has this name and offset.
fn has_site(refs: &Vec<Reference>, from: usize, name: &str, offset: usize) -> (res: bool)
    requires
        from <= refs@.len(),
    ensures
        res == exists|k: int|
            from <= k < refs@.len() && #[trigger] refs@[k].byte_offset == offset && refs@[k].name@
                == name@,
{
    let mut k: usize = from;
    while k < refs.len()
        invariant
            from <= k <= refs@.len(),
            forall|j: int|
                from <= j < k ==> !(#[trigger] refs@[j].byte_offset == offset && refs@[j].name@
                    == name@),
        decreases refs@.len() - k,
    {
        if refs[k].byte_offset == offset && str_eq(refs[k].name.as_str(), name) {
            return true;
        }
        k = k + 1;
    }
    false
}

/// Appends the references of `ms` to the index; a site (offset, name)
/// already recorded from an earlier match of `ms` is not recorded again.
pub fn index_refs(idx: &mut Index, rel: &str, source: &str, ms: &Vec<QueryMatch>)
    requires
        positions_fit(ms@),
    ensures
        ref_views(final(idx).references@) == ref_views(old(idx).references@) + refs_of(
            ms@,
            rel@,
            source@,
        ),
        final(idx).definitions@ == old(idx).definitions@,
        final(idx).imports@ == old(idx).imports@,
        final(idx).file_meta@ == old(idx).file_meta@,
        final(idx).alias_reexports@ == old(idx).alias_reexports@,
        final(idx).wildcard_reexports@ == old(idx).wildcard_reexports@,
{
    let ghost start = ref_views(idx.references@);
    let from = idx.references.len();
    let mut i: usize = 0;
    assert(ms@.take(0) =~= Seq::<QueryMatch>::empty());
    assert(start + refs_of(ms@.take(0), rel@, source@) =~= start);
    while i < ms.len()
        invariant
            i <= ms@.len(),
            positions_fit(ms@),
            from == start.len(),
            start.len() <= idx.references@.len(),
            ref_views(idx.references@) == start + refs_of(ms@.take(i as int), rel@, source@),
            start == ref_views(old(idx).references@),
            idx.definitions@ == old(idx).definitions@,
            idx.imports@ == old(idx).imports@,
            idx.file_meta@ == old(idx).file_meta@,
            idx.alias_reexports@ == old(idx).alias_reexports@,
            idx.wildcard_reexports@ == old(idx).wildcard_reexports@,
        decreases ms@.len() - i,
    {
        let m = &ms[i];
        assert(ms@.take(i + 1).drop_last() =~= ms@.take(i as int));
        assert(ms@.take(i + 1).last() == *m);
        let ghost prev = refs_of(ms@.take(i as int), rel@, source@);
        let caps = &m.captures;
        match (find_last_called(caps, "name"), find_last_ref(caps)) {
            (Some(n), Some((_, kind))) => {
                let node = &caps[n].node;
                assert(ms@[i as int].captures@[n as int].node.row < usize::MAX);
                let seen = has_site(&idx.references, from, node.text.as_str(), node.start_byte);
                let ghost r = ref_of_match(*m, rel@, source@)->0;
                proof {
                    let all = ref_views(idx.references@);
                    assert(all == start + prev);
                    assert(all.len() == idx.references@.len());
                    assert(all.len() == start.len() + prev.len());
                    assert(last_called(caps@, "name"@) == Some(caps@[n as int]));
                    assert(r.byte_offset == node.start_byte && r.name == node.text@);
                    if seen {
                        let k = choose|k: int|
                            from <= k < idx.references@.len() && #[trigger] idx.references@[k].byte_offset
                                == node.start_byte && idx.references@[k].name@ == node.text@;
                        assert(all[k] == ref_view(idx.references@[k]));
                        assert(all[k] == prev[k - from]);
                        assert(prev[k - from].byte_offset == r.byte_offset && prev[k - from].name == r.name);
                        assert(seen_site(prev, r));
                    }
                    if seen_site(prev, r) {
                        let k = choose|k: int|
                            0 <= k < prev.len() && #[trigger] prev[k].byte_offset == r.byte_offset
                                && prev[k].name == r.name;
                        assert(all[k + from] == prev[k]);
                        assert(all[k + from] == ref_view(idx.references@[k + from]));
                        assert(idx.references@[k + from].byte_offset == node.start_byte);
                        assert(seen);
                    }
                }
                if !seen {
                    let line = node.row + 1;
                    let rf = Reference {
                        file: rel.to_owned(),
                        name: node.text.clone(),
                        kind,
                        line,
                        column: node.column + 1,
                        byte_offset: node.start_byte,
                        context: line_at(source, line),
                    };
                    let ghost before = idx.references@;
                    idx.references.push(rf);
                    assert(ref_views(idx.references@) =~= ref_views(before).push(ref_view(rf)));
                }
            },
            _ => {},
        }
        i = i + 1;
    }
    assert(ms@.take(i as int) =~= ms@);
}

// ---------------------------------------------------------------------------
// A whole file
// ---------------------------------------------------------------------------
/// Records the length in bytes of a source file, replacing what was there.
pub fn record_file_meta(idx: &mut Index, rel: &str, len: u64)
    requires
        old(idx).well_formed(),
    ensures
        final(idx).well_formed(),
        crate::index::lookup(final(idx).file_meta@, rel@) == Some(FileMeta { len }),
        forall|k: Seq<char>|
            k != rel@ ==> crate::index::lookup(final(idx).file_meta@, k) == crate::index::lookup(
                old(idx).file_meta@,
                k,
            ),
        final(idx).definitions@ == old(idx).definitions@,
        final(idx).imports@ == old(idx).imports@,
        final(idx).references@ == old(idx).references@,
        final(idx).alias_reexports@ == old(idx).alias_reexports@,
        final(idx).wildcard_reexports@ == old(idx).wildcard_reexports@,
{
    let mut i: usize = 0;
    while i < idx.file_meta.len()
        invariant
            i <= idx.file_meta@.len(),
            idx.well_formed(),
            *idx == *old(idx),
            forall|j: int| 0 <= j < i ==> #[trigger] idx.file_meta@[j].0@ != rel@,
        decreases idx.file_meta@.len() - i,
    {
        if str_eq(idx.file_meta[i].0.as_str(), rel) {
            let ghost before = idx.file_meta@;
            idx.file_meta[i].1 = FileMeta { len };
            proof {
                assert(idx.file_meta@ =~= before.update(i as int, (before[i as int].0, FileMeta { len })));
                assert forall|k: Seq<char>| k != rel@ implies crate::index::lookup(
                    idx.file_meta@,
                    k,
                ) == crate::index::lookup(before, k) by {
                    if exists|j: int| 0 <= j < before.len() && before[j].0@ == k {
                        let j = choose|j: int| 0 <= j < before.len() && before[j].0@ == k;
                        assert(idx.file_meta@[j].0@ == k);
                        let j2 = choose|j2: int| 0 <= j2 < idx.file_meta@.len() && idx.file_meta@[j2].0@ == k;
                        assert(j2 == j);
                    }
                    if exists|j: int| 0 <= j < idx.file_meta@.len() && idx.file_meta@[j].0@ == k {
                        let j = choose|j: int| 0 <= j < idx.file_meta@.len() && idx.file_meta@[j].0@ == k;
                        assert(before[j].0@ == k);
                    }
                }
                assert(idx.file_meta@[i as int].0@ == rel@);
                let j2 = choose|j2: int| 0 <= j2 < idx.file_meta@.len() && idx.file_meta@[j2].0@ == rel@;
                assert(j2 == i);
            }
            return;
        }
        i = i + 1;
    }
    let ghost before = idx.file_meta@;
    idx.file_meta.push((rel.to_owned(), FileMeta { len }));
    proof {
        assert forall|a: int, b: int| 0 <= a < b < idx.file_meta@.len() implies idx.file_meta@[a].0@
            != idx.file_meta@[b].0@ by {
            if b < before.len() {
                assert(idx.file_meta@[a] == before[a] && idx.file_meta@[b] == before[b]);
            } else {
                assert(idx.file_meta@[a] == before[a]);
            }
        }
        assert forall|k: Seq<char>| k != rel@ implies crate::index::lookup(idx.file_meta@, k)
            == crate::index::lookup(before, k) by {
            if exists|j: int| 0 <= j < before.len() && before[j].0@ == k {
                let j = choose|j: int| 0 <= j < before.len() && before[j].0@ == k;
                assert(idx.file_meta@[j].0@ == k);
                let j2 = choose|j2: int| 0 <= j2 < idx.file_meta@.len() && idx.file_meta@[j2].0@ == k;
                assert(j2 < before.len());
                assert(j2 == j);
            }
            if exists|j: int| 0 <= j < idx.file_meta@.len() && idx.file_meta@[j].0@ == k {
                let j = choose|j: int| 0 <= j < idx.file_meta@.len() && idx.file_meta@[j].0@ == k;
                assert(j < before.len());
                assert(before[j].0@ == k);
            }
        }
        let last = (idx.file_meta@.len() - 1) as int;
        assert(idx.file_meta@[last].0@ == rel@);
        let j2 = choose|j2: int| 0 <= j2 < idx.file_meta@.len() && idx.file_meta@[j2].0@ == rel@;
        assert(j2 == last);
    }
}

/// What indexing one source file at `rel` does to `old`, giving `new`: its
/// length in bytes is recorded under `rel` (nothing else in that table
/// changes), then the definitions, imports and references that its query
/// matches give are appended (the import and reference matches when those
/// queries ran), and the re-export sites of its re-exporting imports are
/// added to their tables.
pub open spec fn indexed(
    old: Index,
    new: Index,
    rel: Seq<char>,
    len: nat,
    source: Seq<char>,
    lang: Language,
    defs: Seq<QueryMatch>,
    imports: Option<Seq<QueryMatch>>,
    refs: Option<Seq<QueryMatch>>,
) -> bool {
    let im = match imports {
        Some(ms) => imports_of(ms, rel),
        None => Seq::empty(),
    };
    let rx = match imports {
        Some(ms) => reexport_imports(ms, rel),
        None => Seq::empty(),
    };
    &&& new.well_formed()
    &&& crate::index::lookup(new.file_meta@, rel) == Some(FileMeta { len: len as u64 })
    &&& forall|k: Seq<char>|
        k != rel ==> #[trigger] crate::index::lookup(new.file_meta@, k) == crate::index::lookup(
            old.file_meta@,
            k,
        )
    &&& def_views(new.definitions@) == def_views(old.definitions@) + defs_of(defs, rel, lang)
    &&& import_views(new.imports@) == import_views(old.imports@) + im
    &&& ref_views(new.references@) == ref_views(old.references@) + match refs {
        Some(ms) => refs_of(ms, rel, source),
        None => Seq::empty(),
    }
    &&& forall|k: Seq<char>|
        #[trigger] alias_views(entries(new.alias_reexports@, k)) == alias_views(
            entries(old.alias_reexports@, k),
        ) + alias_reexports_of(rx, k)
    &&& forall|k: Seq<char>|
        #[trigger] wildcard_views(entries(new.wildcard_reexports@, k)) == wildcard_views(
            entries(old.wildcard_reexports@, k),
        ) + wildcard_reexports_of(rx, k)
}

/// Indexes one source file at `rel` from its query matches (see `indexed`).
pub fn index_file(
    idx: &mut Index,
    rel: &str,
    source: &str,
    lang: Language,
    defs: &Vec<QueryMatch>,
    imports: Option<&Vec<QueryMatch>>,
    refs: Option<&Vec<QueryMatch>>,
)
    requires
        old(idx).well_formed(),
        source.spec_bytes().len() <= usize::MAX,
        positions_fit(defs@),
        imports matches Some(ms) ==> positions_fit(ms@),
        refs matches Some(ms) ==> positions_fit(ms@),
    ensures
        indexed(
            *old(idx),
            *final(idx),
            rel@,
            source.spec_bytes().len(),
            source@,
            lang,
            defs@,
            match imports {
                Some(ms) => Some(ms@),
                None => None,
            },
            match refs {
                Some(ms) => Some(ms@),
                None => None,
            },
        ),
{
    let len = source.len() as u64;
    record_file_meta(idx, rel, len);
    index_defs(idx, rel, lang, defs);
    match imports {
        Some(ms) => {
            index_imports(idx, rel, ms);
            record_reexports(idx, rel, ms);
        },
        None => {
            assert(import_views(idx.imports@) =~= import_views(idx.imports@) + Seq::<ImportView>::empty());
            assert forall|k: Seq<char>| #[trigger] alias_views(entries(idx.alias_reexports@, k))
                == alias_views(entries(idx.alias_reexports@, k)) + alias_reexports_of(
                Seq::<ImportView>::empty(),
                k,
            ) by {
                assert(alias_views(entries(idx.alias_reexports@, k)) =~= alias_views(
                    entries(idx.alias_reexports@, k),
                ) + alias_reexports_of(Seq::<ImportView>::empty(), k));
            }
            assert forall|k: Seq<char>| #[trigger] wildcard_views(entries(idx.wildcard_reexports@, k))
                == wildcard_views(entries(idx.wildcard_reexports@, k)) + wildcard_reexports_of(
                Seq::<ImportView>::empty(),
                k,
            ) by {
                assert(wildcard_views(entries(idx.wildcard_reexports@, k)) =~= wildcard_views(
                    entries(idx.wildcard_reexports@, k),
                ) + wildcard_reexports_of(Seq::<ImportView>::empty(), k));
            }
        },
    }
    match refs {
        Some(ms) => index_refs(idx, rel, source, ms),
        None => {
            assert(ref_views(idx.references@) =~= ref_views(idx.references@) + Seq::<ReferenceView>::empty());
        },
    }
}

} // verus!
