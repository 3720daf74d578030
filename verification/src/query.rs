//! Running the definition, import and reference queries of a language over
//! a source file with tree-sitter, and indexing the file from their matches.
use vstd::prelude::*;

use tree_sitter::Language as Grammar;
use tree_sitter::Node as TsNode;
use tree_sitter::QueryMatch as TsMatch;
use tree_sitter::{Parser, Query, QueryCursor, StreamingIterator};

use crate::extract::{
    index_file, indexed, match_views, positions_fit, Capture, ChildNode, Leaf, QueryMatch,
    QueryMatchView, SyntaxNode,
};
use crate::index::Index;
use crate::lang::{Language, QueryKind};
use vstd::string::StringSliceAdditionalSpecFns;

verus! {

#[verifier::external_type_specification]
#[verifier::external_body]
pub struct ExGrammar(Grammar);

#[verifier::external_type_specification]
#[verifier::external_body]
pub struct ExTsNode<'a>(TsNode<'a>);

#[verifier::external_type_specification]
#[verifier::external_body]
pub struct ExTsMatch<'a, 'b>(TsMatch<'a, 'b>);

/// Definitions in Rust: functions, structs, enums, traits, type aliases and
/// constants, each with its name.
pub const RUST_DEFS: &'static str = "
(function_item name: (identifier) @name) @def.fn
(struct_item name: (type_identifier) @name) @def.struct
(enum_item name: (type_identifier) @name) @def.enum
(trait_item name: (type_identifier) @name) @def.trait
(type_item name: (type_identifier) @name) @def.type
(const_item name: (identifier) @name) @def.const
";

/// `use` declarations in Rust: a single name, an alias, a `{..}` group, or
/// a glob, with the path they come from.
pub const RUST_IMPORTS: &'static str = "
(use_declaration argument: (identifier) @name) @import
(use_declaration argument: (scoped_identifier path: (_) @path name: (identifier) @name)) @import
(use_declaration argument: (use_as_clause path: (_) @path alias: (identifier) @alias)) @import
(use_declaration argument: (scoped_use_list path: (_) @path list: (use_list) @group)) @import
(use_declaration argument: (use_wildcard (_) @path)) @import
";

/// References in Rust: calls (by name, method or path), then every other
/// use of an identifier or a type name.
pub const RUST_REFS: &'static str = "
(call_expression function: (identifier) @name) @ref.call
(call_expression function: (field_expression field: (field_identifier) @name)) @ref.call
(call_expression function: (scoped_identifier name: (identifier) @name)) @ref.call
(identifier) @name @ref.reference
(type_identifier) @name @ref.reference
";

/// Definitions in TypeScript: functions, classes, interfaces, type aliases,
/// enums and methods.
pub const TYPESCRIPT_DEFS: &'static str = "
(function_declaration name: (identifier) @name) @def.fn
(class_declaration name: (type_identifier) @name) @def.class
(interface_declaration name: (type_identifier) @name) @def.interface
(type_alias_declaration name: (type_identifier) @name) @def.type
(enum_declaration name: (identifier) @name) @def.enum
(method_definition name: (property_identifier) @name) @def.method
";

/// Imports in TypeScript and JavaScript: a default import, a `{..}` group, a namespace
/// import; and the re-exports `export {..} from` and `export * from`.
pub const TYPESCRIPT_IMPORTS: &'static str = "
(import_statement (import_clause (identifier) @name) source: (string (string_fragment) @path)) @import
(import_statement (import_clause (named_imports) @group) source: (string (string_fragment) @path)) @import
(import_statement (import_clause (namespace_import (identifier) @alias)) source: (string (string_fragment) @path)) @import
(export_statement (export_clause) @group source: (string (string_fragment) @path)) @import
(export_statement \"*\" source: (string (string_fragment) @path)) @import
";

/// References in TypeScript: calls (by name or member), then every other
/// use of an identifier or a type name.
pub const TYPESCRIPT_REFS: &'static str = "
(call_expression function: (identifier) @name) @ref.call
(call_expression function: (member_expression property: (property_identifier) @name)) @ref.call
(identifier) @name @ref.reference
(type_identifier) @name @ref.reference
";

/// Definitions in JavaScript: functions, generators, classes and methods.
pub const JAVASCRIPT_DEFS: &'static str = "
(function_declaration name: (identifier) @name) @def.fn
(generator_function_declaration name: (identifier) @name) @def.fn
(class_declaration name: (identifier) @name) @def.class
(method_definition name: (property_identifier) @name) @def.method
";

/// References in JavaScript: calls (by name or member), then every other
/// use of an identifier.
pub const JAVASCRIPT_REFS: &'static str = "
(call_expression function: (identifier) @name) @ref.call
(call_expression function: (member_expression property: (property_identifier) @name)) @ref.call
(identifier) @name @ref.reference
";

/// Definitions in Python: functions and classes.
pub const PYTHON_DEFS: &'static str = "
(function_definition name: (identifier) @name) @def.fn
(class_definition name: (identifier) @name) @def.class
";

/// Imports in Python: `from m import a`, `from m import a as b`,
/// `from m import *`, `import m` and `import m as b`.
pub const PYTHON_IMPORTS: &'static str = "
(import_from_statement module_name: (dotted_name) @path name: (dotted_name) @name) @import
(import_from_statement module_name: (dotted_name) @path name: (aliased_import name: (dotted_name) @orig alias: (identifier) @alias)) @import
(import_from_statement module_name: (dotted_name) @path (wildcard_import)) @import
(import_statement name: (dotted_name) @name) @import
(import_statement name: (aliased_import name: (dotted_name) @path alias: (identifier) @alias)) @import
";

/// References in Python: calls (by name or attribute), then every other
/// use of an identifier.
pub const PYTHON_REFS: &'static str = "
(call function: (identifier) @name) @ref.call
(call function: (attribute attribute: (identifier) @name)) @ref.call
(identifier) @name @ref.reference
";

/// The query program of a language for one kind of capture. TSX shares
/// TypeScript's; JavaScript's imports have the same shape as TypeScript's.
pub open spec fn query_program(lang: Language, kind: QueryKind) -> Option<Seq<char>> {
    match (lang, kind) {
        (Language::Rust, QueryKind::Defs) => Some(RUST_DEFS@),
        (Language::Rust, QueryKind::Imports) => Some(RUST_IMPORTS@),
        (Language::Rust, QueryKind::Refs) => Some(RUST_REFS@),
        (Language::TypeScript, QueryKind::Defs) | (Language::Tsx, QueryKind::Defs) => Some(
            TYPESCRIPT_DEFS@,
        ),
        (Language::TypeScript, QueryKind::Imports) | (Language::Tsx, QueryKind::Imports) => Some(
            TYPESCRIPT_IMPORTS@,
        ),
        (Language::TypeScript, QueryKind::Refs) | (Language::Tsx, QueryKind::Refs) => Some(
            TYPESCRIPT_REFS@,
        ),
        (Language::JavaScript, QueryKind::Defs) => Some(JAVASCRIPT_DEFS@),
        (Language::JavaScript, QueryKind::Imports) => Some(TYPESCRIPT_IMPORTS@),
        (Language::JavaScript, QueryKind::Refs) => Some(JAVASCRIPT_REFS@),
        (Language::Python, QueryKind::Defs) => Some(PYTHON_DEFS@),
        (Language::Python, QueryKind::Imports) => Some(PYTHON_IMPORTS@),
        (Language::Python, QueryKind::Refs) => Some(PYTHON_REFS@),
    }
}

impl Language {
    /// The query program of this language for `kind` (see `query_program`).
    pub fn query_source(self, kind: QueryKind) -> (res: Option<&'static str>)
        ensures
            match res {
                Some(q) => query_program(self, kind) == Some(q@),
                None => query_program(self, kind) is None,
            },
    {
        match (self, kind) {
            (Language::Rust, QueryKind::Defs) => Some(RUST_DEFS),
            (Language::Rust, QueryKind::Imports) => Some(RUST_IMPORTS),
            (Language::Rust, QueryKind::Refs) => Some(RUST_REFS),
            (Language::TypeScript, QueryKind::Defs) | (Language::Tsx, QueryKind::Defs) => Some(
                TYPESCRIPT_DEFS,
            ),
            (Language::TypeScript, QueryKind::Imports) | (Language::Tsx, QueryKind::Imports) => Some(
                TYPESCRIPT_IMPORTS,
            ),
            (Language::TypeScript, QueryKind::Refs) | (Language::Tsx, QueryKind::Refs) => Some(
                TYPESCRIPT_REFS,
            ),
            (Language::JavaScript, QueryKind::Defs) => Some(JAVASCRIPT_DEFS),
            (Language::JavaScript, QueryKind::Imports) => Some(TYPESCRIPT_IMPORTS),
            (Language::JavaScript, QueryKind::Refs) => Some(JAVASCRIPT_REFS),
            (Language::Python, QueryKind::Defs) => Some(PYTHON_DEFS),
            (Language::Python, QueryKind::Imports) => Some(PYTHON_IMPORTS),
            (Language::Python, QueryKind::Refs) => Some(PYTHON_REFS),
        }
    }
}

/// The tree-sitter grammar of each language (one to one).
#[verifier::external_body]
fn ts_language(lang: Language) -> Grammar {
    match lang {
        Language::Rust => tree_sitter_rust::LANGUAGE.into(),
        Language::TypeScript => tree_sitter_typescript::LANGUAGE_TYPESCRIPT.into(),
        Language::Tsx => tree_sitter_typescript::LANGUAGE_TSX.into(),
        Language::JavaScript => tree_sitter_javascript::LANGUAGE.into(),
        Language::Python => tree_sitter_python::LANGUAGE.into(),
    }
}

/// A tree-sitter node as plain values: `Node::kind`, `Node::utf8_text`
/// (empty when not UTF-8), `Node::start_byte`, `Node::end_byte` and
/// `Node::start_position`.
#[verifier::external_body]
fn syntax_node(node: TsNode<'_>, bytes: &[u8]) -> SyntaxNode {
    SyntaxNode {
        kind: node.kind().to_string(),
        text: node.utf8_text(bytes).unwrap_or("").to_string(),
        start_byte: node.start_byte(),
        end_byte: node.end_byte(),
        row: node.start_position().row,
        column: node.start_position().column,
    }
}

/// A child of a captured node as plain values: its kind, its text, and the
/// kind and text of each of its own children (`Node::children`).
#[verifier::external_body]
fn child_node(node: TsNode<'_>, bytes: &[u8]) -> ChildNode {
    let mut cur = node.walk();
    let children = node.children(&mut cur).map(
        |n| Leaf { kind: n.kind().to_string(), text: n.utf8_text(bytes).unwrap_or("").to_string() },
    ).collect();
    ChildNode { kind: node.kind().to_string(), text: node.utf8_text(bytes).unwrap_or("").to_string(), children }
}

/// A capture as plain values: its name, its node, the node's children
/// (`Node::children`) and the kinds of its ancestors (`Node::parent`, from
/// the parent up).
#[verifier::external_body]
fn capture_of(name: &str, node: TsNode<'_>, bytes: &[u8]) -> Capture {
    let mut cur = node.walk();
    let children = node.children(&mut cur).map(|c| child_node(c, bytes)).collect();
    let mut ancestor_kinds = Vec::new();
    let mut p = node.parent();
    while let Some(n) = p {
        ancestor_kinds.push(n.kind().to_string());
        p = n.parent();
    }
    Capture { name: name.to_string(), node: syntax_node(node, bytes), children, ancestor_kinds }
}

/// A match as plain values: each capture (`QueryMatch::captures`) with its
/// name from the query's capture names.
#[verifier::external_body]
fn match_of(m: &TsMatch<'_, '_>, names: &[&str], bytes: &[u8]) -> QueryMatch {
    QueryMatch {
        captures: m.captures().iter().map(|c| capture_of(names[c.index as usize], c.node, bytes)).collect(),
    }
}

/// What parsing `source` as `lang` and running the query program `query`
/// over it gives: the matches (in tree-sitter's order, each capture as
/// plain values), or `None` when the query does not compile for the
/// grammar. It is a function of the three arguments alone.
pub uninterp spec fn query_result(source: Seq<char>, lang: Language, query: Seq<char>) -> Option<
    Seq<QueryMatchView>,
>;

/// Parses `source` with the grammar of `lang` (`Parser::parse`), compiles
/// `query` (`Query::new`) and collects its matches (`QueryCursor::matches`),
/// each capture converted to plain values. The result is named
/// `query_result`; a failure is the error's text.
#[verifier::external_body]
pub fn run_query(source: &str, lang: Language, query: &str) -> (res: Result<Vec<QueryMatch>, String>)
    ensures
        match res {
            Ok(ms) => query_result(source@, lang, query@) == Some(match_views(ms@)),
            Err(_) => query_result(source@, lang, query@) is None,
        },
{
    let ts = ts_language(lang);
    let mut parser = Parser::new();
    parser.set_language(&ts).map_err(|e| e.to_string())?;
    let tree = parser.parse(source, None).ok_or("parse failed")?;
    let q = Query::new(&ts, query).map_err(|e| e.to_string())?;
    let mut cursor = QueryCursor::new();
    let mut it = cursor.matches(&q, tree.root_node(), source.as_bytes());
    let mut out = Vec::new();
    while let Some(m) = it.next() {
        out.push(match_of(m, q.capture_names(), source.as_bytes()));
    }
    Ok(out)
}

/// What running the query program of `kind` for `lang` over `source`
/// gives: `None` when the language has none, or when it does not compile.
pub open spec fn query_run(source: Seq<char>, lang: Language, kind: QueryKind) -> Option<
    Seq<QueryMatchView>,
> {
    match query_program(lang, kind) {
        Some(q) => query_result(source, lang, q),
        None => None,
    }
}

/// Rows and columns of the matches can be made 1-based.
pub open spec fn views_fit(vs: Seq<QueryMatchView>) -> bool {
    forall|i: int, j: int|
        0 <= i < vs.len() && 0 <= j < vs[i].captures.len() ==> #[trigger] vs[i].captures[j].node.row
            < usize::MAX && vs[i].captures[j].node.column < usize::MAX
}

/// A source file can be indexed: its definitions query, when it has one,
/// compiles, and the positions of every match that a query gave fit.
pub open spec fn source_indexable(source: Seq<char>, lang: Language) -> bool {
    &&& query_program(lang, QueryKind::Defs) is Some ==> query_run(source, lang, QueryKind::Defs) is Some
    &&& query_run(source, lang, QueryKind::Defs) matches Some(v) ==> views_fit(v)
    &&& query_run(source, lang, QueryKind::Imports) matches Some(v) ==> views_fit(v)
    &&& query_run(source, lang, QueryKind::Refs) matches Some(v) ==> views_fit(v)
}

pub open spec fn opt_match_views(o: Option<Seq<QueryMatch>>) -> Option<Seq<QueryMatchView>> {
    match o {
        Some(ms) => Some(match_views(ms)),
        None => None,
    }
}

proof fn lemma_fit_views(ms: Seq<QueryMatch>)
    ensures
        positions_fit(ms) <==> views_fit(match_views(ms)),
{
    let vs = match_views(ms);
    assert forall|i: int, j: int| 0 <= i < ms.len() && 0 <= j < ms[i].captures@.len() implies
        #[trigger] vs[i].captures[j] == ms[i].captures@[j]@ by {
        assert(vs[i] == ms[i]@);
    }
    if positions_fit(ms) {
        assert forall|i: int, j: int| 0 <= i < vs.len() && 0 <= j < vs[i].captures.len() implies
            #[trigger] vs[i].captures[j].node.row < usize::MAX && vs[i].captures[j].node.column
            < usize::MAX by {
            assert(vs[i] == ms[i]@);
            assert(vs[i].captures[j] == ms[i].captures@[j]@);
            assert(ms[i].captures@[j].node.row < usize::MAX);
        }
    }
    if views_fit(vs) {
        assert forall|i: int, j: int| 0 <= i < ms.len() && 0 <= j < ms[i].captures@.len() implies
            #[trigger] ms[i].captures@[j].node.row < usize::MAX && ms[i].captures@[j].node.column
            < usize::MAX by {
            assert(vs[i] == ms[i]@);
            assert(vs[i].captures[j] == ms[i].captures@[j]@);
            assert(vs[i].captures[j].node.row < usize::MAX);
        }
    }
}

fn matches_fit(ms: &Vec<QueryMatch>) -> (res: bool)
    ensures
        res == positions_fit(ms@),
{
    let mut i: usize = 0;
    while i < ms.len()
        invariant
            i <= ms@.len(),
            forall|a: int, b: int|
                0 <= a < i && 0 <= b < ms@[a].captures@.len() ==> #[trigger] ms@[a].captures@[b].node.row
                    < usize::MAX && ms@[a].captures@[b].node.column < usize::MAX,
        decreases ms@.len() - i,
    {
        let caps = &ms[i].captures;
        let mut j: usize = 0;
        while j < caps.len()
            invariant
                i < ms@.len(),
                *caps == ms@[i as int].captures,
                j <= caps@.len(),
                forall|a: int, b: int|
                    0 <= a < i && 0 <= b < ms@[a].captures@.len() ==> #[trigger] ms@[a].captures@[b].node.row
                        < usize::MAX && ms@[a].captures@[b].node.column < usize::MAX,
                forall|b: int| 0 <= b < j ==> #[trigger] caps@[b].node.row < usize::MAX
                    && caps@[b].node.column < usize::MAX,
            decreases caps@.len() - j,
        {
            if caps[j].node.row == usize::MAX || caps[j].node.column == usize::MAX {
                proof {
                    assert(ms@[i as int].captures@[j as int] == caps@[j as int]);
                }
                return false;
            }
            j = j + 1;
        }
        i = i + 1;
    }
    true
}

/// Runs the query program of `kind`, when the language has one.
fn run_kind(source: &str, lang: Language, kind: QueryKind) -> (res: Option<Result<Vec<QueryMatch>, String>>)
    ensures
        match res {
            None => query_program(lang, kind) is None,
            Some(Ok(ms)) => query_program(lang, kind) is Some && query_run(source@, lang, kind) == Some(
                match_views(ms@),
            ),
            Some(Err(_)) => query_program(lang, kind) is Some && query_run(source@, lang, kind) is None,
        },
{
    match lang.query_source(kind) {
        Some(q) => Some(run_query(source, lang, q)),
        None => None,
    }
}

/// Indexes one source file from its text: runs the language's definition,
/// import and reference queries and indexes the file from their matches.
/// A definitions query that fails is an error; an import or reference
/// query that fails is skipped. On an error the index is left as it was.
pub fn index_source(idx: &mut Index, rel: &str, source: &str, lang: Language) -> (res: Result<(), String>)
    requires
        old(idx).well_formed(),
    ensures
        res is Ok <==> source_indexable(source@, lang),
        res is Err ==> *final(idx) == *old(idx),
        res is Ok ==> exists|d: Seq<QueryMatch>, im: Option<Seq<QueryMatch>>, rf: Option<Seq<QueryMatch>>|
            {
                &&& match_views(d) == match query_run(source@, lang, QueryKind::Defs) {
                    Some(v) => v,
                    None => Seq::empty(),
                }
                &&& opt_match_views(im) == query_run(source@, lang, QueryKind::Imports)
                &&& opt_match_views(rf) == query_run(source@, lang, QueryKind::Refs)
                &&& #[trigger] indexed(
                    *old(idx),
                    *final(idx),
                    rel@,
                    source.spec_bytes().len(),
                    source@,
                    lang,
                    d,
                    im,
                    rf,
                )
            },
{
    let defs: Vec<QueryMatch> = match run_kind(source, lang, QueryKind::Defs) {
        Some(Ok(ms)) => ms,
        Some(Err(e)) => {
            return Err(e);
        },
        None => Vec::new(),
    };
    let imports: Option<Vec<QueryMatch>> = match run_kind(source, lang, QueryKind::Imports) {
        Some(Ok(ms)) => Some(ms),
        _ => None,
    };
    let refs: Option<Vec<QueryMatch>> = match run_kind(source, lang, QueryKind::Refs) {
        Some(Ok(ms)) => Some(ms),
        _ => None,
    };
    proof {
        lemma_fit_views(defs@);
        if imports is Some {
            lemma_fit_views(imports->0@);
        }
        if refs is Some {
            lemma_fit_views(refs->0@);
        }
        assert(match_views(Seq::<QueryMatch>::empty()) =~= Seq::<QueryMatchView>::empty());
    }
    let mut fit = matches_fit(&defs);
    if let Some(ms) = &imports {
        fit = fit && matches_fit(ms);
    }
    if let Some(ms) = &refs {
        fit = fit && matches_fit(ms);
    }
    if !fit {
        return Err("a match's line or column does not fit".to_owned());
    }
    let bytes = source.as_bytes();
    let _n = bytes.len();
    index_file(idx, rel, source, lang, &defs, imports.as_ref(), refs.as_ref());
    let ghost im = if imports is Some {
        Some(imports->0@)
    } else {
        None
    };
    let ghost rf = if refs is Some {
        Some(refs->0@)
    } else {
        None
    };
    assert(indexed(*old(idx), *idx, rel@, source.spec_bytes().len(), source@, lang, defs@, im, rf));
    Ok(())
}

} // verus!
