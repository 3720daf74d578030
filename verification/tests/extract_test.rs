use codegraph_kit::extract::{index_file, is_exported, Capture, ChildNode, Leaf, QueryMatch, SyntaxNode};
use codegraph_kit::index::{DefKind, Index, RefKind};
use codegraph_kit::lang::Language;

fn node(kind: &str, text: &str, start: usize, row: usize, column: usize) -> SyntaxNode {
    SyntaxNode {
        kind: kind.to_string(),
        text: text.to_string(),
        start_byte: start,
        end_byte: start + text.len(),
        row,
        column,
    }
}

fn cap(name: &str, n: SyntaxNode) -> Capture {
    Capture { name: name.to_string(), node: n, children: vec![], ancestor_kinds: vec![] }
}

fn child(kind: &str, text: &str, ids: &[&str]) -> ChildNode {
    ChildNode {
        kind: kind.to_string(),
        text: text.to_string(),
        children: ids
            .iter()
            .flat_map(|s| {
                vec![
                    Leaf { kind: "identifier".to_string(), text: s.to_string() },
                    Leaf { kind: "as".to_string(), text: "as".to_string() },
                ]
            })
            .collect(),
    }
}

const SOURCE: &str = "use crate::auth::authenticate;\n\npub fn login() {\n    authenticate();\n}\n";

#[test]
fn definitions_come_from_def_and_name_captures() {
    let mut def_cap = cap("def.fn", node("function_item", "pub fn login() {\n    authenticate();\n}", 32, 2, 0));
    def_cap.children = vec![child("visibility_modifier", "pub", &[]), child("identifier", "login", &[])];
    let defs = vec![
        QueryMatch { captures: vec![def_cap, cap("name", node("identifier", "login", 39, 2, 7))] },
        // a match without a name gives nothing
        QueryMatch { captures: vec![cap("def.struct", node("struct_item", "struct X;", 0, 0, 0))] },
    ];
    let mut idx = Index::new();
    index_file(&mut idx, "src/handlers.rs", SOURCE, Language::Rust, &defs, None, None);
    assert_eq!(idx.definitions.len(), 1);
    let d = &idx.definitions[0];
    assert_eq!(d.name, "login");
    assert_eq!(d.kind, DefKind::Fn);
    assert_eq!(d.file, "src/handlers.rs");
    assert_eq!((d.line, d.column), (3, 1));
    assert_eq!(d.body_start_byte, 32);
    assert!(d.exported);
    assert_eq!(idx.meta_for("src/handlers.rs").unwrap().len, SOURCE.len() as u64);
}

#[test]
fn imports_cover_names_aliases_groups_and_globs() {
    let named = QueryMatch {
        captures: vec![
            cap("import", node("use_declaration", "use crate::auth::authenticate;", 0, 0, 0)),
            cap("path", node("scoped_identifier", "crate::auth", 4, 0, 4)),
            cap("name", node("identifier", "authenticate", 17, 0, 17)),
        ],
    };
    let aliased = QueryMatch {
        captures: vec![
            cap("import", node("use_declaration", "use a::b::C as D;", 0, 4, 0)),
            cap("path", node("scoped_identifier", "a::b::C", 4, 4, 4)),
            cap("alias", node("identifier", "D", 15, 4, 15)),
        ],
    };
    let mut group_cap = cap("group", node("use_list", "{x, y as z, self}", 10, 5, 10));
    group_cap.children = vec![
        child("identifier", "x", &[]),
        child("use_as_clause", "y as z", &["y", "z"]),
        child("self", "self", &[]),
    ];
    let grouped = QueryMatch {
        captures: vec![
            cap("import", node("use_declaration", "use m::{x, y as z, self};", 0, 5, 0)),
            cap("path", node("identifier", "m", 4, 5, 4)),
            group_cap,
        ],
    };
    let glob = QueryMatch {
        captures: vec![
            cap("import", node("use_declaration", "use crate::util::*;", 0, 6, 0)),
            cap("path", node("scoped_identifier", "crate::util", 4, 6, 4)),
        ],
    };
    let ms = vec![named, aliased, grouped, glob];
    let mut idx = Index::new();
    index_file(&mut idx, "src/lib.rs", SOURCE, Language::Rust, &vec![], Some(&ms), None);
    let got: Vec<(&str, &str, &str, usize)> = idx
        .imports
        .iter()
        .map(|i| (i.local_name.as_str(), i.imported_name.as_str(), i.module.as_str(), i.line))
        .collect();
    assert_eq!(
        got,
        vec![
            ("authenticate", "authenticate", "crate::auth", 1),
            ("D", "C", "a::b::C", 5),
            ("x", "x", "m", 6),
            ("z", "y", "m", 6),
            ("*", "*", "crate::util", 7),
        ]
    );
}

#[test]
fn references_are_recorded_once_per_site_first_kind_wins() {
    let call = QueryMatch {
        captures: vec![
            cap("ref.call", node("call_expression", "authenticate()", 53, 3, 4)),
            cap("name", node("identifier", "authenticate", 53, 3, 4)),
        ],
    };
    let same_site = QueryMatch {
        captures: vec![
            cap("ref.reference", node("identifier", "authenticate", 53, 3, 4)),
            cap("name", node("identifier", "authenticate", 53, 3, 4)),
        ],
    };
    let no_kind = QueryMatch { captures: vec![cap("name", node("identifier", "login", 39, 2, 7))] };
    let ms = vec![call, same_site, no_kind];
    let mut idx = Index::new();
    index_file(&mut idx, "src/handlers.rs", SOURCE, Language::Rust, &vec![], None, Some(&ms));
    assert_eq!(idx.references.len(), 1);
    let r = &idx.references[0];
    assert_eq!(r.kind, RefKind::Call);
    assert_eq!(r.name, "authenticate");
    assert_eq!((r.line, r.column, r.byte_offset), (4, 5, 53));
    assert_eq!(r.context, "authenticate();");
}

#[test]
fn file_meta_is_replaced_on_reindex() {
    let mut idx = Index::new();
    index_file(&mut idx, "a.py", "x = 1\n", Language::Python, &vec![], None, None);
    index_file(&mut idx, "b.py", "", Language::Python, &vec![], None, None);
    index_file(&mut idx, "a.py", "x = 10\n", Language::Python, &vec![], None, None);
    assert_eq!(idx.meta_for("a.py").unwrap().len, 7);
    assert_eq!(idx.meta_for("b.py").unwrap().len, 0);
    assert_eq!(idx.file_meta.len(), 2);
    assert!(idx.meta_for("c.py").is_none());
}

#[test]
fn exported_depends_on_the_language() {
    let mut c = cap("def.fn", node("function_item", "fn f() {}", 0, 0, 0));
    assert!(!is_exported(&c, Language::Rust));
    c.children = vec![child("visibility_modifier", "pub(crate)", &[])];
    assert!(is_exported(&c, Language::Rust));
    let mut t = cap("def.fn", node("function_declaration", "function f() {}", 0, 0, 0));
    assert!(!is_exported(&t, Language::TypeScript));
    t.ancestor_kinds = vec!["export_statement".to_string(), "program".to_string()];
    assert!(is_exported(&t, Language::TypeScript));
    assert!(is_exported(&t, Language::JavaScript));
    assert!(is_exported(&cap("def.fn", node("function_definition", "def f(): pass", 0, 0, 0)), Language::Python));
}
