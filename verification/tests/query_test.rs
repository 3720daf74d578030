use codegraph_kit::index::{DefKind, Index, RefKind};
use codegraph_kit::lang::{Language, QueryKind};
use codegraph_kit::query::{index_source, run_query};

const RUST_LIB: &str = "mod inner;\n\
pub use inner::Bar as Baz;\n\
pub use inner::widgets::*;\n\
pub use inner::Untouched;\n\
use inner::Private as Hidden;\n\
\n\
pub fn entry() -> u32 {\n    helper(1)\n}\n\
fn helper(x: u32) -> u32 {\n    x\n}\n\
pub struct Point;\n";

#[test]
fn every_query_program_compiles_for_its_grammar() {
    for lang in [Language::Rust, Language::TypeScript, Language::Tsx, Language::JavaScript, Language::Python] {
        for kind in [QueryKind::Defs, QueryKind::Imports, QueryKind::Refs] {
            let q = lang.query_source(kind).expect("a query program");
            assert!(run_query("", lang, q).is_ok(), "{lang:?} {kind:?}");
        }
    }
}

#[test]
fn a_query_that_does_not_compile_is_an_error() {
    assert!(run_query("fn f() {}", Language::Rust, "(no_such_node) @x").is_err());
}

#[test]
fn rust_source_is_indexed() {
    let mut idx = Index::new();
    index_source(&mut idx, "src/lib.rs", RUST_LIB, Language::Rust).unwrap();
    let names: Vec<_> = idx.definitions.iter().map(|d| (d.name.as_str(), d.kind, d.exported)).collect();
    assert!(names.contains(&("entry", DefKind::Fn, true)));
    assert!(names.contains(&("helper", DefKind::Fn, false)));
    assert!(names.contains(&("Point", DefKind::Struct, true)));
    let entry = idx.definitions.iter().find(|d| d.name == "entry").unwrap();
    assert_eq!(entry.line, 7);
    assert_eq!(entry.column, 1);
    assert!(idx.references.iter().any(|r| r.name == "helper" && r.kind == RefKind::Call && r.line == 8));
    assert_eq!(idx.file_meta.len(), 1);
    assert_eq!(idx.file_meta[0].1.len, RUST_LIB.len() as u64);
}

#[test]
fn rust_alias_reexport_recorded() {
    let mut idx = Index::new();
    index_source(&mut idx, "src/lib.rs", RUST_LIB, Language::Rust).unwrap();
    let (_, sites) = idx.alias_reexports.iter().find(|(k, _)| k == "Baz").expect("Baz recorded");
    assert_eq!(sites.len(), 1);
    assert!(sites[0].file.ends_with("lib.rs"));
    assert_eq!(sites[0].alias, "Baz");
    assert_eq!(sites[0].original, "Bar");
    assert!(sites[0].module.contains("inner"));
    assert_eq!(sites[0].line, 2);
    // a private `use .. as ..` is no re-export
    assert!(idx.alias_reexports.iter().all(|(k, _)| k != "Hidden"));
}

#[test]
fn rust_wildcard_reexport_recorded() {
    let mut idx = Index::new();
    index_source(&mut idx, "src/lib.rs", RUST_LIB, Language::Rust).unwrap();
    let (_, sites) = idx.wildcard_reexports.iter().find(|(k, _)| k == "widgets").expect("widgets recorded");
    assert_eq!(sites.len(), 1);
    assert!(sites[0].file.ends_with("lib.rs"));
    assert!(sites[0].module.contains("inner::widgets"));
}

#[test]
fn rust_non_pub_use_is_not_a_reexport() {
    let mut idx = Index::new();
    index_source(&mut idx, "src/lib.rs", RUST_LIB, Language::Rust).unwrap();
    assert!(idx.alias_reexports.iter().flat_map(|(_, v)| v.iter()).all(|s| s.alias != "Untouched"));
}

#[test]
fn rust_direct_reexport_stays_in_imports() {
    let mut idx = Index::new();
    index_source(&mut idx, "src/lib.rs", RUST_LIB, Language::Rust).unwrap();
    assert!(idx.imports.iter().any(|i| i.local_name == "Untouched" && i.module == "inner"));
    assert!(idx.imports.iter().any(|i| i.local_name == "Hidden" && i.imported_name == "Private"));
}

const TS_LIB: &str = "import { helper as h, other } from \"./util\";\n\
export { Bar as Baz } from \"./inner\";\n\
export * from \"./widgets\";\n\
export function run(): number {\n  return h(1);\n}\n\
class Widget {\n  draw() {}\n}\n";

#[test]
fn ts_alias_reexport_recorded() {
    let mut idx = Index::new();
    index_source(&mut idx, "src/lib.ts", TS_LIB, Language::TypeScript).unwrap();
    let (_, sites) = idx.alias_reexports.iter().find(|(k, _)| k == "Baz").expect("Baz recorded");
    assert_eq!(sites.len(), 1);
    assert!(sites[0].file.ends_with("lib.ts"));
    assert_eq!(sites[0].alias, "Baz");
    assert_eq!(sites[0].original, "Bar");
    assert_eq!(sites[0].module, "./inner");
    // an import alias is no re-export
    assert!(idx.alias_reexports.iter().all(|(k, _)| k != "h"));
}

#[test]
fn ts_wildcard_reexport_recorded() {
    let mut idx = Index::new();
    index_source(&mut idx, "src/lib.ts", TS_LIB, Language::TypeScript).unwrap();
    let (_, sites) = idx.wildcard_reexports.iter().find(|(k, _)| k == "widgets").expect("widgets recorded");
    assert_eq!(sites.len(), 1);
    assert!(sites[0].file.ends_with("lib.ts"));
    assert_eq!(sites[0].module, "./widgets");
}

#[test]
fn typescript_source_is_indexed() {
    let mut idx = Index::new();
    index_source(&mut idx, "src/lib.ts", TS_LIB, Language::TypeScript).unwrap();
    assert!(idx.definitions.iter().any(|d| d.name == "run" && d.kind == DefKind::Fn && d.exported));
    assert!(idx.definitions.iter().any(|d| d.name == "Widget" && d.kind == DefKind::Class && !d.exported));
    assert!(idx.definitions.iter().any(|d| d.name == "draw" && d.kind == DefKind::Method));
    assert!(idx
        .imports
        .iter()
        .any(|i| i.local_name == "h" && i.imported_name == "helper" && i.module == "./util"));
    assert!(idx.imports.iter().any(|i| i.local_name == "other" && i.module == "./util"));
    assert!(idx.references.iter().any(|r| r.name == "h" && r.kind == RefKind::Call));
}

const PY_LIB: &str = "from inner import Bar as Baz\n\
from widgets import *\n\
from util import helper\n\
import os\n\
\n\
def run():\n    return helper(1)\n\
\n\
class Widget:\n    pass\n";

#[test]
fn python_alias_import_treated_as_reexport_site() {
    let mut idx = Index::new();
    index_source(&mut idx, "pkg/lib.py", PY_LIB, Language::Python).unwrap();
    let (_, sites) = idx.alias_reexports.iter().find(|(k, _)| k == "Baz").expect("Baz recorded");
    assert_eq!(sites.len(), 1);
    assert!(sites[0].file.ends_with("lib.py"));
    assert_eq!(sites[0].alias, "Baz");
    assert_eq!(sites[0].original, "Bar");
    assert!(sites[0].module.contains("inner"));
}

#[test]
fn python_wildcard_import_treated_as_wildcard_reexport_site() {
    let mut idx = Index::new();
    index_source(&mut idx, "pkg/lib.py", PY_LIB, Language::Python).unwrap();
    let (_, sites) = idx.wildcard_reexports.iter().find(|(k, _)| k == "widgets").expect("widgets recorded");
    assert_eq!(sites.len(), 1);
    assert!(sites[0].file.ends_with("lib.py"));
}

#[test]
fn python_source_is_indexed() {
    let mut idx = Index::new();
    index_source(&mut idx, "pkg/lib.py", PY_LIB, Language::Python).unwrap();
    assert!(idx.definitions.iter().any(|d| d.name == "run" && d.kind == DefKind::Fn && d.exported));
    assert!(idx.definitions.iter().any(|d| d.name == "Widget" && d.kind == DefKind::Class));
    assert!(idx.imports.iter().any(|i| i.local_name == "helper" && i.module == "util"));
    assert!(idx.imports.iter().any(|i| i.local_name == "os" && i.imported_name == "os"));
    assert!(idx.references.iter().any(|r| r.name == "helper" && r.kind == RefKind::Call));
}

const JS_LIB: &str = "export { Bar as Baz } from \"./inner\";\n\
export * from \"./widgets\";\n\
export function run() {\n  return helper(1);\n}\n\
class Widget {}\n";

#[test]
fn js_alias_reexport_recorded() {
    let mut idx = Index::new();
    index_source(&mut idx, "src/lib.js", JS_LIB, Language::JavaScript).unwrap();
    let (_, sites) = idx.alias_reexports.iter().find(|(k, _)| k == "Baz").expect("Baz recorded");
    assert_eq!(sites.len(), 1);
    assert!(sites[0].file.ends_with("lib.js"));
    assert_eq!(sites[0].alias, "Baz");
    assert_eq!(sites[0].original, "Bar");
    assert_eq!(sites[0].module, "./inner");
}

#[test]
fn js_wildcard_reexport_recorded() {
    let mut idx = Index::new();
    index_source(&mut idx, "src/lib.js", JS_LIB, Language::JavaScript).unwrap();
    let (_, sites) = idx.wildcard_reexports.iter().find(|(k, _)| k == "widgets").expect("widgets recorded");
    assert_eq!(sites.len(), 1);
    assert!(sites[0].file.ends_with("lib.js"));
    assert_eq!(sites[0].module, "./widgets");
    assert!(idx.definitions.iter().any(|d| d.name == "run" && d.exported));
    assert!(idx.definitions.iter().any(|d| d.name == "Widget" && d.kind == DefKind::Class && !d.exported));
}
