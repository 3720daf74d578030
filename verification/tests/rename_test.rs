use codegraph_kit::astedit::cli::RenameArgs;
use codegraph_kit::astedit::commands::rename::run;
use codegraph_kit::index::{AliasReexport, DefKind, Definition, Index, RefKind, Reference, WildcardReexport};
use codegraph_kit::lang::Language;
use codegraph_kit::query::index_source;

fn args(anchor: Option<&str>) -> RenameArgs {
    RenameArgs {
        old: "User".to_string(),
        new: "Account".to_string(),
        path: ".".to_string(),
        apply: false,
        json: true,
        lang: None,
        anchor: anchor.map(|a| a.to_string()),
    }
}

fn def(file: &str, line: usize, start: usize, end: usize) -> Definition {
    Definition {
        file: file.to_string(),
        name: "User".to_string(),
        kind: DefKind::Struct,
        line,
        column: 1,
        body_start_byte: start,
        body_end_byte: end,
        exported: true,
    }
}

fn user_ref(file: &str, line: usize, column: usize, off: usize) -> Reference {
    Reference {
        file: file.to_string(),
        name: "User".to_string(),
        kind: RefKind::Reference,
        line,
        column,
        byte_offset: off,
        context: String::new(),
    }
}

/// `main.rs`: `struct User` and three uses of it.
fn same_file() -> Index {
    let mut idx = Index::new();
    idx.definitions = vec![def("main.rs", 1, 0, 27)];
    idx.references = vec![
        user_ref("main.rs", 1, 8, 7),
        user_ref("main.rs", 5, 14, 43),
        user_ref("main.rs", 6, 5, 54),
        user_ref("main.rs", 9, 14, 85),
    ];
    idx
}

#[test]
fn rename_same_file_high_confidence_dry_run_default() {
    let idx = same_file();
    let out = run(&idx, &args(None));
    assert_eq!(out.code, 0, "dry-run with matches should exit 0");
    assert_eq!(out.data.subcommand, "rename");
    assert!(out.data.dry_run);
    assert!(out.data.errors.as_ref().unwrap().is_empty());
    let applied = out.data.applied.as_ref().unwrap();
    assert_eq!(applied.len(), 1);
    assert!(applied[0].file.ends_with("main.rs"));
    let edits = &applied[0].edits;
    assert!(edits.len() >= 3 && edits.len() <= 4, "got {}", edits.len());
    for e in edits {
        assert_eq!(e.old, "User");
        assert_eq!(e.new, "Account");
        assert_eq!(e.confidence, "high");
        assert_eq!(e.reason, "same-file-scope");
        assert!(e.start_byte < e.end_byte);
        assert_eq!(e.end_byte - e.start_byte, "User".len());
    }
    // last first, so that splicing keeps earlier offsets valid
    assert!(edits.windows(2).all(|w| w[0].start_byte >= w[1].start_byte));
    // three bytes more per edit
    assert_eq!(applied[0].bytes_changed, 3 * edits.len() as i64);
    assert!(out.data.needs_anchor.is_none());
    assert!(out.data.candidates.is_none());
}

#[test]
fn rename_multi_def_without_anchor_needs_anchor_envelope() {
    let mut idx = Index::new();
    idx.definitions = vec![def("src/a.rs", 1, 0, 20), def("src/b.rs", 1, 0, 20)];
    idx.references = vec![user_ref("src/lib.rs", 3, 5, 40)];
    let out = run(&idx, &args(None));
    assert_ne!(out.code, 0, "multi-def without --anchor must exit non-zero");
    assert_eq!(out.data.needs_anchor, Some(true));
    let candidates = out.data.candidates.as_ref().unwrap();
    assert_eq!(candidates.len(), 2);
    assert_eq!(candidates[0].kind, "struct");
    assert_eq!(candidates[0].line, 1);
    assert!(candidates[0].file.ends_with("a.rs"));
    assert!(candidates[1].file.ends_with("b.rs"));
    assert!(out.data.applied.is_none());
    assert!(out.data.skipped.is_none());
    assert!(out.data.errors.is_none());
}

#[test]
fn rename_with_anchor_picks_matching_definition() {
    let mut idx = Index::new();
    idx.definitions = vec![def("src/a.rs", 1, 0, 20), def("src/b.rs", 1, 0, 20)];
    idx.references = vec![
        user_ref("src/a.rs", 3, 14, 40),
        user_ref("src/b.rs", 3, 14, 40),
    ];
    let out = run(&idx, &args(Some("src/a.rs:1")));
    assert_eq!(out.code, 0);
    assert!(out.data.needs_anchor.is_none());
    let applied = out.data.applied.as_ref().unwrap();
    for f in applied {
        assert!(
            f.file.ends_with("a.rs") || f.file.ends_with("lib.rs"),
            "anchor picked struct in a.rs; b.rs should not appear: {}",
            f.file
        );
    }
    let bad = applied.iter().find(|f| f.file.ends_with("b.rs"));
    assert!(bad.is_none(), "b.rs should not be in applied with anchor a.rs:1: {bad:?}");
    assert_eq!(applied.len(), 1);
    assert_eq!(applied[0].file, "src/a.rs");
}

#[test]
fn rename_name_only_goes_to_skipped_low_confidence() {
    let mut idx = Index::new();
    idx.definitions = vec![def("src/lib.rs", 1, 0, 20), def("src/lib.rs", 9, 30, 50)];
    idx.references = vec![user_ref("src/unrelated.rs", 2, 5, 12)];
    let out = run(&idx, &args(None));
    let skipped = out.data.skipped.as_ref().unwrap();
    let low = skipped
        .iter()
        .find(|s| s.skip_reason == "low-confidence")
        .expect("one low-confidence skip");
    assert_eq!(low.confidence, "low");
    assert_eq!(low.reason, "name-only");
    assert_eq!(low.name, "User");
    assert!(low.file.ends_with("unrelated.rs"));
    let applied = out.data.applied.as_ref().unwrap();
    assert!(!applied.iter().any(|f| f.file.ends_with("unrelated.rs")));
}

#[test]
fn rename_alias_reexport_skipped_with_via_alias() {
    let mut idx = Index::new();
    idx.definitions = vec![def("src/inner.rs", 1, 0, 20)];
    idx.alias_reexports = vec![(
        "User".to_string(),
        vec![AliasReexport {
            file: "src/lib.rs".to_string(),
            line: 5,
            alias: "User".to_string(),
            original: "Bar".to_string(),
            module: "crate::inner".to_string(),
        }],
    )];
    let out = run(&idx, &args(None));
    let skipped = out.data.skipped.as_ref().unwrap();
    let alias: Vec<_> = skipped.iter().filter(|s| s.skip_reason == "re-export-alias").collect();
    assert_eq!(alias.len(), 1, "got {skipped:?}");
    assert!(alias[0].file.ends_with("lib.rs"));
    assert_eq!(alias[0].via_alias.as_deref(), Some("Bar"));
    assert!(alias[0].via_module.is_none());
}

#[test]
fn rename_wildcard_reexport_skipped_with_via_module() {
    let mut idx = Index::new();
    idx.definitions = vec![def("src/inner.rs", 1, 0, 20)];
    idx.wildcard_reexports = vec![(
        "inner".to_string(),
        vec![WildcardReexport {
            file: "src/lib.rs".to_string(),
            line: 2,
            module: "crate::inner".to_string(),
        }],
    )];
    let out = run(&idx, &args(None));
    let skipped = out.data.skipped.as_ref().unwrap();
    let wild: Vec<_> = skipped.iter().filter(|s| s.skip_reason == "wildcard-reexport").collect();
    assert_eq!(wild.len(), 1, "got {skipped:?}");
    assert!(wild[0].file.ends_with("lib.rs"));
    assert!(wild[0].via_module.as_deref().unwrap().contains("inner"));
    assert!(wild[0].via_alias.is_none());
}

#[test]
fn rename_apply_is_reported_as_not_a_dry_run() {
    let idx = same_file();
    let mut a = args(None);
    a.apply = true;
    let out = run(&idx, &a);
    assert!(!out.data.dry_run);
    assert_eq!(out.code, 0);
}

fn import(file: &str, local: &str, module: &str) -> codegraph_kit::index::Import {
    codegraph_kit::index::Import {
        file: file.to_string(),
        line: 3,
        local_name: local.to_string(),
        imported_name: local.to_string(),
        module: module.to_string(),
    }
}

#[test]
fn rename_cross_file_import_resolved() {
    let mut idx = Index::new();
    idx.definitions = vec![def("src/inner.rs", 1, 0, 40)];
    idx.imports = vec![import("src/lib.rs", "User", "crate::inner")];
    idx.references = vec![
        user_ref("src/lib.rs", 3, 19, 28),
        user_ref("src/lib.rs", 5, 26, 59),
        user_ref("src/lib.rs", 6, 5, 70),
    ];
    let out = run(&idx, &args(None));
    assert_eq!(out.code, 0);
    assert!(out.data.errors.as_ref().unwrap().is_empty());
    let applied = out.data.applied.as_ref().unwrap();
    assert!(!applied.is_empty() && applied.len() <= 2);
    let lib = applied.iter().find(|f| f.file.ends_with("lib.rs")).expect("lib.rs in applied");
    assert!(!lib.edits.is_empty());
    for e in &lib.edits {
        assert_eq!(e.old, "User");
        assert_eq!(e.new, "Account");
        assert_eq!(e.reason, "import-resolved");
        assert_eq!(e.confidence, "high");
    }
}

#[test]
fn rename_glob_import_medium_confidence_applied() {
    let mut idx = Index::new();
    idx.definitions = vec![def("src/inner.rs", 1, 0, 40)];
    let mut glob = import("src/lib.rs", "*", "crate::inner");
    glob.imported_name = "*".to_string();
    idx.imports = vec![glob];
    idx.references = vec![user_ref("src/lib.rs", 5, 26, 59)];
    let out = run(&idx, &args(None));
    assert_eq!(out.code, 0);
    let applied = out.data.applied.as_ref().unwrap();
    let lib = applied.iter().find(|f| f.file.ends_with("lib.rs")).expect("lib.rs should be in applied");
    assert!(!lib.edits.is_empty());
    for e in &lib.edits {
        assert_eq!(e.confidence, "medium");
    }
}

#[test]
fn rename_skips_an_indexed_alias_reexport() {
    let mut idx = Index::new();
    index_source(&mut idx, "src/inner.rs", "pub struct Bar;\npub struct User;\n", Language::Rust).unwrap();
    index_source(&mut idx, "src/lib.rs", "mod inner;\npub use inner::Bar as User;\n", Language::Rust).unwrap();
    let out = run(&idx, &args(None));
    let skipped = out.data.skipped.as_ref().unwrap();
    let alias: Vec<_> = skipped.iter().filter(|s| s.skip_reason == "re-export-alias").collect();
    assert_eq!(alias.len(), 1, "got {skipped:?}");
    assert!(alias[0].file.ends_with("lib.rs"));
    assert_eq!(alias[0].via_alias.as_deref(), Some("Bar"));
}

#[test]
fn rename_skips_an_indexed_wildcard_reexport() {
    let mut idx = Index::new();
    index_source(&mut idx, "src/inner.rs", "pub struct User;\n", Language::Rust).unwrap();
    index_source(&mut idx, "src/lib.rs", "mod inner;\npub use crate::inner::*;\n", Language::Rust).unwrap();
    let out = run(&idx, &args(None));
    let skipped = out.data.skipped.as_ref().unwrap();
    let wild: Vec<_> = skipped.iter().filter(|s| s.skip_reason == "wildcard-reexport").collect();
    assert_eq!(wild.len(), 1, "got {skipped:?}");
    assert!(wild[0].file.ends_with("lib.rs"));
    assert!(wild[0].via_module.as_deref().unwrap().contains("inner"));
}
