use codegraph_kit::graph::callees::callees;
use codegraph_kit::graph::callers::{callers, confidence_rank};
use codegraph_kit::graph::find_refs::find_refs;
use codegraph_kit::graph::impact::impact;
use codegraph_kit::graph::kind_label;
use codegraph_kit::index::{DefKind, Definition, Import, Index, RefKind, Reference};

fn def(file: &str, name: &str, kind: DefKind, line: usize, start: usize, end: usize) -> Definition {
    Definition {
        file: file.to_string(),
        name: name.to_string(),
        kind,
        line,
        column: 1,
        body_start_byte: start,
        body_end_byte: end,
        exported: true,
    }
}

fn imp(file: &str, name: &str, module: &str) -> Import {
    Import {
        file: file.to_string(),
        line: 1,
        local_name: name.to_string(),
        imported_name: name.to_string(),
        module: module.to_string(),
    }
}

fn rf(file: &str, name: &str, kind: RefKind, line: usize, column: usize, off: usize) -> Reference {
    Reference {
        file: file.to_string(),
        name: name.to_string(),
        kind,
        line,
        column,
        byte_offset: off,
        context: format!("line {line}"),
    }
}

/// The index of a small Rust project: `src/lib.rs` defines `User`,
/// `new_user` and `unused_helper`; `src/auth.rs` defines `authenticate` and
/// `revoke` (which calls `authenticate`); `src/handlers.rs` defines `login`
/// (calling `new_user` and `authenticate`) and `whoami`.
fn project() -> Index {
    let mut idx = Index::new();
    idx.definitions = vec![
        def("src/lib.rs", "User", DefKind::Struct, 4, 29, 80),
        def("src/lib.rs", "new_user", DefKind::Fn, 9, 82, 160),
        def("src/lib.rs", "unused_helper", DefKind::Fn, 13, 162, 200),
        def("src/auth.rs", "authenticate", DefKind::Fn, 3, 20, 80),
        def("src/auth.rs", "revoke", DefKind::Fn, 7, 82, 140),
        def("src/handlers.rs", "login", DefKind::Fn, 4, 60, 200),
        def("src/handlers.rs", "whoami", DefKind::Fn, 13, 202, 260),
    ];
    idx.imports = vec![
        imp("src/auth.rs", "User", "crate"),
        imp("src/handlers.rs", "authenticate", "crate::auth"),
        imp("src/handlers.rs", "new_user", "crate"),
        imp("src/handlers.rs", "User", "crate"),
    ];
    idx.references = vec![
        rf("src/lib.rs", "User", RefKind::Reference, 10, 5, 100),
        rf("src/auth.rs", "User", RefKind::Reference, 3, 24, 40),
        rf("src/auth.rs", "User", RefKind::Reference, 7, 18, 100),
        rf("src/auth.rs", "authenticate", RefKind::Call, 8, 5, 120),
        rf("src/handlers.rs", "User", RefKind::Reference, 4, 33, 95),
        rf("src/handlers.rs", "new_user", RefKind::Call, 5, 13, 110),
        rf("src/handlers.rs", "authenticate", RefKind::Call, 6, 8, 130),
        rf("src/handlers.rs", "User", RefKind::Reference, 13, 15, 230),
    ];
    idx
}

#[test]
fn cross_file_call_to_imported_fn_is_high_confidence() {
    let idx = project();
    let hits = find_refs(&idx, "authenticate");
    let call = hits
        .iter()
        .find(|h| h.file.ends_with("handlers.rs") && h.kind == "call")
        .expect("handlers.rs should contain a call to authenticate");
    assert_eq!(call.confidence, "high");
    assert_eq!(call.reason, "import-resolved");
}

#[test]
fn same_file_call_is_high_confidence() {
    let idx = project();
    let hits = find_refs(&idx, "authenticate");
    let call = hits
        .iter()
        .find(|h| h.file.ends_with("auth.rs") && h.kind == "call")
        .expect("auth.rs should call authenticate from revoke");
    assert_eq!(call.confidence, "high");
    assert_eq!(call.reason, "same-file-scope");
}

#[test]
fn unused_helper_has_definition_but_no_calls() {
    let idx = project();
    let hits = find_refs(&idx, "unused_helper");
    assert!(hits.iter().any(|h| h.kind == "definition"));
    assert!(!hits.iter().any(|h| h.kind == "call"), "got {hits:?}");
}

#[test]
fn find_refs_definition_context_is_lowercased_kind_and_name() {
    let idx = project();
    let hits = find_refs(&idx, "User");
    assert_eq!(hits[0].kind, "definition");
    assert_eq!(hits[0].context, "struct user");
    assert_eq!(hits[0].confidence, "high");
    assert_eq!(hits[0].reason, "same-file-scope");
    // one definition, then the five references in index order
    assert_eq!(hits.len(), 6);
    assert!(hits[1..].iter().all(|h| h.kind == "reference"));
}

#[test]
fn find_refs_on_empty_index_returns_nothing() {
    let idx = Index::new();
    assert!(find_refs(&idx, "Nonexistent").is_empty());
}

#[test]
fn callers_of_authenticate_includes_revoke_and_login() {
    let idx = project();
    let entries = callers(&idx, "authenticate", 1);
    let names: Vec<&str> = entries.iter().map(|e| e.name.as_str()).collect();
    assert!(names.contains(&"revoke"), "callers: {names:?}");
    assert!(names.contains(&"login"), "callers: {names:?}");
    assert!(!names.contains(&"whoami"), "callers: {names:?}");
    // sorted by file: src/auth.rs before src/handlers.rs
    assert_eq!(names, vec!["revoke", "login"]);
    assert_eq!(entries[1].confidence, "high");
    assert_eq!(entries[1].reason, "import-resolved");
    assert_eq!(entries[1].sites.len(), 1);
    assert_eq!(entries[1].sites[0].line, 6);
}

#[test]
fn callers_of_unused_helper_is_empty() {
    let idx = project();
    assert_eq!(callers(&idx, "unused_helper", 1).len(), 0);
}

#[test]
fn callers_depth_2_walks_one_more_hop() {
    let idx = project();
    let entries = callers(&idx, "authenticate", 2);
    assert!(entries.iter().all(|e| e.distance >= 1 && e.distance <= 2));
    assert!(entries.iter().any(|e| e.name == "revoke" && e.distance == 1));
    // nothing calls revoke or login here, so depth 2 finds the same callers
    assert_eq!(entries.len(), 2);
}

#[test]
fn callers_depth_2_reaches_the_caller_of_a_caller() {
    let mut idx = project();
    // `whoami` now calls `login` (inside whoami's body).
    idx.references.push(rf("src/handlers.rs", "login", RefKind::Call, 14, 5, 240));
    let entries = callers(&idx, "new_user", 2);
    let found: Vec<(&str, usize)> = entries.iter().map(|e| (e.name.as_str(), e.distance)).collect();
    assert_eq!(found, vec![("login", 1), ("whoami", 2)]);
    let one = callers(&idx, "new_user", 1);
    assert_eq!(one.len(), 1);
}

#[test]
fn callees_of_login_includes_new_user_and_authenticate() {
    let idx = project();
    let entries = callees(&idx, "login", 1);
    let names: Vec<&str> = entries.iter().map(|e| e.name.as_str()).collect();
    assert!(names.contains(&"new_user"), "names: {names:?}");
    assert!(names.contains(&"authenticate"), "names: {names:?}");
    // by distance then name
    assert_eq!(names, vec!["authenticate", "new_user"]);
    assert_eq!(entries[0].def_file.as_deref(), Some("src/auth.rs"));
    assert_eq!(entries[0].def_line, Some(3));
    assert_eq!(entries[0].kind, "fn");
    assert_eq!(entries[0].distance, 1);
}

#[test]
fn callees_of_missing_fn_errors_cleanly() {
    let idx = project();
    assert_eq!(callees(&idx, "definitely_not_a_function", 1).len(), 0);
}

#[test]
fn callees_depth_is_capped() {
    let idx = project();
    let deep = callees(&idx, "login", 100);
    assert!(deep.iter().all(|e| e.distance <= 8));
    let none = callees(&idx, "login", 0);
    assert!(none.is_empty());
}

#[test]
fn impact_of_authenticate_includes_login_and_revoke() {
    let idx = project();
    let entries = impact(&idx, "authenticate");
    let names: Vec<&str> = entries.iter().map(|e| e.name.as_str()).collect();
    assert!(names.contains(&"authenticate"));
    assert!(names.contains(&"login"));
    assert!(names.contains(&"revoke"));
    assert_eq!(entries[0].name, "authenticate");
    assert_eq!(entries[0].distance, 0);
    assert_eq!(entries[0].kind, "fn");
}

#[test]
fn impact_of_user_struct_includes_type_position_uses() {
    let idx = project();
    let entries = impact(&idx, "User");
    let names: Vec<&str> = entries.iter().map(|e| e.name.as_str()).collect();
    for fname in ["authenticate", "revoke", "whoami"] {
        assert!(names.contains(&fname), "impact of User missing {fname}: {names:?}");
    }
    // type-position uses do not propagate further
    assert!(entries.iter().all(|e| e.distance <= 1));
}

#[test]
fn impact_is_sorted_by_distance_then_file_then_line() {
    let idx = project();
    let entries = impact(&idx, "new_user");
    let keys: Vec<(usize, &str, usize)> =
        entries.iter().map(|e| (e.distance, e.file.as_str(), e.line)).collect();
    let mut sorted = keys.clone();
    sorted.sort();
    assert_eq!(keys, sorted);
    assert_eq!(keys[0], (0, "src/lib.rs", 9));
}

#[test]
fn kind_labels_and_confidence_ranks() {
    assert_eq!(kind_label(DefKind::Method), "method");
    assert_eq!(kind_label(DefKind::Interface), "interface");
    assert_eq!(confidence_rank("high"), 3);
    assert_eq!(confidence_rank("medium"), 2);
    assert_eq!(confidence_rank("low"), 1);
    assert_eq!(confidence_rank("anything"), 1);
}

#[test]
fn enclosing_definition_picks_the_innermost() {
    let mut idx = Index::new();
    idx.definitions = vec![
        def("a.ts", "Service", DefKind::Class, 1, 0, 100),
        def("a.ts", "run", DefKind::Method, 2, 10, 50),
    ];
    let d = idx.enclosing_definition("a.ts", 20).unwrap();
    assert_eq!(d.name, "run");
    let d = idx.enclosing_definition("a.ts", 60).unwrap();
    assert_eq!(d.name, "Service");
    assert!(idx.enclosing_definition("a.ts", 100).is_none());
    assert!(idx.enclosing_definition("b.ts", 20).is_none());
}

/// `f1` calls `f0`, `f2` calls `f1`, ... `f9` calls `f8`, all in one file.
fn chain() -> Index {
    let mut idx = Index::new();
    for i in 0..10usize {
        let start = i * 100;
        idx.definitions.push(def("src/chain.rs", &format!("f{i}"), DefKind::Fn, i + 1, start, start + 90));
        if i > 0 {
            idx.references.push(rf(
                "src/chain.rs",
                &format!("f{}", i - 1),
                RefKind::Call,
                i + 1,
                5,
                start + 10,
            ));
        }
    }
    idx
}

#[test]
fn impact_stops_six_calls_away() {
    let idx = chain();
    let entries = impact(&idx, "f0");
    let got: Vec<(&str, usize)> = entries.iter().map(|e| (e.name.as_str(), e.distance)).collect();
    assert_eq!(
        got,
        vec![("f0", 0), ("f1", 1), ("f2", 2), ("f3", 3), ("f4", 4), ("f5", 5), ("f6", 6)]
    );
}

#[test]
fn callees_stop_at_the_hard_cap() {
    let idx = chain();
    let entries = callees(&idx, "f9", 100);
    let got: Vec<(&str, usize)> = entries.iter().map(|e| (e.name.as_str(), e.distance)).collect();
    assert_eq!(
        got,
        vec![("f8", 1), ("f7", 2), ("f6", 3), ("f5", 4), ("f4", 5), ("f3", 6), ("f2", 7), ("f1", 8)]
    );
    assert_eq!(callees(&idx, "f9", 2).len(), 2);
}

#[test]
fn callers_walk_as_deep_as_asked() {
    let idx = chain();
    let entries = callers(&idx, "f0", 3);
    let got: Vec<(&str, usize)> = entries.iter().map(|e| (e.name.as_str(), e.distance)).collect();
    assert_eq!(got, vec![("f1", 1), ("f2", 2), ("f3", 3)]);
    assert!(callers(&idx, "f0", 0).is_empty());
}

#[test]
fn callers_keep_the_weakest_confidence_of_their_sites() {
    let mut idx = project();
    // a second definition of `authenticate` elsewhere makes a call from a file
    // without an import resolve by name only, at low confidence
    idx.definitions.push(def("src/other.rs", "authenticate", DefKind::Fn, 1, 0, 10));
    idx.definitions.push(def("src/cli.rs", "main", DefKind::Fn, 1, 0, 200));
    idx.references.push(rf("src/cli.rs", "authenticate", RefKind::Call, 3, 5, 40));
    idx.references.push(rf("src/cli.rs", "authenticate", RefKind::Call, 4, 5, 60));
    let entries = callers(&idx, "authenticate", 1);
    let main = entries.iter().find(|e| e.name == "main").unwrap();
    assert_eq!(main.confidence, "low");
    assert_eq!(main.reason, "name-only");
    assert_eq!(main.sites.len(), 2);
    // each caller once
    let mut keys: Vec<(&str, usize, usize)> = entries.iter().map(|e| (e.file.as_str(), e.line, e.column)).collect();
    let n = keys.len();
    keys.dedup();
    assert_eq!(keys.len(), n);
}

#[test]
fn enclosing_definition_prefers_the_first_of_equally_narrow() {
    let mut idx = Index::new();
    idx.definitions = vec![
        def("a.py", "outer", DefKind::Fn, 1, 0, 100),
        def("a.py", "first", DefKind::Fn, 2, 10, 40),
        def("a.py", "second", DefKind::Fn, 3, 10, 40),
    ];
    assert_eq!(idx.enclosing_definition("a.py", 15).unwrap().name, "first");
}
