use codegraph_kit::astedit::apply::{drift_by_hash, race_check, unchanged_by_length};
use codegraph_kit::astedit::error::AstEditError;
use codegraph_kit::hash::hash_contents;
use codegraph_kit::index::{line_at, DefKind, FileMeta, RefKind};
use codegraph_kit::lang::Language;
use codegraph_kit::resolve::{Confidence, ResolveReason};

#[test]
fn languages_by_extension_and_name() {
    assert_eq!(Language::from_extension("rs"), Some(Language::Rust));
    assert_eq!(Language::from_extension("ts"), Some(Language::TypeScript));
    assert_eq!(Language::from_extension("tsx"), Some(Language::Tsx));
    for e in ["js", "mjs", "cjs"] {
        assert_eq!(Language::from_extension(e), Some(Language::JavaScript));
    }
    assert_eq!(Language::from_extension("py"), Some(Language::Python));
    assert_eq!(Language::from_extension("md"), None);
    assert_eq!(Language::from_extension("RS"), None);
    assert_eq!(Language::Tsx.name(), "tsx");
    assert_eq!(Language::JavaScript.name(), "javascript");
}

#[test]
fn capture_suffixes() {
    assert_eq!(DefKind::from_capture_suffix("def.method"), Some(DefKind::Method));
    assert_eq!(DefKind::from_capture_suffix("def.nope"), None);
    assert_eq!(DefKind::from_capture_suffix("fn"), None);
    assert_eq!(RefKind::from_capture_suffix("ref.call"), Some(RefKind::Call));
    assert_eq!(RefKind::from_capture_suffix("ref.reference"), Some(RefKind::Reference));
    assert_eq!(RefKind::from_capture_suffix("def.call"), None);
}

#[test]
fn confidence_and_reason_texts() {
    assert_eq!(Confidence::High.as_str(), "high");
    assert_eq!(Confidence::Medium.as_str(), "medium");
    assert_eq!(Confidence::Low.as_str(), "low");
    assert_eq!(ResolveReason::SameFileScope.as_str(), "same-file-scope");
    assert_eq!(ResolveReason::ImportResolved.as_str(), "import-resolved");
    assert_eq!(ResolveReason::NameOnly.as_str(), "name-only");
}

#[test]
fn line_at_trims_and_cuts_long_lines() {
    let src = "first\n   second line  \nthird";
    assert_eq!(line_at(src, 2), "second line");
    assert_eq!(line_at(src, 0), "first");
    assert_eq!(line_at(src, 9), "");
    let long = "x".repeat(250);
    let got = line_at(&long, 1);
    assert_eq!(got.chars().count(), 200);
    assert!(got.starts_with(&"x".repeat(199)));
    assert!(got.ends_with('…'));
}

#[test]
fn drift_is_judged_by_length_then_hash() {
    let meta = FileMeta { len: 5 };
    assert!(unchanged_by_length(&meta, 5));
    assert!(!unchanged_by_length(&meta, 11));
    let h = hash_contents(b"hello world");
    assert!(drift_by_hash("z.txt", Some(&h), &h).is_ok());
    let other = hash_contents(b"hello");
    match drift_by_hash("z.txt", Some(&other), &h) {
        Err(AstEditError::HashMismatch { file }) => assert_eq!(file, "z.txt"),
        x => panic!("expected hash-mismatch, got {x:?}"),
    }
    let e = drift_by_hash("z.txt", None, &h).unwrap_err();
    assert_eq!(e.kind(), "hash-mismatch");
}

#[test]
fn a_changed_length_before_writing_is_a_concurrent_write() {
    assert!(race_check("a.rs", 10, 10).is_ok());
    let e = race_check("a.rs", 10, 12).unwrap_err();
    assert_eq!(e.kind(), "concurrent-write");
    assert_eq!(e.file(), Some("a.rs"));
}
