use codegraph_kit::astedit::commands::rewrite::{
    apply_or_dry_run, compile_check, langs_to_process, parse_lang_filter, relative_path,
    rewrite_outcome, rewrite_step, splice_edits, FileResult, FileStep,
};
use codegraph_kit::astedit::serialize::{ErrorEntry, RewriteAppliedFile};
use codegraph_kit::astedit::error::AstEditError;
use codegraph_kit::astedit::rewrite::{rewrite_file, RewriteSite};
use codegraph_kit::astedit::serialize::RewriteEdit;
use codegraph_kit::lang::Language;

fn site(start: usize, old: &str, new: &str, line: usize, col: usize) -> RewriteSite {
    RewriteSite {
        start_byte: start,
        end_byte: start + old.len(),
        line,
        col,
        old: old.to_string(),
        new: new.to_string(),
    }
}

#[test]
fn lang_filter_accepts_the_five_names() {
    assert!(parse_lang_filter(None).unwrap().is_none());
    assert_eq!(parse_lang_filter(Some("rust")).unwrap(), Some(Language::Rust));
    assert_eq!(parse_lang_filter(Some("typescript")).unwrap(), Some(Language::TypeScript));
    assert_eq!(parse_lang_filter(Some("tsx")).unwrap(), Some(Language::Tsx));
    assert_eq!(parse_lang_filter(Some("javascript")).unwrap(), Some(Language::JavaScript));
    assert_eq!(parse_lang_filter(Some("python")).unwrap(), Some(Language::Python));
    for l in [Language::Rust, Language::TypeScript, Language::Tsx, Language::JavaScript, Language::Python] {
        assert_eq!(parse_lang_filter(Some(l.name())).unwrap(), Some(l));
    }
}

#[test]
fn lang_filter_rejects_other_names() {
    let err = parse_lang_filter(Some("go")).unwrap_err();
    assert_eq!(err.name, "go");
    assert!(parse_lang_filter(Some("Rust")).is_err());
}

#[test]
fn relative_path_strips_the_root() {
    assert_eq!(relative_path("/tmp/proj/src/main.rs", "/tmp/proj"), "src/main.rs");
    assert_eq!(relative_path("/elsewhere/x.rs", "/tmp/proj"), "/elsewhere/x.rs");
    assert_eq!(relative_path("a\\b.rs", "/tmp"), "a/b.rs");
}

#[test]
fn languages_are_processed_once_each_in_order_of_appearance() {
    let langs = vec![Language::Python, Language::Rust, Language::Python, Language::Tsx, Language::Rust];
    assert_eq!(
        langs_to_process(&langs, None),
        vec![Language::Python, Language::Rust, Language::Tsx]
    );
    assert_eq!(langs_to_process(&langs, Some(Language::Rust)), vec![Language::Rust]);
    assert!(langs_to_process(&langs, Some(Language::JavaScript)).is_empty());
}

#[test]
fn compile_check_flags_a_broken_pattern() {
    let (errors, failed) = compile_check("(((", "x", &vec![Language::Rust]);
    assert!(failed);
    assert_eq!(errors.len(), 1);
    assert_eq!(errors[0].error_kind, "pattern-compile");
    assert_eq!(errors[0].lang.as_deref(), Some("rust"));
    let (errors, failed) = compile_check("println!($A)", "eprintln!($A)", &vec![Language::Rust]);
    assert!(!failed);
    assert!(errors.is_empty());
}

#[test]
fn compile_check_reports_each_language_in_order() {
    let (errors, failed) = compile_check("(((", "x", &vec![Language::Rust, Language::Python]);
    assert!(failed);
    assert_eq!(errors.len(), 2);
    assert_eq!(errors[0].lang.as_deref(), Some("rust"));
    assert_eq!(errors[1].lang.as_deref(), Some("python"));
    assert!(errors.iter().all(|e| e.error_kind == "pattern-compile" && e.file.is_none()));
    assert!(errors.iter().all(|e| e.message.as_deref().map_or(false, |m| !m.is_empty())));
}

#[test]
fn dry_run_reports_edits_last_first_and_writes_nothing() {
    let source = "print(1)\nprint(22)\n";
    let sites = vec![site(0, "print(1)", "log(1)", 1, 1), site(9, "print(22)", "log(22)", 2, 1)];
    let r = apply_or_dry_run("m.py", source, &sites, false).unwrap();
    assert!(r.new_bytes.is_none());
    assert_eq!(r.entry.file, "m.py");
    assert_eq!(r.entry.bytes_changed, -4);
    assert_eq!(r.entry.edits.len(), 2);
    assert_eq!(r.entry.edits[0].start_byte, 9);
    assert_eq!(r.entry.edits[1].start_byte, 0);
}

#[test]
fn apply_splices_every_edit() {
    let source = "print(1)\nprint(22)\n";
    let sites = vec![site(0, "print(1)", "log(1)", 1, 1), site(9, "print(22)", "log(22)", 2, 1)];
    let r = apply_or_dry_run("m.py", source, &sites, true).unwrap();
    let bytes = r.new_bytes.unwrap();
    assert_eq!(bytes.len() as i64, source.len() as i64 + r.entry.bytes_changed);
    assert_eq!(String::from_utf8(bytes).unwrap(), "log(1)\nlog(22)\n");
    assert_eq!(r.entry.bytes_changed, -4);
}

#[test]
fn apply_refuses_a_site_whose_text_moved() {
    let source = "print(1)\n";
    let sites = vec![site(1, "print(1)", "log(1)", 1, 2)];
    let err = apply_or_dry_run("m.py", source, &sites, true).unwrap_err();
    match err {
        AstEditError::NodeKindMismatch { file, line, col } => {
            assert_eq!(file, "m.py");
            assert_eq!((line, col), (1, 2));
        }
        other => panic!("unexpected {other:?}"),
    }
}

#[test]
fn splice_edits_applies_in_order() {
    let edits = vec![
        RewriteEdit { line: 1, col: 4, start_byte: 3, end_byte: 4, old: "b".into(), new: "BB".into() },
        RewriteEdit { line: 1, col: 1, start_byte: 0, end_byte: 1, old: "a".into(), new: "".into() },
    ];
    let out = splice_edits(b"a..b".to_vec(), &edits).unwrap();
    assert_eq!(out, b"..BB".to_vec());
    let bad = vec![RewriteEdit { line: 7, col: 3, start_byte: 0, end_byte: 9, old: "x".into(), new: "y".into() }];
    assert_eq!(splice_edits(b"abc".to_vec(), &bad), Err((7, 3)));
}

#[test]
fn rewrite_rust_two_matches_end_to_end() {
    let source = "fn main() {\n    println!(\"hi\");\n    println!(\"there\");\n}\n";
    let sites = rewrite_file(source, "println!($A)", "eprintln!($A)", Language::Rust).unwrap();
    assert_eq!(sites.len(), 2);
    let dry = apply_or_dry_run("src/main.rs", source, &sites, false).unwrap();
    assert_eq!(dry.entry.edits.len(), 2);
    assert!(dry.entry.edits.iter().all(|e| e.old.starts_with("println!") && e.new.starts_with("eprintln!")));
    assert_eq!(dry.entry.bytes_changed, 2);
    let applied = apply_or_dry_run("src/main.rs", source, &sites, true).unwrap();
    let text = String::from_utf8(applied.new_bytes.unwrap()).unwrap();
    assert_eq!(text, "fn main() {\n    eprintln!(\"hi\");\n    eprintln!(\"there\");\n}\n");
}

#[test]
fn rewrite_multimatch_metavar_preserves_argument_list() {
    let source = "fn f() {\n    log(\"a\", 1, true);\n    log(\"b\");\n}\n";
    let sites = rewrite_file(source, "log($$$ARGS)", "tracing::info!($$$ARGS)", Language::Rust).unwrap();
    assert_eq!(sites.len(), 2, "sites: {sites:?}");
    let news: Vec<&str> = sites.iter().map(|s| s.new.as_str()).collect();
    assert!(news.iter().any(|n| n.contains("\"a\", 1, true")), "news = {news:?}");
    assert!(news.iter().any(|n| n.contains("(\"b\")")), "news = {news:?}");
}

#[test]
fn rewrite_single_metavar_substituted_in_replacement() {
    let source = "fn f() {\n    let a = String::from(\"alice\");\n    let b = String::from(\"bob\");\n}\n";
    let sites = rewrite_file(source, "String::from($S)", "String::from($S.to_owned())", Language::Rust)
        .unwrap();
    let news: Vec<&str> = sites.iter().map(|s| s.new.as_str()).collect();
    assert!(news.iter().any(|n| n.contains("\"alice\".to_owned()")), "news = {news:?}");
    assert!(news.iter().any(|n| n.contains("\"bob\".to_owned()")), "news = {news:?}");
}

#[test]
fn rewrite_typescript_and_javascript_match() {
    let source = "console.log(a);\nconsole.log(b);\n";
    for lang in [Language::TypeScript, Language::JavaScript, Language::Tsx] {
        let sites = rewrite_file(source, "console.log($A)", "console.error($A)", lang).unwrap();
        assert_eq!(sites.len(), 2, "{lang:?}");
        assert!(sites.iter().all(|s| s.old.starts_with("console.log") && s.new.starts_with("console.error")));
    }
}

#[test]
fn a_file_step_skips_other_languages_and_files_without_a_match() {
    let step = rewrite_step("a.rs", "fn f() {}", "println!($A)", "eprintln!($A)", Language::Rust, Some(Language::Python), false);
    assert!(matches!(step, FileStep::Skipped));
    let step = rewrite_step("a.rs", "fn f() {}", "println!($A)", "eprintln!($A)", Language::Rust, None, false);
    assert!(matches!(step, FileStep::Skipped));
}

#[test]
fn a_file_step_reports_its_entry_and_applies() {
    let src = "fn f() { println!(\"a\"); }";
    let step = rewrite_step("a.rs", src, "println!($A)", "eprintln!($A)", Language::Rust, Some(Language::Rust), true);
    let FileStep::Rewritten(r) = step else { panic!("expected a rewrite") };
    assert_eq!(r.entry.file, "a.rs");
    assert_eq!(r.entry.edits.len(), 1);
    assert_eq!(r.entry.bytes_changed, 1);
    let bytes = r.new_bytes.expect("applied bytes");
    assert_eq!(String::from_utf8(bytes).unwrap(), "fn f() { eprintln!(\"a\"); }");
    let step = rewrite_step("a.rs", src, "(((", "x", Language::Rust, None, false);
    assert!(matches!(step, FileStep::Failed(AstEditError::PatternCompile { .. })));
}

fn entry(file: &str) -> RewriteAppliedFile {
    RewriteAppliedFile { file: file.to_string(), bytes_changed: 0, edits: vec![] }
}

fn err(kind: &'static str) -> ErrorEntry {
    ErrorEntry { error_kind: kind, file: None, message: None, os_code: None, line: None, col: None, lang: None }
}

#[test]
fn the_outcome_keeps_files_in_order_and_exits_zero() {
    let files = vec![
        FileResult::Applied(entry("a.rs")),
        FileResult::Skipped,
        FileResult::Error(err("parse-error")),
        FileResult::Applied(entry("b.rs")),
    ];
    let (data, code) = rewrite_outcome(vec![], false, files, false);
    assert_eq!(code, 0);
    assert_eq!(data.subcommand, "rewrite");
    assert!(data.dry_run);
    let applied = data.applied.unwrap();
    assert_eq!(applied.iter().map(|a| a.file.as_str()).collect::<Vec<_>>(), vec!["a.rs", "b.rs"]);
    assert_eq!(data.errors.unwrap().len(), 1);
}

#[test]
fn a_compile_failure_rewrites_nothing_and_exits_two() {
    let files = vec![FileResult::Applied(entry("a.rs"))];
    let (data, code) = rewrite_outcome(vec![err("pattern-compile")], true, files, true);
    assert_eq!(code, 2);
    assert!(!data.dry_run);
    assert!(data.applied.unwrap().is_empty());
    let errors = data.errors.unwrap();
    assert_eq!(errors.len(), 1);
    assert_eq!(errors[0].error_kind, "pattern-compile");
}
