use codegraph_kit::astedit::error::AstEditError;
use codegraph_kit::astedit::rewrite::rewrite_file;
use codegraph_kit::lang::Language;

#[test]
fn rewrite_file_rust_simple_pattern() {
    let source = "fn make() { println!(\"hi\"); }";
    let sites = rewrite_file(source, "println!($A)", "eprintln!($A)", Language::Rust)
        .expect("compile + match");
    assert_eq!(sites.len(), 1, "one match expected; got {sites:?}");
    let s = &sites[0];
    assert_eq!(s.old, "println!(\"hi\")");
    assert_eq!(s.new, "eprintln!(\"hi\")");
    assert!(s.start_byte < s.end_byte);
    assert_eq!(s.line, 1);
}

#[test]
fn rewrite_file_no_match_returns_empty_vec() {
    let source = "fn main() {}";
    let sites = rewrite_file(source, "println!($A)", "eprintln!($A)", Language::Rust)
        .expect("compile ok, no matches");
    assert!(sites.is_empty(), "expected no matches; got {sites:?}");
}

#[test]
fn rewrite_file_invalid_pattern_returns_pattern_compile() {
    let source = "fn main() {}";
    let err = rewrite_file(source, "(((", "fn main() {}", Language::Rust)
        .expect_err("expected pattern compile failure");
    assert_eq!(err.kind(), "pattern-compile", "got: {err:?}");
    if let AstEditError::PatternCompile { lang, .. } = err {
        assert_eq!(lang, "rust");
    }
}

#[test]
fn rewrite_file_sites_are_one_based_with_byte_ranges() {
    let source = "fn a() {}\nfn b() { println!(\"x\"); }\n";
    let sites = rewrite_file(source, "println!($A)", "eprintln!($A)", Language::Rust).unwrap();
    assert_eq!(sites.len(), 1);
    let s = &sites[0];
    assert_eq!(s.line, 2);
    assert_eq!(s.col, 10);
    assert_eq!(&source[s.start_byte..s.end_byte], s.old);
}

#[test]
fn rewrite_file_python_print() {
    let source = "print(1)\nprint('a')\n";
    let sites = rewrite_file(source, "print($A)", "logging.info($A)", Language::Python).unwrap();
    assert_eq!(sites.len(), 2);
    assert_eq!(sites[0].new, "logging.info(1)");
    assert_eq!(sites[1].new, "logging.info('a')");
}
