use codegraph_kit::astedit::error::AstEditError;
use codegraph_kit::astedit::serialize::ErrorEntry;

#[test]
fn error_kind_strings_match_spec() {
    assert_eq!(
        AstEditError::ParseError {
            file: "x".into(),
            message: "y".into()
        }
        .kind(),
        "parse-error"
    );
    assert_eq!(
        AstEditError::HashMismatch { file: "x".into() }.kind(),
        "hash-mismatch"
    );
    assert_eq!(
        AstEditError::ConcurrentWrite { file: "x".into() }.kind(),
        "concurrent-write"
    );
    assert_eq!(
        AstEditError::NodeKindMismatch {
            file: "x".into(),
            line: 1,
            col: 1
        }
        .kind(),
        "node-kind-mismatch"
    );
    assert_eq!(
        AstEditError::WriteFailed {
            file: "x".into(),
            os_code: None,
            message: "y".into()
        }
        .kind(),
        "write-failed"
    );
    assert_eq!(
        AstEditError::PatternCompile {
            lang: "rust".into(),
            message: "y".into()
        }
        .kind(),
        "pattern-compile"
    );
}

#[test]
fn error_entry_from_write_failed_carries_os_code() {
    let err = AstEditError::WriteFailed {
        file: "src/x.rs".into(),
        os_code: Some(13),
        message: "permission denied".into(),
    };
    let entry = ErrorEntry::from(&err);
    assert_eq!(entry.error_kind, "write-failed");
    assert_eq!(entry.file.as_deref(), Some("src/x.rs"));
    assert_eq!(entry.os_code, Some(13));
    assert_eq!(entry.message.as_deref(), Some("permission denied"));
    assert_eq!(entry.line, None);
    assert_eq!(entry.lang, None);
}

#[test]
fn error_file_is_absent_only_for_pattern_compile() {
    let e = AstEditError::PatternCompile { lang: "python".into(), message: "bad".into() };
    assert_eq!(e.file(), None);
    let e = AstEditError::NodeKindMismatch { file: "a.rs".into(), line: 3, col: 9 };
    assert_eq!(e.file(), Some("a.rs"));
}

#[test]
fn error_entry_from_node_kind_mismatch_carries_position() {
    let e = AstEditError::NodeKindMismatch { file: "a.rs".into(), line: 3, col: 9 };
    let entry = ErrorEntry::from(&e);
    assert_eq!(entry.error_kind, "node-kind-mismatch");
    assert_eq!(entry.file.as_deref(), Some("a.rs"));
    assert_eq!(entry.line, Some(3));
    assert_eq!(entry.col, Some(9));
    assert_eq!(entry.message, None);
}

#[test]
fn error_entry_from_pattern_compile_carries_lang_and_no_file() {
    let e = AstEditError::PatternCompile { lang: "rust".into(), message: "oops".into() };
    let entry = ErrorEntry::from(&e);
    assert_eq!(entry.error_kind, "pattern-compile");
    assert_eq!(entry.file, None);
    assert_eq!(entry.lang.as_deref(), Some("rust"));
    assert_eq!(entry.message.as_deref(), Some("oops"));
}

#[test]
fn error_entry_from_parse_error_and_hash_mismatch() {
    let e = AstEditError::ParseError { file: "m.py".into(), message: "eof".into() };
    let entry = ErrorEntry::from(&e);
    assert_eq!(entry.error_kind, "parse-error");
    assert_eq!(entry.message.as_deref(), Some("eof"));
    let e = AstEditError::HashMismatch { file: "m.py".into() };
    let entry = ErrorEntry::from(&e);
    assert_eq!(entry.error_kind, "hash-mismatch");
    assert_eq!(entry.message, None);
    let e = AstEditError::ConcurrentWrite { file: "m.py".into() };
    assert_eq!(ErrorEntry::from(&e).error_kind, "concurrent-write");
}
