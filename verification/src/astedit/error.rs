//! Every condition the editor reports in the `errors` list of its output.
use vstd::prelude::*;

verus! {

/// One reported condition; `kind()` gives its fixed `error_kind` text.
#[derive(Debug)]
pub enum AstEditError {
    ParseError { file: String, message: String },
    HashMismatch { file: String },
    ConcurrentWrite { file: String },
    NodeKindMismatch { file: String, line: usize, col: usize },
    WriteFailed { file: String, os_code: Option<i32>, message: String },
    PatternCompile { lang: String, message: String },
}

/// The kebab-case `error_kind` of each variant.
pub open spec fn error_kind_text(e: AstEditError) -> Seq<char> {
    match e {
        AstEditError::ParseError { .. } => "parse-error"@,
        AstEditError::HashMismatch { .. } => "hash-mismatch"@,
        AstEditError::ConcurrentWrite { .. } => "concurrent-write"@,
        AstEditError::NodeKindMismatch { .. } => "node-kind-mismatch"@,
        AstEditError::WriteFailed { .. } => "write-failed"@,
        AstEditError::PatternCompile { .. } => "pattern-compile"@,
    }
}

/// The file an error is attributed to; a pattern that fails to compile
/// concerns no file.
pub open spec fn error_file(e: AstEditError) -> Option<Seq<char>> {
    match e {
        AstEditError::ParseError { file, .. } => Some(file@),
        AstEditError::HashMismatch { file } => Some(file@),
        AstEditError::ConcurrentWrite { file } => Some(file@),
        AstEditError::NodeKindMismatch { file, .. } => Some(file@),
        AstEditError::WriteFailed { file, .. } => Some(file@),
        AstEditError::PatternCompile { .. } => None,
    }
}

/// Each `error_kind` text names exactly one variant.
pub proof fn lemma_kind_identifies_variant(e: AstEditError)
    ensures
        error_kind_text(e) == "parse-error"@ <==> e is ParseError,
        error_kind_text(e) == "hash-mismatch"@ <==> e is HashMismatch,
        error_kind_text(e) == "concurrent-write"@ <==> e is ConcurrentWrite,
        error_kind_text(e) == "node-kind-mismatch"@ <==> e is NodeKindMismatch,
        error_kind_text(e) == "write-failed"@ <==> e is WriteFailed,
        error_kind_text(e) == "pattern-compile"@ <==> e is PatternCompile,
{
    reveal_strlit("parse-error");
    reveal_strlit("hash-mismatch");
    reveal_strlit("concurrent-write");
    reveal_strlit("node-kind-mismatch");
    reveal_strlit("write-failed");
    reveal_strlit("pattern-compile");
    assert("parse-error"@.len() == 11);
    assert("hash-mismatch"@.len() == 13);
    assert("concurrent-write"@.len() == 16);
    assert("node-kind-mismatch"@.len() == 18);
    assert("write-failed"@.len() == 12);
    assert("pattern-compile"@.len() == 15);
}

impl AstEditError {
    pub fn kind(&self) -> (res: &'static str)
        ensures
            res@ == error_kind_text(*self),
    {
        match self {
            AstEditError::ParseError { .. } => "parse-error",
            AstEditError::HashMismatch { .. } => "hash-mismatch",
            AstEditError::ConcurrentWrite { .. } => "concurrent-write",
            AstEditError::NodeKindMismatch { .. } => "node-kind-mismatch",
            AstEditError::WriteFailed { .. } => "write-failed",
            AstEditError::PatternCompile { .. } => "pattern-compile",
        }
    }

    pub fn file(&self) -> (res: Option<&str>)
        ensures
            match res {
                Some(f) => error_file(*self) == Some(f@),
                None => error_file(*self) is None,
            },
    {
        match self {
            AstEditError::ParseError { file, .. } => Some(file.as_str()),
            AstEditError::HashMismatch { file } => Some(file.as_str()),
            AstEditError::ConcurrentWrite { file } => Some(file.as_str()),
            AstEditError::NodeKindMismatch { file, .. } => Some(file.as_str()),
            AstEditError::WriteFailed { file, .. } => Some(file.as_str()),
            AstEditError::PatternCompile { .. } => None,
        }
    }
}

} // verus!
