//! The payloads of the editor's output, with a mathematical view of each so
//! that contracts can speak of whole results.
use vstd::prelude::*;

use crate::astedit::error::{error_file, error_kind_text, AstEditError};

verus! {

pub open spec fn opt_view(s: Option<String>) -> Option<Seq<char>> {
    match s {
        Some(s) => Some(s@),
        None => None,
    }
}

/// The payload of `rename`.
#[derive(Debug)]
pub struct RenameData {
    /// Always `rename`.
    pub subcommand: &'static str,
    pub dry_run: bool,
    pub needs_anchor: Option<bool>,
    pub candidates: Option<Vec<Candidate>>,
    pub applied: Option<Vec<AppliedFile>>,
    pub skipped: Option<Vec<SkippedSite>>,
    pub errors: Option<Vec<ErrorEntry>>,
}

#[derive(Debug)]
pub struct Candidate {
    pub file: String,
    pub line: usize,
    /// The definition's kind (`fn`, `struct`, ...).
    pub kind: String,
}

#[derive(Debug)]
pub struct AppliedFile {
    pub file: String,
    pub bytes_changed: i64,
    pub edits: Vec<AppliedEdit>,
}

#[derive(Debug)]
pub struct AppliedEdit {
    pub line: usize,
    pub col: usize,
    pub start_byte: usize,
    pub end_byte: usize,
    pub old: String,
    pub new: String,
    /// `high` or `medium`.
    pub confidence: &'static str,
    pub reason: &'static str,
}

#[derive(Debug)]
pub struct SkippedSite {
    pub file: String,
    pub line: usize,
    pub col: usize,
    pub start_byte: usize,
    pub end_byte: usize,
    pub name: String,
    pub confidence: &'static str,
    pub reason: &'static str,
    /// `low-confidence`, `re-export-alias` or `wildcard-reexport`.
    pub skip_reason: &'static str,
    /// Only for `re-export-alias`.
    pub via_alias: Option<String>,
    /// Only for `wildcard-reexport`.
    pub via_module: Option<String>,
}

#[derive(Debug)]
pub struct ErrorEntry {
    pub error_kind: &'static str,
    pub file: Option<String>,
    pub message: Option<String>,
    pub os_code: Option<i32>,
    pub line: Option<usize>,
    pub col: Option<usize>,
    pub lang: Option<String>,
}

/// The payload of `rewrite`.
#[derive(Debug)]
pub struct RewriteData {
    /// Always `rewrite`.
    pub subcommand: &'static str,
    pub dry_run: bool,
    pub applied: Option<Vec<RewriteAppliedFile>>,
    pub errors: Option<Vec<ErrorEntry>>,
}

/// One file's rewrite edits.
#[derive(Debug)]
pub struct RewriteAppliedFile {
    pub file: String,
    pub bytes_changed: i64,
    pub edits: Vec<RewriteEdit>,
}

/// One structural rewrite edit; structural matches carry no confidence.
#[derive(Debug)]
pub struct RewriteEdit {
    pub line: usize,
    pub col: usize,
    pub start_byte: usize,
    pub end_byte: usize,
    pub old: String,
    pub new: String,
}

// ---------------------------------------------------------------------------
// Views
// ---------------------------------------------------------------------------
pub struct CandidateView {
    pub file: Seq<char>,
    pub line: usize,
    pub kind: Seq<char>,
}

pub struct AppliedEditView {
    pub line: usize,
    pub col: usize,
    pub start_byte: usize,
    pub end_byte: usize,
    pub old: Seq<char>,
    pub new: Seq<char>,
    pub confidence: Seq<char>,
    pub reason: Seq<char>,
}

pub struct AppliedFileView {
    pub file: Seq<char>,
    pub bytes_changed: i64,
    pub edits: Seq<AppliedEditView>,
}

pub struct SkippedSiteView {
    pub file: Seq<char>,
    pub line: usize,
    pub col: usize,
    pub start_byte: usize,
    pub end_byte: usize,
    pub name: Seq<char>,
    pub confidence: Seq<char>,
    pub reason: Seq<char>,
    pub skip_reason: Seq<char>,
    pub via_alias: Option<Seq<char>>,
    pub via_module: Option<Seq<char>>,
}

pub struct ErrorEntryView {
    pub error_kind: Seq<char>,
    pub file: Option<Seq<char>>,
    pub message: Option<Seq<char>>,
    pub os_code: Option<i32>,
    pub line: Option<usize>,
    pub col: Option<usize>,
    pub lang: Option<Seq<char>>,
}

pub struct RewriteEditView {
    pub line: usize,
    pub col: usize,
    pub start_byte: usize,
    pub end_byte: usize,
    pub old: Seq<char>,
    pub new: Seq<char>,
}

pub struct RewriteAppliedFileView {
    pub file: Seq<char>,
    pub bytes_changed: i64,
    pub edits: Seq<RewriteEditView>,
}

impl View for Candidate {
    type V = CandidateView;

    open spec fn view(&self) -> CandidateView {
        CandidateView { file: self.file@, line: self.line, kind: self.kind@ }
    }
}

impl View for AppliedEdit {
    type V = AppliedEditView;

    open spec fn view(&self) -> AppliedEditView {
        AppliedEditView {
            line: self.line,
            col: self.col,
            start_byte: self.start_byte,
            end_byte: self.end_byte,
            old: self.old@,
            new: self.new@,
            confidence: self.confidence@,
            reason: self.reason@,
        }
    }
}

impl View for AppliedFile {
    type V = AppliedFileView;

    open spec fn view(&self) -> AppliedFileView {
        AppliedFileView {
            file: self.file@,
            bytes_changed: self.bytes_changed,
            edits: self.edits@.map_values(|e: AppliedEdit| e@),
        }
    }
}

impl View for SkippedSite {
    type V = SkippedSiteView;

    open spec fn view(&self) -> SkippedSiteView {
        SkippedSiteView {
            file: self.file@,
            line: self.line,
            col: self.col,
            start_byte: self.start_byte,
            end_byte: self.end_byte,
            name: self.name@,
            confidence: self.confidence@,
            reason: self.reason@,
            skip_reason: self.skip_reason@,
            via_alias: opt_view(self.via_alias),
            via_module: opt_view(self.via_module),
        }
    }
}

impl View for ErrorEntry {
    type V = ErrorEntryView;

    open spec fn view(&self) -> ErrorEntryView {
        ErrorEntryView {
            error_kind: self.error_kind@,
            file: opt_view(self.file),
            message: opt_view(self.message),
            os_code: self.os_code,
            line: self.line,
            col: self.col,
            lang: opt_view(self.lang),
        }
    }
}

impl View for RewriteEdit {
    type V = RewriteEditView;

    open spec fn view(&self) -> RewriteEditView {
        RewriteEditView {
            line: self.line,
            col: self.col,
            start_byte: self.start_byte,
            end_byte: self.end_byte,
            old: self.old@,
            new: self.new@,
        }
    }
}

impl View for RewriteAppliedFile {
    type V = RewriteAppliedFileView;

    open spec fn view(&self) -> RewriteAppliedFileView {
        RewriteAppliedFileView {
            file: self.file@,
            bytes_changed: self.bytes_changed,
            edits: self.edits@.map_values(|e: RewriteEdit| e@),
        }
    }
}

/// The error entry reported for `e`: its kind and file, plus the message,
/// OS code, position or language that its variant carries.
pub open spec fn error_entry_of(e: AstEditError) -> ErrorEntryView {
    let base = ErrorEntryView {
        error_kind: error_kind_text(e),
        file: error_file(e),
        message: None,
        os_code: None,
        line: None,
        col: None,
        lang: None,
    };
    match e {
        AstEditError::ParseError { message, .. } => ErrorEntryView { message: Some(message@), ..base },
        AstEditError::HashMismatch { .. } => base,
        AstEditError::ConcurrentWrite { .. } => base,
        AstEditError::NodeKindMismatch { line, col, .. } => ErrorEntryView {
            line: Some(line),
            col: Some(col),
            ..base
        },
        AstEditError::WriteFailed { os_code, message, .. } => ErrorEntryView {
            os_code: os_code,
            message: Some(message@),
            ..base
        },
        AstEditError::PatternCompile { lang, message } => ErrorEntryView {
            lang: Some(lang@),
            message: Some(message@),
            ..base
        },
    }
}

fn opt_owned(s: Option<&str>) -> (res: Option<String>)
    ensures
        match s {
            Some(s) => opt_view(res) == Some(s@),
            None => res is None,
        },
{
    match s {
        Some(s) => Some(s.to_owned()),
        None => None,
    }
}

impl ErrorEntry {
    /// The entry that reports `e`.
    pub fn from(e: &AstEditError) -> (res: ErrorEntry)
        ensures
            res@ == error_entry_of(*e),
    {
        let mut entry = ErrorEntry {
            error_kind: e.kind(),
            file: opt_owned(e.file()),
            message: None,
            os_code: None,
            line: None,
            col: None,
            lang: None,
        };
        match e {
            AstEditError::ParseError { message, .. } => entry.message = Some(message.clone()),
            AstEditError::HashMismatch { .. } => {},
            AstEditError::ConcurrentWrite { .. } => {},
            AstEditError::NodeKindMismatch { line, col, .. } => {
                entry.line = Some(*line);
                entry.col = Some(*col);
            },
            AstEditError::WriteFailed { os_code, message, .. } => {
                entry.os_code = *os_code;
                entry.message = Some(message.clone());
            },
            AstEditError::PatternCompile { lang, message } => {
                entry.lang = Some(lang.clone());
                entry.message = Some(message.clone());
            },
        }
        entry
    }
}

} // verus!
