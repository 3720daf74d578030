//! The editor's command line, as plain values.
use vstd::prelude::*;

verus! {

/// `astedit <command>`.
#[derive(Debug)]
pub struct Cli {
    pub command: Command,
}

#[derive(Debug)]
pub enum Command {
    /// Rename a symbol across the project (dry run unless `apply`).
    Rename(RenameArgs),
    /// Structural rewrite with an ast-grep pattern (dry run unless `apply`).
    Rewrite(RewriteArgs),
}

#[derive(Debug)]
pub struct RenameArgs {
    /// The symbol's current name.
    pub old: String,
    /// The new name.
    pub new: String,
    /// Project root to scan.
    pub path: String,
    /// Write the edits; without it the edits are only reported.
    pub apply: bool,
    /// Emit the JSON envelope.
    pub json: bool,
    /// Optional language hint.
    pub lang: Option<String>,
    /// `FILE:LINE` of the definition to rename when several files define
    /// the name; `FILE` is a definition's repo-relative path.
    pub anchor: Option<String>,
}

#[derive(Debug)]
pub struct RewriteArgs {
    /// ast-grep pattern (`$X` captures one node, `$$$X` several).
    pub pattern: String,
    /// Replacement template; may use the pattern's metavariables.
    pub rewrite: String,
    /// Project root to scan.
    pub path: String,
    /// Write the edits; without it the edits are only reported.
    pub apply: bool,
    /// Emit the JSON envelope.
    pub json: bool,
    /// Restrict to one language.
    pub lang: Option<String>,
}

} // verus!
