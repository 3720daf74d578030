//! The survey tool's command line, as plain values.
use vstd::prelude::*;

verus! {

/// `codemap <command>`.
#[derive(Debug)]
pub struct Cli {
    pub command: Command,
}

#[derive(Debug)]
pub enum Command {
    /// List source files grouped by language.
    Files(FilesArgs),
    /// Print the directory tree (respecting `.gitignore`).
    Tree(TreeArgs),
    /// Extract the symbols of a file, or of the whole project.
    Symbols(SymbolsArgs),
    /// Find symbols by name across the project.
    Find(FindArgs),
    /// Files, lines and symbol counts per kind.
    Stats(StatsArgs),
}

#[derive(Debug)]
pub struct FilesArgs {
    /// Project root (default `.`).
    pub path: String,
    pub json: bool,
}

#[derive(Debug)]
pub struct TreeArgs {
    pub path: String,
    pub json: bool,
}

#[derive(Debug)]
pub struct SymbolsArgs {
    /// File to inspect (relative to `path`), or `.` for the whole project.
    pub target: Option<String>,
    /// Inspect the whole project.
    pub all: bool,
    /// Kinds to keep (`fn`, `struct`, `enum`, `trait`, `class`, `interface`,
    /// `type`, `const`); all when empty.
    pub kind: Vec<String>,
    pub path: String,
    pub json: bool,
}

#[derive(Debug)]
pub struct FindArgs {
    /// Symbol name (a substring unless `exact`).
    pub name: String,
    pub exact: bool,
    pub path: String,
    pub json: bool,
}

#[derive(Debug)]
pub struct StatsArgs {
    pub path: String,
    pub json: bool,
}

} // verus!
