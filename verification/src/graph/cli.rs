//! The cross-reference tool's command line, as plain values.
use vstd::prelude::*;

verus! {

/// `codegraph <command>`.
#[derive(Debug)]
pub struct Cli {
    pub command: Command,
}

#[derive(Debug)]
pub enum Command {
    /// Find references to a name across the project.
    FindRefs(FindRefsArgs),
    /// List the functions that call a function.
    Callers(CallersArgs),
    /// List the functions a function calls.
    Callees(CalleesArgs),
    /// Transitive callers and type users of a symbol.
    Impact(ImpactArgs),
}

#[derive(Debug)]
pub struct FindRefsArgs {
    pub name: String,
    /// Project root (default `.`).
    pub path: String,
    pub json: bool,
}

#[derive(Debug)]
pub struct CallersArgs {
    pub name: String,
    /// How many calls away to look (1: direct callers; default 1).
    pub depth: usize,
    pub path: String,
    pub json: bool,
}

#[derive(Debug)]
pub struct CalleesArgs {
    pub name: String,
    /// How many calls away to look (default 1, at most 8).
    pub depth: usize,
    pub path: String,
    pub json: bool,
}

#[derive(Debug)]
pub struct ImpactArgs {
    pub name: String,
    pub path: String,
    pub json: bool,
}

} // verus!
