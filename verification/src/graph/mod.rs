//! Cross-reference queries over an index: definitions of a name, the
//! callers and callees of a function, and the impact of changing a symbol.
pub mod callees;
pub mod callers;
pub mod cli;
pub mod find_refs;
pub mod impact;
pub mod walk;

use vstd::prelude::*;

use crate::index::{def_kind_text, DefKind, Reference};

verus! {

/// A place where a name is used, with its line of source.
#[derive(Debug)]
pub struct CallSite {
    pub file: String,
    pub line: usize,
    pub column: usize,
    pub context: String,
}

pub struct CallSiteView {
    pub file: Seq<char>,
    pub line: usize,
    pub column: usize,
    pub context: Seq<char>,
}

impl View for CallSite {
    type V = CallSiteView;

    open spec fn view(&self) -> CallSiteView {
        CallSiteView { file: self.file@, line: self.line, column: self.column, context: self.context@ }
    }
}

/// The site of reference `r`.
pub open spec fn site_of(r: Reference) -> CallSiteView {
    CallSiteView { file: r.file@, line: r.line, column: r.column, context: r.context@ }
}

/// The site of `r`, to report.
pub fn call_site(r: &Reference) -> (res: CallSite)
    ensures
        res@ == site_of(*r),
{
    CallSite { file: r.file.clone(), line: r.line, column: r.column, context: r.context.clone() }
}

pub open spec fn site_views(s: Seq<CallSite>) -> Seq<CallSiteView> {
    s.map_values(|c: CallSite| c@)
}

/// The lowercase name of a definition kind, as the results show it.
pub fn kind_label(k: DefKind) -> (res: &'static str)
    ensures
        res@ == def_kind_text(k),
{
    match k {
        DefKind::Fn => "fn",
        DefKind::Struct => "struct",
        DefKind::Enum => "enum",
        DefKind::Trait => "trait",
        DefKind::Class => "class",
        DefKind::Interface => "interface",
        DefKind::Type => "type",
        DefKind::Const => "const",
        DefKind::Method => "method",
    }
}

} // verus!
