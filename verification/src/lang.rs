//! The languages the index understands, and how a file extension selects one.
use vstd::prelude::*;

use crate::text::str_eq;

verus! {

#[derive(Debug, Clone, Copy, PartialEq, Eq, Structural)]
pub enum Language {
    Rust,
    TypeScript,
    Tsx,
    JavaScript,
    Python,
}

/// The three queries run over each parsed file.
#[derive(Debug, Clone, Copy, PartialEq, Eq, Structural)]
pub enum QueryKind {
    Defs,
    Imports,
    Refs,
}

/// The lowercase name of a language.
pub open spec fn language_name(l: Language) -> Seq<char> {
    match l {
        Language::Rust => "rust"@,
        Language::TypeScript => "typescript"@,
        Language::Tsx => "tsx"@,
        Language::JavaScript => "javascript"@,
        Language::Python => "python"@,
    }
}

/// The language a file extension selects, if any.
pub open spec fn language_for_extension(ext: Seq<char>) -> Option<Language> {
    if ext == "rs"@ {
        Some(Language::Rust)
    } else if ext == "ts"@ {
        Some(Language::TypeScript)
    } else if ext == "tsx"@ {
        Some(Language::Tsx)
    } else if ext == "js"@ || ext == "mjs"@ || ext == "cjs"@ {
        Some(Language::JavaScript)
    } else if ext == "py"@ {
        Some(Language::Python)
    } else {
        None
    }
}

impl Language {
    pub fn name(self) -> (res: &'static str)
        ensures
            res@ == language_name(self),
    {
        match self {
            Language::Rust => "rust",
            Language::TypeScript => "typescript",
            Language::Tsx => "tsx",
            Language::JavaScript => "javascript",
            Language::Python => "python",
        }
    }

    pub fn from_extension(ext: &str) -> (res: Option<Self>)
        ensures
            res == language_for_extension(ext@),
    {
        if str_eq(ext, "rs") {
            Some(Language::Rust)
        } else if str_eq(ext, "ts") {
            Some(Language::TypeScript)
        } else if str_eq(ext, "tsx") {
            Some(Language::Tsx)
        } else if str_eq(ext, "js") || str_eq(ext, "mjs") || str_eq(ext, "cjs") {
            Some(Language::JavaScript)
        } else if str_eq(ext, "py") {
            Some(Language::Python)
        } else {
            None
        }
    }
}

} // verus!
