//! Errors of the shared library helpers.
use vstd::prelude::*;

verus! {

/// A filesystem read or stat that failed, for the file at `path`.
#[derive(Debug)]
pub enum CoreError {
    Io { path: String, os_code: Option<i32>, message: String },
}

} // verus!
