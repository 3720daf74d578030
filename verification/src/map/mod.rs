//! Surveying a codebase: its source files and its directory tree.
pub mod cli;
pub mod stats;
pub mod tree;
pub mod walk;
