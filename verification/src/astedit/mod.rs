pub mod apply;
pub mod cli;
pub mod commands;
pub mod error;
pub mod rewrite;
pub mod serialize;
