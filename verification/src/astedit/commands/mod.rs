pub mod rename;
pub mod rewrite;
