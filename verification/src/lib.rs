//! Indexing, cross-referencing, surveying and editing source code, with
//! every function's behaviour stated in its contract and proved.
pub mod astedit;
pub mod error;
pub mod extract;
pub mod graph;
pub mod hash;
pub mod index;
pub mod lang;
pub mod query;
pub mod map;
pub mod order;
pub mod resolve;
pub mod text;
