//! Chunking of source files for semantic code search, with the decisions
//! around indexing and searching them.

pub mod text;
pub mod chunk;
pub mod syntax;
pub mod preamble;
pub mod declarations;
pub mod config;
pub mod number;
pub mod index;
pub mod embed;
pub mod search;
pub mod markdown_laws;
