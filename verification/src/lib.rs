//! Context compiler: turns a natural-language coding task into a compact,
//! ranked and trimmed context pack built from an indexed codebase.

pub mod text;
pub mod tree;
pub mod trim;
pub mod signal;
pub mod config;
pub mod store;
pub mod index;
pub mod embed;
pub mod rerank;
pub mod compile;
pub mod report;
