//! The tools that answer questions about the index.
pub mod treesitter;
pub mod rename;
pub mod tools;
