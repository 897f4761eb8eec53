//! The index: what is extracted from source files.
pub mod languages;
pub mod symbols;
