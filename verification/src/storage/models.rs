//! The rows of the index, as far as the tools read them.
use vstd::prelude::*;

verus! {

/// An indexed file.
#[derive(Debug)]
pub struct FileRow {
    pub id: i64,
    pub path: String,
    pub language: String,
    /// The number of commits that changed the file.
    pub change_count: i64,
}

/// An indexed symbol.
#[derive(Debug)]
pub struct SymbolRow {
    pub name: String,
    pub kind: String,
    pub line_start: u32,
    pub line_end: u32,
    pub file_id: i64,
    pub is_exported: bool,
    pub complexity: Option<u32>,
}

}
