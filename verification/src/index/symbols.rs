//! What an extractor reports of a source file.
use vstd::prelude::*;

use crate::text;

verus! {

/// The kind of an extracted symbol.
#[derive(Clone, Copy, Debug, PartialEq, Eq, Structural)]
pub enum SymbolKind {
    Function,
    Class,
    Variable,
    Module,
}

/// A symbol that a source file defines.
#[derive(Debug)]
pub struct ExtractedSymbol {
    pub name: String,
    pub kind: SymbolKind,
    /// The first line, counted from one.
    pub line_start: u32,
    /// The last line, counted from one.
    pub line_end: u32,
    pub signature: Option<String>,
    pub is_exported: bool,
    pub parent_idx: Option<usize>,
    pub unused_excluded: bool,
    pub complexity: Option<u32>,
    pub owner_type: Option<String>,
}

/// An import that a source file makes.
#[derive(Debug)]
pub struct ExtractedImport {
    pub source: String,
    pub specifiers: Vec<String>,
    pub is_reexport: bool,
}

/// Everything extracted from one source file.
#[derive(Debug)]
pub struct ParseResult {
    pub symbols: Vec<ExtractedSymbol>,
    pub imports: Vec<ExtractedImport>,
    /// The names of the symbols that the file refers to.
    pub references: Vec<String>,
}

/// An `ExtractedSymbol` as plain values.
pub struct SymbolModel {
    pub name: Seq<char>,
    pub kind: SymbolKind,
    pub line_start: int,
    pub line_end: int,
    pub signature: Option<Seq<char>>,
    pub is_exported: bool,
    pub parent_idx: Option<usize>,
    pub unused_excluded: bool,
    pub complexity: Option<u32>,
    pub owner_type: Option<Seq<char>>,
}

/// An `ExtractedImport` as plain values.
pub struct ImportModel {
    pub source: Seq<char>,
    pub specifiers: Seq<Seq<char>>,
    pub is_reexport: bool,
}

impl View for ExtractedSymbol {
    type V = SymbolModel;

    open spec fn view(&self) -> SymbolModel {
        SymbolModel {
            name: self.name@,
            kind: self.kind,
            line_start: self.line_start as int,
            line_end: self.line_end as int,
            signature: text::optional_text(self.signature),
            is_exported: self.is_exported,
            parent_idx: self.parent_idx,
            unused_excluded: self.unused_excluded,
            complexity: self.complexity,
            owner_type: text::optional_text(self.owner_type),
        }
    }
}

impl View for ExtractedImport {
    type V = ImportModel;

    open spec fn view(&self) -> ImportModel {
        ImportModel {
            source: self.source@,
            specifiers: crate::text::texts(self.specifiers@),
            is_reexport: self.is_reexport,
        }
    }
}

/// The models of a list of symbols.
pub open spec fn symbol_models(list: Seq<ExtractedSymbol>) -> Seq<SymbolModel> {
    Seq::new(list.len(), |i: int| list[i]@)
}

/// The models of a list of imports.
pub open spec fn import_models(list: Seq<ExtractedImport>) -> Seq<ImportModel> {
    Seq::new(list.len(), |i: int| list[i]@)
}

}
