//! Style sheets: selectors, key frames, media blocks, custom properties and
//! imports.
use vstd::prelude::*;
use vstd::string::*;

use crate::index::languages::common;
use crate::index::languages::common::{
    brace_or_first_line_signature, node_text, unquote,
};
use crate::index::symbols;
use crate::index::symbols::{
    ExtractedImport, ExtractedSymbol, ParseResult, SymbolKind,
};
#[allow(unused_imports)]
use crate::index::symbols::{ImportModel, SymbolModel};
use crate::syntax;
use crate::syntax::{tree_of, NodeRecord, SyntaxNode};
use crate::text;
use crate::text::{chars_of, collapse, cut_before, find, same, starts_with, trim};

verus! {

/// The index of the first node of kind `kind`, or their number where there is
/// none.
pub open spec fn first_of_kind(nodes: Seq<SyntaxNode>, kind: Seq<char>) -> nat
    decreases nodes.len(),
{
    if nodes.len() == 0 || nodes[0].kind@ == kind {
        0
    } else {
        1 + first_of_kind(nodes.drop_first(), kind)
    }
}

proof fn lemma_first_of_kind(nodes: Seq<SyntaxNode>, kind: Seq<char>, i: int)
    requires
        0 <= i <= nodes.len(),
        forall|k: int| 0 <= k < i ==> (#[trigger] nodes[k]).kind@ != kind,
        i < nodes.len() ==> nodes[i].kind@ == kind,
    ensures
        first_of_kind(nodes, kind) == i,
    decreases i,
{
    if i > 0 {
        let rest = nodes.drop_first();
        assert forall|k: int| 0 <= k < i - 1 implies (#[trigger] rest[k]).kind@ != kind by {
            assert(rest[k] == nodes[k + 1]);
        }
        lemma_first_of_kind(rest, kind, i - 1);
    }
}

fn find_kind(nodes: &Vec<SyntaxNode>, kind: &str) -> (r: usize)
    ensures
        r == first_of_kind(nodes@, kind@),
        r <= nodes@.len(),
        r < nodes@.len() ==> nodes@[r as int].kind@ == kind@,
{
    let n: usize = nodes.len();
    let mut i: usize = 0;
    while i < n && !same(nodes[i].kind.as_str(), kind)
        invariant
            n == nodes@.len(),
            i <= n,
            forall|k: int| 0 <= k < i ==> (#[trigger] nodes@[k]).kind@ != kind@,
        decreases n - i,
    {
        i = i + 1;
    }
    proof {
        lemma_first_of_kind(nodes@, kind@, i as int);
    }
    i
}

/// A symbol that stands at `node`.
pub open spec fn symbol_at(
    name: Seq<char>,
    kind: SymbolKind,
    node: SyntaxNode,
    signature: Option<Seq<char>>,
) -> SymbolModel {
    SymbolModel {
        name,
        kind,
        line_start: node.start_row + 1,
        line_end: node.end_row + 1,
        signature,
        is_exported: true,
        parent_idx: None,
        unused_excluded: false,
        complexity: None,
        owner_type: None,
    }
}

fn make_symbol(
    name: String,
    kind: SymbolKind,
    node: &SyntaxNode,
    signature: Option<String>,
) -> (r: ExtractedSymbol)
    requires
        node.start_row < u32::MAX,
        node.end_row < u32::MAX,
    ensures
        r@ == symbol_at(name@, kind, *node, text::optional_text(signature)),
{
    ExtractedSymbol {
        name,
        kind,
        line_start: node.start_row as u32 + 1,
        line_end: node.end_row as u32 + 1,
        signature,
        is_exported: true,
        parent_idx: None,
        unused_excluded: false,
        complexity: None,
        owner_type: None,
    }
}

/// The symbol of one top-level selector of a rule: none for punctuation, nor
/// for a selector without text. The name is the whole selector, its white
/// space collapsed.
pub open spec fn selector_symbol(
    selector: SyntaxNode,
    rule: SyntaxNode,
    source: Seq<u8>,
) -> Seq<SymbolModel> {
    let name = text::collapsed(common::text_or_empty(selector, source));
    if !selector.named || name.len() == 0 {
        Seq::empty()
    } else {
        seq![
            symbol_at(
                name,
                if selector.kind@ == "id_selector"@ {
                    SymbolKind::Variable
                } else {
                    SymbolKind::Class
                },
                rule,
                common::node_brace_signature(rule, source),
            ),
        ]
    }
}

/// The symbols of the first `n` selectors of a rule, in order.
pub open spec fn selector_symbols(
    selectors: Seq<SyntaxNode>,
    n: nat,
    rule: SyntaxNode,
    source: Seq<u8>,
) -> Seq<SymbolModel>
    decreases n,
{
    if n == 0 {
        Seq::empty()
    } else {
        selector_symbols(selectors, (n - 1) as nat, rule, source) + selector_symbol(
            selectors[n - 1],
            rule,
            source,
        )
    }
}

/// The symbols of a rule: those of its first list of selectors.
pub open spec fn rule_symbols(rule: SyntaxNode, source: Seq<u8>) -> Seq<SymbolModel> {
    let i = first_of_kind(rule.children@, "selectors"@) as int;
    if i < rule.children@.len() {
        let selectors = rule.children@[i].children@;
        selector_symbols(selectors, selectors.len(), rule, source)
    } else {
        Seq::empty()
    }
}

/// The symbol of a block of key frames: none where it has no name.
pub open spec fn keyframes_symbol(node: SyntaxNode, source: Seq<u8>) -> Option<SymbolModel> {
    let i = first_of_kind(node.children@, "keyframes_name"@) as int;
    if i < node.children@.len() {
        let name = common::text_or_empty(node.children@[i], source);
        if name.len() == 0 {
            None
        } else {
            Some(
                symbol_at(
                    "@keyframes "@ + name,
                    SymbolKind::Function,
                    node,
                    common::node_brace_signature(node, source),
                ),
            )
        }
    } else {
        None
    }
}

/// The heading of a media block: its first line up to the brace.
pub open spec fn media_heading(full: Seq<char>) -> Seq<char> {
    let line = common::first_line(full);
    if text::position(line, '{') < line.len() {
        text::trimmed(text::before(line, '{'))
    } else {
        line
    }
}

/// The symbol of a media block: none where it has no heading.
pub open spec fn media_symbol(node: SyntaxNode, source: Seq<u8>) -> Option<SymbolModel> {
    let heading = media_heading(common::text_or_empty(node, source));
    if heading.len() == 0 {
        None
    } else {
        Some(symbol_at(heading, SymbolKind::Module, node, Some(heading)))
    }
}

/// The symbol of a declaration: only custom properties, whose names start with
/// two hyphens, have one.
pub open spec fn property_symbol(node: SyntaxNode, source: Seq<u8>) -> Option<SymbolModel> {
    let i = first_of_kind(node.children@, "property_name"@) as int;
    if i < node.children@.len() {
        let name = common::text_or_empty(node.children@[i], source);
        if "--"@.is_prefix_of(name) {
            Some(
                symbol_at(
                    name,
                    SymbolKind::Variable,
                    node,
                    common::node_brace_signature(node, source),
                ),
            )
        } else {
            None
        }
    } else {
        None
    }
}

/// The path that a quoted string holds: none where it is empty.
pub open spec fn quoted_path(node: SyntaxNode, source: Seq<u8>) -> Option<Seq<char>> {
    let path = common::unquoted(common::text_or_empty(node, source));
    if node.kind@ == "string_value"@ && path.len() > 0 {
        Some(path)
    } else {
        None
    }
}

/// The first path among the strings of `values` from index `i` on.
pub open spec fn path_in_values(values: Seq<SyntaxNode>, i: int, source: Seq<u8>) -> Option<
    Seq<char>,
>
    decreases values.len() - i,
{
    if i < 0 || i >= values.len() {
        None
    } else {
        match quoted_path(values[i], source) {
            Some(path) => Some(path),
            None => path_in_values(values, i + 1, source),
        }
    }
}

/// The first path among the argument lists of a call, from index `i` on.
pub open spec fn path_in_call(parts: Seq<SyntaxNode>, i: int, source: Seq<u8>) -> Option<Seq<char>>
    decreases parts.len() - i,
{
    if i < 0 || i >= parts.len() {
        None
    } else if parts[i].kind@ == "arguments"@ {
        match path_in_values(parts[i].children@, 0, source) {
            Some(path) => Some(path),
            None => path_in_call(parts, i + 1, source),
        }
    } else {
        path_in_call(parts, i + 1, source)
    }
}

/// The path that one child of an import names: a string, or a string in the
/// arguments of a call such as `url("path")`.
pub open spec fn path_in_child(child: SyntaxNode, source: Seq<u8>) -> Option<Seq<char>> {
    if child.kind@ == "string_value"@ {
        quoted_path(child, source)
    } else if child.kind@ == "call_expression"@ {
        path_in_call(child.children@, 0, source)
    } else {
        None
    }
}

/// The first path that the children of an import name, from index `i` on.
pub open spec fn imported_path(children: Seq<SyntaxNode>, i: int, source: Seq<u8>) -> Option<
    Seq<char>,
>
    decreases children.len() - i,
{
    if i < 0 || i >= children.len() {
        None
    } else {
        match path_in_child(children[i], source) {
            Some(path) => Some(path),
            None => imported_path(children, i + 1, source),
        }
    }
}

/// The symbols that a node itself stands for.
pub open spec fn own_symbols(node: SyntaxNode, source: Seq<u8>) -> Seq<SymbolModel> {
    if node.kind@ == "rule_set"@ {
        rule_symbols(node, source)
    } else if node.kind@ == "keyframes_statement"@ {
        listed(keyframes_symbol(node, source))
    } else if node.kind@ == "import_statement"@ {
        Seq::empty()
    } else if node.kind@ == "media_statement"@ {
        listed(media_symbol(node, source))
    } else if node.kind@ == "declaration"@ {
        listed(property_symbol(node, source))
    } else {
        Seq::empty()
    }
}

/// An optional value as a list.
pub open spec fn listed<T>(v: Option<T>) -> Seq<T> {
    match v {
        Some(x) => seq![x],
        None => Seq::empty(),
    }
}

/// All the symbols of a subtree: those of the node, then those below it. What
/// stands below an import is not read, and of a media block only its blocks.
pub open spec fn symbols_of(node: SyntaxNode, source: Seq<u8>) -> Seq<SymbolModel>
    decreases node, 0nat,
{
    if node.kind@ == "import_statement"@ {
        Seq::empty()
    } else if node.kind@ == "media_statement"@ {
        own_symbols(node, source) + symbols_in_blocks(
            node.children@,
            node.children@.len(),
            source,
        )
    } else {
        own_symbols(node, source) + symbols_in(node.children@, node.children@.len(), source)
    }
}

/// All the symbols of the first `n` nodes, in order.
pub open spec fn symbols_in(nodes: Seq<SyntaxNode>, n: nat, source: Seq<u8>) -> Seq<SymbolModel>
    decreases nodes, n,
{
    if n == 0 || n > nodes.len() {
        Seq::empty()
    } else {
        symbols_in(nodes, (n - 1) as nat, source) + symbols_of(nodes[n - 1], source)
    }
}

/// All the symbols inside those of the first `n` nodes that are blocks.
pub open spec fn symbols_in_blocks(nodes: Seq<SyntaxNode>, n: nat, source: Seq<u8>) -> Seq<
    SymbolModel,
>
    decreases nodes, n,
{
    if n == 0 || n > nodes.len() {
        Seq::empty()
    } else if nodes[n - 1].kind@ == "block"@ {
        symbols_in_blocks(nodes, (n - 1) as nat, source) + symbols_in(
            nodes[n - 1].children@,
            nodes[n - 1].children@.len(),
            source,
        )
    } else {
        symbols_in_blocks(nodes, (n - 1) as nat, source)
    }
}

/// An import of `path`.
pub open spec fn import_of(path: Seq<char>) -> ImportModel {
    ImportModel { source: path, specifiers: Seq::empty(), is_reexport: false }
}

/// The import that an import statement makes.
pub open spec fn statement_import(node: SyntaxNode, source: Seq<u8>) -> Option<ImportModel> {
    match imported_path(node.children@, 0, source) {
        Some(path) => Some(import_of(path)),
        None => None,
    }
}

/// All the imports of a subtree, in order.
pub open spec fn imports_of(node: SyntaxNode, source: Seq<u8>) -> Seq<ImportModel>
    decreases node, 0nat,
{
    if node.kind@ == "import_statement"@ {
        listed(statement_import(node, source))
    } else if node.kind@ == "media_statement"@ {
        imports_in_blocks(node.children@, node.children@.len(), source)
    } else {
        imports_in(node.children@, node.children@.len(), source)
    }
}

/// All the imports of the first `n` nodes, in order.
pub open spec fn imports_in(nodes: Seq<SyntaxNode>, n: nat, source: Seq<u8>) -> Seq<ImportModel>
    decreases nodes, n,
{
    if n == 0 || n > nodes.len() {
        Seq::empty()
    } else {
        imports_in(nodes, (n - 1) as nat, source) + imports_of(nodes[n - 1], source)
    }
}

/// All the imports inside those of the first `n` nodes that are blocks.
pub open spec fn imports_in_blocks(nodes: Seq<SyntaxNode>, n: nat, source: Seq<u8>) -> Seq<
    ImportModel,
>
    decreases nodes, n,
{
    if n == 0 || n > nodes.len() {
        Seq::empty()
    } else if nodes[n - 1].kind@ == "block"@ {
        imports_in_blocks(nodes, (n - 1) as nat, source) + imports_in(
            nodes[n - 1].children@,
            nodes[n - 1].children@.len(),
            source,
        )
    } else {
        imports_in_blocks(nodes, (n - 1) as nat, source)
    }
}

/// Collapses the white space of a selector, so that it reads the same on one
/// line or on several.
pub fn normalize_selector_text(raw: &str) -> (r: String)
    ensures
        r@ == text::collapsed(raw@),
{
    collapse(raw)
}

/// Normalising a normalised selector changes nothing.
pub proof fn law_normalize_is_idempotent(raw: Seq<char>)
    ensures
        text::collapsed(text::collapsed(raw)) == text::collapsed(raw),
{
    text::lemma_words(raw);
    text::lemma_words_of_joined(text::words(raw));
}

/// How many of the first `n` selectors are named and have a word of text.
pub open spec fn written_selectors(selectors: Seq<SyntaxNode>, n: nat, source: Seq<u8>) -> nat
    decreases n,
{
    if n == 0 {
        0
    } else {
        written_selectors(selectors, (n - 1) as nat, source) + if selectors[n - 1].named
            && text::words(common::text_or_empty(selectors[n - 1], source)).len() > 0 {
            1nat
        } else {
            0
        }
    }
}

/// A rule yields exactly one symbol for each top-level selector that is
/// written out, and each carries the lines and the signature of the rule.
pub proof fn law_one_symbol_per_selector(
    selectors: Seq<SyntaxNode>,
    n: nat,
    rule: SyntaxNode,
    source: Seq<u8>,
)
    ensures
        selector_symbols(selectors, n, rule, source).len() == written_selectors(
            selectors,
            n,
            source,
        ),
        forall|i: int|
            0 <= i < selector_symbols(selectors, n, rule, source).len() ==> (
            #[trigger] selector_symbols(selectors, n, rule, source)[i]).line_start == rule.start_row
                + 1 && selector_symbols(selectors, n, rule, source)[i].line_end == rule.end_row + 1
                && selector_symbols(selectors, n, rule, source)[i].signature
                == common::node_brace_signature(rule, source),
    decreases n,
{
    if n > 0 {
        law_one_symbol_per_selector(selectors, (n - 1) as nat, rule, source);
        let text = common::text_or_empty(selectors[n - 1], source);
        text::lemma_words(text);
        if text::words(text).len() > 0 {
            let w = text::words(text);
            if w.len() > 1 {
                assert(text::is_word(w.last()));
            } else {
                assert(text::is_word(w[0]));
            }
        }
    }
}

/// Every symbol of a style sheet is exported and stands on its own.
pub open spec fn free_standing(list: Seq<SymbolModel>) -> bool {
    forall|i: int|
        0 <= i < list.len() ==> (#[trigger] list[i]).is_exported && list[i].parent_idx is None
            && list[i].owner_type is None
}

proof fn lemma_selectors_free_standing(
    selectors: Seq<SyntaxNode>,
    n: nat,
    rule: SyntaxNode,
    source: Seq<u8>,
)
    ensures
        free_standing(selector_symbols(selectors, n, rule, source)),
    decreases n,
{
    if n > 0 {
        lemma_selectors_free_standing(selectors, (n - 1) as nat, rule, source);
    }
}

/// Every symbol that a subtree yields is exported, and none has a parent or an
/// owner.
pub proof fn law_symbols_are_free_standing(node: SyntaxNode, source: Seq<u8>)
    ensures
        free_standing(symbols_of(node, source)),
    decreases node, 0nat,
{
    if node.kind@ == "rule_set"@ {
        let i = first_of_kind(node.children@, "selectors"@) as int;
        if i < node.children@.len() {
            let selectors = node.children@[i].children@;
            lemma_selectors_free_standing(selectors, selectors.len(), node, source);
        }
    }
    assert(free_standing(own_symbols(node, source)));
    lemma_nodes_free_standing(node.children@, node.children@.len(), source);
}

proof fn lemma_nodes_free_standing(nodes: Seq<SyntaxNode>, n: nat, source: Seq<u8>)
    ensures
        free_standing(symbols_in(nodes, n, source)),
        free_standing(symbols_in_blocks(nodes, n, source)),
    decreases nodes, n,
{
    if n > 0 && n <= nodes.len() {
        lemma_nodes_free_standing(nodes, (n - 1) as nat, source);
        law_symbols_are_free_standing(nodes[n - 1], source);
        let inner = nodes[n - 1].children@;
        lemma_nodes_free_standing(inner, inner.len(), source);
    }
}

/// Adds the symbol of one top-level selector of a rule.
pub fn extract_selectors(
    selector_node: &SyntaxNode,
    rule_node: &SyntaxNode,
    source: &[u8],
    symbols: &mut Vec<ExtractedSymbol>,
)
    requires
        selector_node.bytes_fit(source@.len() as int),
        rule_node.span_fits(source@.len() as int),
    ensures
        symbols::symbol_models(final(symbols)@) == symbols::symbol_models(old(symbols)@)
            + selector_symbol(*selector_node, *rule_node, source@),
{
    if !selector_node.named {
        assert(symbols::symbol_models(symbols@) + Seq::<SymbolModel>::empty()
            == symbols::symbol_models(symbols@));
        return;
    }
    let kind = if same(selector_node.kind.as_str(), "id_selector") {
        SymbolKind::Variable
    } else {
        SymbolKind::Class
    };
    let name = normalize_selector_text(node_text(selector_node, source).as_str());
    push_selector_symbol(name, kind, rule_node, source, symbols);
}

/// Adds a symbol for `rule_node` under `name`, unless that is empty.
pub fn push_selector_symbol(
    name: String,
    kind: SymbolKind,
    rule_node: &SyntaxNode,
    source: &[u8],
    symbols: &mut Vec<ExtractedSymbol>,
)
    requires
        rule_node.span_fits(source@.len() as int),
    ensures
        symbols::symbol_models(final(symbols)@) == symbols::symbol_models(old(symbols)@) + (
        if name@.len() == 0 {
            Seq::empty()
        } else {
            seq![
                symbol_at(
                    name@,
                    kind,
                    *rule_node,
                    common::node_brace_signature(*rule_node, source@),
                ),
            ]
        }),
{
    if name.as_str().is_empty() {
        assert(symbols::symbol_models(symbols@) + Seq::<SymbolModel>::empty()
            == symbols::symbol_models(symbols@));
        return;
    }
    let signature = extract_signature(rule_node, source);
    let symbol = make_symbol(name, kind, rule_node, signature);
    let ghost before = symbols@;
    symbols.push(symbol);
    assert(symbols::symbol_models(symbols@) == symbols::symbol_models(before) + seq![symbol@]);
}

/// The signature of a rule: what stands before its brace.
pub fn extract_signature(node: &SyntaxNode, source: &[u8]) -> (r: Option<String>)
    requires
        node.bytes_fit(source@.len() as int),
    ensures
        common::is_text(r, common::node_brace_signature(*node, source@)),
{
    brace_or_first_line_signature(node, source)
}

/// Adds the symbols of a rule.
pub fn extract_rule_set(node: &SyntaxNode, source: &[u8], symbols: &mut Vec<ExtractedSymbol>)
    requires
        node.fits(source@.len() as int),
    ensures
        symbols::symbol_models(final(symbols)@) == symbols::symbol_models(old(symbols)@)
            + rule_symbols(*node, source@),
{
    let i: usize = find_kind(&node.children, "selectors");
    let ghost before = symbols::symbol_models(symbols@);
    if i >= node.children.len() {
        assert(before + Seq::<SymbolModel>::empty() == before);
        return;
    }
    let selectors = &node.children[i].children;
    proof {
        syntax::lemma_all_fit(
            node.children@,
            node.children@.len(),
            source@.len() as int,
            i as int,
        );
    }
    let n: usize = selectors.len();
    let mut k: usize = 0;
    assert(before + Seq::<SymbolModel>::empty() == before);
    while k < n
        invariant
            n == selectors@.len(),
            k <= n,
            syntax::all_fit(selectors@, selectors@.len(), source@.len() as int),
            node.span_fits(source@.len() as int),
            symbols::symbol_models(symbols@) == before + selector_symbols(
                selectors@,
                k as nat,
                *node,
                source@,
            ),
        decreases n - k,
    {
        proof {
            syntax::lemma_all_fit(
                selectors@,
                selectors@.len(),
                source@.len() as int,
                k as int,
            );
        }
        let ghost so_far = selector_symbols(selectors@, k as nat, *node, source@);
        extract_selectors(&selectors[k], node, source, symbols);
        assert(before + so_far + selector_symbol(selectors@[k as int], *node, source@) == before
            + (so_far + selector_symbol(selectors@[k as int], *node, source@)));
        k = k + 1;
    }
}

/// The symbol of a block of key frames.
pub fn extract_keyframes(node: &SyntaxNode, source: &[u8]) -> (r: Option<ExtractedSymbol>)
    requires
        node.fits(source@.len() as int),
    ensures
        match r {
            Some(symbol) => keyframes_symbol(*node, source@) == Some(symbol@),
            None => keyframes_symbol(*node, source@) is None,
        },
{
    let i: usize = find_kind(&node.children, "keyframes_name");
    if i >= node.children.len() {
        return None;
    }
    proof {
        syntax::lemma_all_fit(
            node.children@,
            node.children@.len(),
            source@.len() as int,
            i as int,
        );
    }
    let name = node_text(&node.children[i], source);
    if name.as_str().is_empty() {
        return None;
    }
    let mut full = "@keyframes ".to_owned();
    full.append(name.as_str());
    let signature = extract_signature(node, source);
    Some(make_symbol(full, SymbolKind::Function, node, signature))
}

/// The symbol of a media block.
pub fn extract_media(node: &SyntaxNode, source: &[u8]) -> (r: Option<ExtractedSymbol>)
    requires
        node.span_fits(source@.len() as int),
    ensures
        match r {
            Some(symbol) => media_symbol(*node, source@) == Some(symbol@),
            None => media_symbol(*node, source@) is None,
        },
{
    let full = node_text(node, source);
    let line = trim(cut_before(full.as_str(), '\n'));
    if line.is_empty() {
        return None;
    }
    let v = chars_of(line);
    let heading = if find(&v, '{') < v.len() {
        trim(cut_before(line, '{'))
    } else {
        line
    };
    if heading.is_empty() {
        return None;
    }
    Some(
        make_symbol(
            heading.to_owned(),
            SymbolKind::Module,
            node,
            Some(heading.to_owned()),
        ),
    )
}

/// The symbol of a custom property.
pub fn extract_custom_property(node: &SyntaxNode, source: &[u8]) -> (r: Option<ExtractedSymbol>)
    requires
        node.fits(source@.len() as int),
    ensures
        match r {
            Some(symbol) => property_symbol(*node, source@) == Some(symbol@),
            None => property_symbol(*node, source@) is None,
        },
{
    let i: usize = find_kind(&node.children, "property_name");
    if i >= node.children.len() {
        return None;
    }
    proof {
        syntax::lemma_all_fit(
            node.children@,
            node.children@.len(),
            source@.len() as int,
            i as int,
        );
    }
    let name = node_text(&node.children[i], source);
    if !starts_with(name.as_str(), "--") {
        return None;
    }
    let signature = extract_signature(node, source);
    Some(make_symbol(name, SymbolKind::Variable, node, signature))
}


fn find_quoted_path(node: &SyntaxNode, source: &[u8]) -> (r: Option<String>)
    requires
        node.bytes_fit(source@.len() as int),
    ensures
        common::is_text(r, quoted_path(*node, source@)),
{
    if !same(node.kind.as_str(), "string_value") {
        return None;
    }
    let path = unquote(node_text(node, source).as_str());
    if path.as_str().is_empty() {
        None
    } else {
        Some(path)
    }
}

fn find_path_in_values(values: &Vec<SyntaxNode>, source: &[u8]) -> (r: Option<String>)
    requires
        syntax::all_fit(values@, values@.len(), source@.len() as int),
    ensures
        common::is_text(r, path_in_values(values@, 0, source@)),
{
    let n: usize = values.len();
    let mut i: usize = 0;
    while i < n
        invariant
            n == values@.len(),
            i <= n,
            syntax::all_fit(values@, values@.len(), source@.len() as int),
            path_in_values(values@, 0, source@) == path_in_values(values@, i as int, source@),
        decreases n - i,
    {
        proof {
            syntax::lemma_all_fit(values@, values@.len(), source@.len() as int, i as int);
        }
        let found = find_quoted_path(&values[i], source);
        if found.is_some() {
            return found;
        }
        i = i + 1;
    }
    None
}

fn find_path_in_call(parts: &Vec<SyntaxNode>, source: &[u8]) -> (r: Option<String>)
    requires
        syntax::all_fit(parts@, parts@.len(), source@.len() as int),
    ensures
        common::is_text(r, path_in_call(parts@, 0, source@)),
{
    let n: usize = parts.len();
    let mut i: usize = 0;
    while i < n
        invariant
            n == parts@.len(),
            i <= n,
            syntax::all_fit(parts@, parts@.len(), source@.len() as int),
            path_in_call(parts@, 0, source@) == path_in_call(parts@, i as int, source@),
        decreases n - i,
    {
        proof {
            syntax::lemma_all_fit(parts@, parts@.len(), source@.len() as int, i as int);
        }
        if same(parts[i].kind.as_str(), "arguments") {
            let found = find_path_in_values(&parts[i].children, source);
            if found.is_some() {
                return found;
            }
        }
        i = i + 1;
    }
    None
}

/// The import that an import statement makes.
pub fn extract_import(node: &SyntaxNode, source: &[u8]) -> (r: Option<ExtractedImport>)
    requires
        node.fits(source@.len() as int),
    ensures
        match r {
            Some(import) => statement_import(*node, source@) == Some(import@),
            None => statement_import(*node, source@) is None,
        },
{
    let children = &node.children;
    let n: usize = children.len();
    let mut i: usize = 0;
    while i < n
        invariant
            n == children@.len(),
            children@ == node.children@,
            i <= n,
            syntax::all_fit(children@, children@.len(), source@.len() as int),
            imported_path(children@, 0, source@) == imported_path(children@, i as int, source@),
        decreases n - i,
    {
        let child = &children[i];
        proof {
            syntax::lemma_all_fit(children@, children@.len(), source@.len() as int, i as int);
        }
        let found = if same(child.kind.as_str(), "string_value") {
            find_quoted_path(child, source)
        } else if same(child.kind.as_str(), "call_expression") {
            find_path_in_call(&child.children, source)
        } else {
            None
        };
        match found {
            Some(path) => {
                let import = ExtractedImport {
                    source: path,
                    specifiers: Vec::new(),
                    is_reexport: false,
                };
                assert(import@.specifiers == Seq::<Seq<char>>::empty());
                return Some(import);
            },
            None => {},
        }
        i = i + 1;
    }
    None
}

/// Adds the symbols and the imports of a subtree.
pub fn extract_from_node(
    node: &SyntaxNode,
    source: &[u8],
    symbols: &mut Vec<ExtractedSymbol>,
    imports: &mut Vec<ExtractedImport>,
)
    requires
        node.fits(source@.len() as int),
    ensures
        symbols::symbol_models(final(symbols)@) == symbols::symbol_models(old(symbols)@)
            + symbols_of(*node, source@),
        symbols::import_models(final(imports)@) == symbols::import_models(old(imports)@)
            + imports_of(*node, source@),
    decreases *node, 0nat,
{
    let ghost sym0 = symbols::symbol_models(symbols@);
    let ghost imp0 = symbols::import_models(imports@);
    proof {
        assert(sym0 + Seq::<SymbolModel>::empty() == sym0);
        assert(imp0 + Seq::<ImportModel>::empty() == imp0);
    }
    let kind = node.kind.as_str();
    if same(kind, "import_statement") {
        match extract_import(node, source) {
            Some(import) => {
                let ghost before = imports@;
                imports.push(import);
                assert(symbols::import_models(imports@) == symbols::import_models(before)
                    + seq![import@]);
            },
            None => {},
        }
        return;
    }
    let mut own: Option<ExtractedSymbol> = None;
    if same(kind, "rule_set") {
        extract_rule_set(node, source, symbols);
    } else if same(kind, "keyframes_statement") {
        own = extract_keyframes(node, source);
    } else if same(kind, "media_statement") {
        own = extract_media(node, source);
    } else if same(kind, "declaration") {
        own = extract_custom_property(node, source);
    }
    match own {
        Some(symbol) => {
            let ghost before = symbols@;
            symbols.push(symbol);
            assert(symbols::symbol_models(symbols@) == symbols::symbol_models(before)
                + seq![symbol@]);
        },
        None => {},
    }
    let ghost sym1 = symbols::symbol_models(symbols@);
    assert(sym1 == sym0 + own_symbols(*node, source@));
    if same(kind, "media_statement") {
        extract_from_blocks(&node.children, source, symbols, imports);
        assert(sym1 + symbols_in_blocks(node.children@, node.children@.len(), source@) == sym0 + (
        own_symbols(*node, source@) + symbols_in_blocks(
            node.children@,
            node.children@.len(),
            source@,
        )));
    } else {
        extract_from_nodes(&node.children, source, symbols, imports);
        assert(sym1 + symbols_in(node.children@, node.children@.len(), source@) == sym0 + (
        own_symbols(*node, source@) + symbols_in(
            node.children@,
            node.children@.len(),
            source@,
        )));
    }
}

/// Adds the symbols and the imports of all `nodes`.
fn extract_from_nodes(
    nodes: &Vec<SyntaxNode>,
    source: &[u8],
    symbols: &mut Vec<ExtractedSymbol>,
    imports: &mut Vec<ExtractedImport>,
)
    requires
        syntax::all_fit(nodes@, nodes@.len(), source@.len() as int),
    ensures
        symbols::symbol_models(final(symbols)@) == symbols::symbol_models(old(symbols)@)
            + symbols_in(nodes@, nodes@.len(), source@),
        symbols::import_models(final(imports)@) == symbols::import_models(old(imports)@)
            + imports_in(nodes@, nodes@.len(), source@),
    decreases nodes@, nodes@.len(),
{
    let ghost sym0 = symbols::symbol_models(symbols@);
    let ghost imp0 = symbols::import_models(imports@);
    proof {
        assert(sym0 + Seq::<SymbolModel>::empty() == sym0);
        assert(imp0 + Seq::<ImportModel>::empty() == imp0);
    }
    let n: usize = nodes.len();
    let mut i: usize = 0;
    while i < n
        invariant
            n == nodes@.len(),
            i <= n,
            syntax::all_fit(nodes@, nodes@.len(), source@.len() as int),
            symbols::symbol_models(symbols@) == sym0 + symbols_in(nodes@, i as nat, source@),
            symbols::import_models(imports@) == imp0 + imports_in(nodes@, i as nat, source@),
        decreases n - i,
    {
        proof {
            syntax::lemma_all_fit(nodes@, nodes@.len(), source@.len() as int, i as int);
        }
        let ghost s = symbols_in(nodes@, i as nat, source@);
        let ghost m = imports_in(nodes@, i as nat, source@);
        extract_from_node(&nodes[i], source, symbols, imports);
        proof {
            let ds = symbols_of(nodes@[i as int], source@);
            let dm = imports_of(nodes@[i as int], source@);
            assert(sym0 + s + ds == sym0 + (s + ds));
            assert(imp0 + m + dm == imp0 + (m + dm));
        }
        i = i + 1;
    }
}

/// Adds the symbols and the imports inside those of `nodes` that are blocks.
fn extract_from_blocks(
    nodes: &Vec<SyntaxNode>,
    source: &[u8],
    symbols: &mut Vec<ExtractedSymbol>,
    imports: &mut Vec<ExtractedImport>,
)
    requires
        syntax::all_fit(nodes@, nodes@.len(), source@.len() as int),
    ensures
        symbols::symbol_models(final(symbols)@) == symbols::symbol_models(old(symbols)@)
            + symbols_in_blocks(nodes@, nodes@.len(), source@),
        symbols::import_models(final(imports)@) == symbols::import_models(old(imports)@)
            + imports_in_blocks(nodes@, nodes@.len(), source@),
    decreases nodes@, nodes@.len(),
{
    let ghost sym0 = symbols::symbol_models(symbols@);
    let ghost imp0 = symbols::import_models(imports@);
    proof {
        assert(sym0 + Seq::<SymbolModel>::empty() == sym0);
        assert(imp0 + Seq::<ImportModel>::empty() == imp0);
    }
    let n: usize = nodes.len();
    let mut i: usize = 0;
    while i < n
        invariant
            n == nodes@.len(),
            i <= n,
            syntax::all_fit(nodes@, nodes@.len(), source@.len() as int),
            symbols::symbol_models(symbols@) == sym0 + symbols_in_blocks(
                nodes@,
                i as nat,
                source@,
            ),
            symbols::import_models(imports@) == imp0 + imports_in_blocks(
                nodes@,
                i as nat,
                source@,
            ),
        decreases n - i,
    {
        proof {
            syntax::lemma_all_fit(nodes@, nodes@.len(), source@.len() as int, i as int);
        }
        if same(nodes[i].kind.as_str(), "block") {
            let ghost s = symbols_in_blocks(nodes@, i as nat, source@);
            let ghost m = imports_in_blocks(nodes@, i as nat, source@);
            let inner = &nodes[i].children;
            extract_from_nodes(inner, source, symbols, imports);
            proof {
                let ds = symbols_in(inner@, inner@.len(), source@);
                let dm = imports_in(inner@, inner@.len(), source@);
                assert(sym0 + s + ds == sym0 + (s + ds));
                assert(imp0 + m + dm == imp0 + (m + dm));
            }
        }
        i = i + 1;
    }
}

/// The pre-order listing of the syntax tree that the style sheet grammar gives
/// `source`: what `tree_sitter::Parser::parse` returns under the language of
/// `tree_sitter_css`.
pub uninterp spec fn css_listing(source: Seq<u8>) -> Option<Seq<syntax::NodeFacts>>;

/// `tree_sitter::Parser::parse` with the grammar of `tree_sitter_css`, its tree
/// read off node by node in descendant order. The contract names the listing
/// as a function of the source; it says nothing of which nodes there are.
#[verifier::external_body]
fn parse_records(source: &[u8]) -> (r: Option<Vec<NodeRecord>>)
    ensures
        match r {
            Some(records) => css_listing(source@) == Some(syntax::facts(records@)),
            None => css_listing(source@) is None,
        },
{
    let mut parser = tree_sitter::Parser::new();
    parser.set_language(&tree_sitter::Language::new(tree_sitter_css::LANGUAGE)).ok()?;
    let tree = parser.parse(source, None)?;
    let mut cursor = tree.walk();
    Some((0..tree.root_node().descendant_count()).map(|i| {
        cursor.goto_descendant(i);
        let (node, at, depth) = (cursor.node(), cursor.node().range(), cursor.depth());
        NodeRecord { depth, kind: node.kind().to_string(), named: node.is_named(),
            start_byte: at.start_byte, end_byte: at.end_byte,
            start_row: at.start_point.row, end_row: at.end_point.row,
            field: cursor.field_name().map(str::to_string) }
    }).collect())
}

/// The style sheet languages.
pub struct CssSupport;

/// What is extracted from a style sheet: the symbols and the imports of its
/// tree, and no references.
pub open spec fn is_extracted(r: ParseResult, root: SyntaxNode, source: Seq<u8>) -> bool {
    &&& symbols::symbol_models(r.symbols@) == symbols_of(root, source)
    &&& symbols::import_models(r.imports@) == imports_of(root, source)
    &&& r.references@.len() == 0
}

impl CssSupport {
    /// Parses a style sheet: `None` where the parser gives no tree, or one
    /// that does not fit the source.
    pub fn parse(&self, source: &[u8]) -> (r: Option<SyntaxNode>)
        ensures
            match css_listing(source@) {
                Some(list) => r is Some <==> syntax::well_nested(list) && syntax::listed_fit(
                    list,
                    source@.len() as int,
                ),
                None => r is None,
            },
            r matches Some(root) ==> css_listing(source@) == Some(root.listing(0)) && root.fits(
                source@.len() as int,
            ),
    {
        match parse_records(source) {
            Some(records) => tree_of(&records, source.len()),
            None => None,
        }
    }

    /// Extracts the symbols and the imports of a parsed style sheet.
    pub fn extract(&self, source: &[u8], root: &SyntaxNode) -> (r: ParseResult)
        requires
            root.fits(source@.len() as int),
        ensures
            is_extracted(r, *root, source@),
    {
        let mut symbols: Vec<ExtractedSymbol> = Vec::new();
        let mut imports: Vec<ExtractedImport> = Vec::new();
        extract_from_node(root, source, &mut symbols, &mut imports);
        let r = ParseResult { symbols, imports, references: Vec::new() };
        assert(symbols::symbol_models(Seq::<ExtractedSymbol>::empty()) + symbols_of(
            *root,
            source@,
        ) == symbols_of(*root, source@));
        assert(symbols::import_models(Seq::<ExtractedImport>::empty()) + imports_of(
            *root,
            source@,
        ) == imports_of(*root, source@));
        r
    }
}

/// The first node of a kind is the one with the kind that has none before it.
pub proof fn law_first_of_kind(nodes: Seq<SyntaxNode>, kind: Seq<char>, k: int)
    requires
        0 <= k <= nodes.len(),
        forall|j: int| 0 <= j < k ==> (#[trigger] nodes[j]).kind@ != kind,
        k < nodes.len() ==> nodes[k].kind@ == kind,
    ensures
        first_of_kind(nodes, kind) == k,
{
    lemma_first_of_kind(nodes, kind, k);
}

/// A selector that is named and has a word of text has one symbol: its words, with one
/// blank between each two, make the name; an id is a variable, any other selector a
/// class; the lines are those of the rule. Other selectors have none.
pub proof fn law_selector_symbol(selector: SyntaxNode, rule: SyntaxNode, source: Seq<u8>)
    ensures
        ({
            let symbols = selector_symbol(selector, rule, source);
            let words = text::words(common::text_or_empty(selector, source));
            &&& !selector.named || words.len() == 0 ==> symbols.len() == 0
            &&& selector.named && words.len() > 0 ==> {
                &&& symbols.len() == 1
                &&& symbols[0].name == text::joined(words, " "@)
                &&& selector.kind@ == "id_selector"@ <==> symbols[0].kind == SymbolKind::Variable
                &&& selector.kind@ != "id_selector"@ <==> symbols[0].kind == SymbolKind::Class
                &&& symbols[0].line_start == rule.start_row + 1
                &&& symbols[0].line_end == rule.end_row + 1
                &&& symbols[0].signature == common::node_brace_signature(rule, source)
            }
        }),
{
    let content = common::text_or_empty(selector, source);
    let w = text::words(content);
    text::lemma_words(content);
    if w.len() > 0 {
        if w.len() > 1 {
            assert(text::is_word(w.last()));
        } else {
            assert(text::is_word(w[0]));
        }
    }
}

proof fn lemma_selectors_hold(
    selectors: Seq<SyntaxNode>,
    n: nat,
    rule: SyntaxNode,
    source: Seq<u8>,
    symbol: SymbolModel,
)
    requires
        n <= selectors.len(),
    ensures
        selector_symbols(selectors, n, rule, source).contains(symbol) <==> exists|j: int|
            0 <= j < n && selector_symbol(#[trigger] selectors[j], rule, source).contains(symbol),
    decreases n,
{
    if n > 0 {
        let m = (n - 1) as nat;
        lemma_selectors_hold(selectors, m, rule, source, symbol);
        lemma_contains_add(
            selector_symbols(selectors, m, rule, source),
            selector_symbol(selectors[m as int], rule, source),
            symbol,
        );
        if exists|j: int|
            0 <= j < n && selector_symbol(#[trigger] selectors[j], rule, source).contains(symbol) {
            let j = choose|j: int|
                0 <= j < n && selector_symbol(#[trigger] selectors[j], rule, source).contains(
                    symbol,
                );
            if j < m {
                assert(selector_symbols(selectors, m, rule, source).contains(symbol));
            }
        }
    }
}

proof fn lemma_contains_add<T>(a: Seq<T>, b: Seq<T>, x: T)
    ensures
        (a + b).contains(x) <==> a.contains(x) || b.contains(x),
{
    let all = a + b;
    if a.contains(x) {
        let k = choose|k: int| 0 <= k < a.len() && a[k] == x;
        assert(all[k] == x);
    }
    if b.contains(x) {
        let k = choose|k: int| 0 <= k < b.len() && b[k] == x;
        assert(all[a.len() + k] == x);
    }
    if all.contains(x) {
        let k = choose|k: int| 0 <= k < all.len() && all[k] == x;
        if k < a.len() {
            assert(a[k] == x);
        } else {
            assert(b[k - a.len()] == x);
        }
    }
}

/// The symbols of a rule are exactly those of the selectors in its first list of
/// selectors.
pub proof fn law_rule_symbols(rule: SyntaxNode, source: Seq<u8>, c: int, symbol: SymbolModel)
    requires
        0 <= c < rule.children@.len(),
        rule.children@[c].kind@ == "selectors"@,
        forall|j: int| 0 <= j < c ==> (#[trigger] rule.children@[j]).kind@ != "selectors"@,
    ensures
        rule_symbols(rule, source).contains(symbol) <==> exists|j: int|
            0 <= j < rule.children@[c].children@.len() && selector_symbol(
                #[trigger] rule.children@[c].children@[j],
                rule,
                source,
            ).contains(symbol),
{
    lemma_first_of_kind(rule.children@, "selectors"@, c);
    let selectors = rule.children@[c].children@;
    lemma_selectors_hold(selectors, selectors.len(), rule, source, symbol);
}

/// A block of key frames has a symbol exactly when its first name has text, and the
/// name of the symbol is that text behind `@keyframes`.
pub proof fn law_keyframes(node: SyntaxNode, source: Seq<u8>, c: int)
    requires
        0 <= c < node.children@.len(),
        node.children@[c].kind@ == "keyframes_name"@,
        forall|j: int| 0 <= j < c ==> (#[trigger] node.children@[j]).kind@ != "keyframes_name"@,
    ensures
        ({
            let name = common::text_or_empty(node.children@[c], source);
            &&& keyframes_symbol(node, source) is Some <==> name.len() > 0
            &&& keyframes_symbol(node, source) matches Some(symbol) ==> symbol.name
                == "@keyframes "@ + name && symbol.kind == SymbolKind::Function
                && symbol.line_start == node.start_row + 1 && symbol.line_end == node.end_row + 1
        }),
{
    lemma_first_of_kind(node.children@, "keyframes_name"@, c);
}

/// A declaration has a symbol exactly when the first name of its property starts with
/// two hyphens, and the symbol has that name.
pub proof fn law_custom_properties(node: SyntaxNode, source: Seq<u8>, c: int)
    requires
        0 <= c < node.children@.len(),
        node.children@[c].kind@ == "property_name"@,
        forall|j: int| 0 <= j < c ==> (#[trigger] node.children@[j]).kind@ != "property_name"@,
    ensures
        ({
            let name = common::text_or_empty(node.children@[c], source);
            &&& property_symbol(node, source) is Some <==> name.len() >= 2 && name[0] == '-'
                && name[1] == '-'
            &&& property_symbol(node, source) matches Some(symbol) ==> symbol.name == name
                && symbol.kind == SymbolKind::Variable && symbol.line_start == node.start_row + 1
                && symbol.line_end == node.end_row + 1
        }),
{
    lemma_first_of_kind(node.children@, "property_name"@, c);
    let name = common::text_or_empty(node.children@[c], source);
    reveal_strlit("--");
    if "--"@.is_prefix_of(name) {
        assert(name.subrange(0, 2)[0] == "--"@[0] && name.subrange(0, 2)[1] == "--"@[1]);
    }
    if name.len() >= 2 && name[0] == '-' && name[1] == '-' {
        assert("--"@ == name.subrange(0, 2));
    }
}

/// A media block is named by what stands before the brace on its first line, and has
/// no symbol where nothing does.
pub proof fn law_media_heading(front: Seq<char>, rest: Seq<char>)
    requires
        !front.contains('{'),
        !front.contains('\n'),
        front.len() > 0,
        !text::white_space(front[0]),
        !text::white_space(front.last()),
        !rest.contains('\n'),
        rest.len() > 0 ==> !text::white_space(rest.last()),
    ensures
        media_heading(front + seq!['{'] + rest) == front,
        media_heading(front) == front,
{
    let whole = front + seq!['{'] + rest;
    let n = front.len() as int;
    let empty = Seq::<char>::empty();
    assert(!whole.contains('\n')) by {
        assert forall|k: int| 0 <= k < whole.len() implies #[trigger] whole[k] != '\n' by {
            if k < n {
                assert(front.contains(front[k]));
            } else if k > n {
                assert(whole[k] == rest[k - n - 1]);
                assert(rest.contains(rest[k - n - 1]));
            }
        }
    }
    common::law_first_line(whole, empty);
    common::law_first_line(front, empty);
    assert(!text::white_space('{'));
    assert(whole[0] == front[0]);
    assert(whole.last() == if rest.len() > 0 {
        rest.last()
    } else {
        '{'
    });
    text::law_trimmed(empty, whole, empty);
    text::law_trimmed(empty, front, empty);
    assert(empty + whole + empty == whole);
    assert(empty + front + empty == front);
    assert forall|k: int| 0 <= k < n implies #[trigger] whole[k] != '{' by {
        assert(front.contains(front[k]));
    }
    assert forall|k: int| 0 <= k < n implies #[trigger] front[k] != '{' by {
        assert(front.contains(front[k]));
    }
    text::lemma_position(whole, '{', n);
    text::lemma_position(front, '{', n);
    assert(whole.take(n) == front);
}

/// An import names the path of its first child that names one: a string with text
/// between its quotes, or such a string among the arguments of a call.
pub proof fn law_imported_path(children: Seq<SyntaxNode>, from: int, k: int, source: Seq<u8>)
    requires
        0 <= from <= k <= children.len(),
        forall|j: int|
            from <= j < k ==> path_in_child(#[trigger] children[j], source) is None,
    ensures
        k < children.len() && path_in_child(children[k], source) is Some ==> imported_path(
            children,
            from,
            source,
        ) == path_in_child(children[k], source),
        k == children.len() ==> imported_path(children, from, source) is None,
    decreases k - from,
{
    if from < k {
        assert(path_in_child(children[from], source) is None);
        law_imported_path(children, from + 1, k, source);
    }
}

/// A string names what stands between its quotes, unless that is empty; a node that is
/// neither a string nor a call names nothing.
pub proof fn law_path_of_a_string(child: SyntaxNode, source: Seq<u8>)
    ensures
        ({
            let path = common::unquoted(common::text_or_empty(child, source));
            &&& child.kind@ == "string_value"@ && path.len() > 0 ==> path_in_child(child, source)
                == Some(path)
            &&& child.kind@ == "string_value"@ && path.len() == 0 ==> path_in_child(child, source)
                is None
            &&& child.kind@ != "string_value"@ && child.kind@ != "call_expression"@
                ==> path_in_child(child, source) is None
        }),
{
}

/// A call such as `url("path")` names the first string with text among its arguments.
pub proof fn law_path_of_a_call(child: SyntaxNode, source: Seq<u8>, a: int, v: int)
    requires
        child.kind@ == "call_expression"@,
        0 <= a < child.children@.len(),
        child.children@[a].kind@ == "arguments"@,
        forall|j: int| 0 <= j < a ==> (#[trigger] child.children@[j]).kind@ != "arguments"@,
        0 <= v < child.children@[a].children@.len(),
        child.children@[a].children@[v].kind@ == "string_value"@,
        forall|j: int|
            0 <= j < v ==> (#[trigger] child.children@[a].children@[j]).kind@ != "string_value"@,
        common::unquoted(common::text_or_empty(child.children@[a].children@[v], source)).len() > 0,
    ensures
        path_in_child(child, source) == Some(
            common::unquoted(common::text_or_empty(child.children@[a].children@[v], source)),
        ),
{
    reveal_strlit("call_expression");
    reveal_strlit("string_value");
    assert("call_expression"@.len() != "string_value"@.len());
    lemma_value_path(child.children@[a].children@, 0, v, source);
    lemma_call_path(child.children@, 0, a, source);
}

proof fn lemma_value_path(values: Seq<SyntaxNode>, from: int, v: int, source: Seq<u8>)
    requires
        0 <= from <= v < values.len(),
        values[v].kind@ == "string_value"@,
        forall|j: int| from <= j < v ==> (#[trigger] values[j]).kind@ != "string_value"@,
        common::unquoted(common::text_or_empty(values[v], source)).len() > 0,
    ensures
        path_in_values(values, from, source) == Some(
            common::unquoted(common::text_or_empty(values[v], source)),
        ),
    decreases v - from,
{
    if from < v {
        assert(values[from].kind@ != "string_value"@);
        lemma_value_path(values, from + 1, v, source);
    }
}

proof fn lemma_call_path(parts: Seq<SyntaxNode>, from: int, a: int, source: Seq<u8>)
    requires
        0 <= from <= a < parts.len(),
        parts[a].kind@ == "arguments"@,
        forall|j: int| from <= j < a ==> (#[trigger] parts[j]).kind@ != "arguments"@,
        path_in_values(parts[a].children@, 0, source) is Some,
    ensures
        path_in_call(parts, from, source) == path_in_values(parts[a].children@, 0, source),
    decreases a - from,
{
    if from < a {
        assert(parts[from].kind@ != "arguments"@);
        lemma_call_path(parts, from + 1, a, source);
    }
}

proof fn lemma_symbols_in(nodes: Seq<SyntaxNode>, n: nat, source: Seq<u8>, symbol: SymbolModel)
    requires
        n <= nodes.len(),
    ensures
        symbols_in(nodes, n, source).contains(symbol) <==> exists|c: int|
            0 <= c < n && symbols_of(#[trigger] nodes[c], source).contains(symbol),
    decreases n,
{
    if n > 0 {
        let m = (n - 1) as nat;
        lemma_symbols_in(nodes, m, source, symbol);
        lemma_contains_add(
            symbols_in(nodes, m, source),
            symbols_of(nodes[m as int], source),
            symbol,
        );
        if exists|c: int| 0 <= c < n && symbols_of(#[trigger] nodes[c], source).contains(symbol) {
            let c = choose|c: int|
                0 <= c < n && symbols_of(#[trigger] nodes[c], source).contains(symbol);
            if c < m {
                assert(symbols_in(nodes, m, source).contains(symbol));
            }
        }
    }
}

proof fn lemma_imports_in(nodes: Seq<SyntaxNode>, n: nat, source: Seq<u8>, import: ImportModel)
    requires
        n <= nodes.len(),
    ensures
        imports_in(nodes, n, source).contains(import) <==> exists|c: int|
            0 <= c < n && imports_of(#[trigger] nodes[c], source).contains(import),
    decreases n,
{
    if n > 0 {
        let m = (n - 1) as nat;
        lemma_imports_in(nodes, m, source, import);
        lemma_contains_add(
            imports_in(nodes, m, source),
            imports_of(nodes[m as int], source),
            import,
        );
        if exists|c: int| 0 <= c < n && imports_of(#[trigger] nodes[c], source).contains(import) {
            let c = choose|c: int|
                0 <= c < n && imports_of(#[trigger] nodes[c], source).contains(import);
            if c < m {
                assert(imports_in(nodes, m, source).contains(import));
            }
        }
    }
}

/// Nothing in a style sheet is missed: the symbols of a node are its own and those of
/// its children, and its imports those of its children. An import statement has no
/// symbols and makes at most one import, of the path that it names.
pub proof fn law_the_whole_tree_is_read(
    node: SyntaxNode,
    source: Seq<u8>,
    symbol: SymbolModel,
    import: ImportModel,
)
    ensures
        node.kind@ != "import_statement"@ && node.kind@ != "media_statement"@ ==> (symbols_of(
            node,
            source,
        ).contains(symbol) <==> own_symbols(node, source).contains(symbol) || exists|c: int|
            0 <= c < node.children@.len() && symbols_of(
                #[trigger] node.children@[c],
                source,
            ).contains(symbol)),
        node.kind@ != "import_statement"@ && node.kind@ != "media_statement"@ ==> (imports_of(
            node,
            source,
        ).contains(import) <==> exists|c: int|
            0 <= c < node.children@.len() && imports_of(
                #[trigger] node.children@[c],
                source,
            ).contains(import)),
        node.kind@ == "import_statement"@ ==> symbols_of(node, source).len() == 0,
        node.kind@ == "import_statement"@ ==> (imports_of(node, source).contains(import)
            <==> imported_path(node.children@, 0, source) == Some(import.source)
            && import.specifiers.len() == 0 && !import.is_reexport),
{
    let nodes = node.children@;
    lemma_symbols_in(nodes, nodes.len(), source, symbol);
    lemma_imports_in(nodes, nodes.len(), source, import);
    lemma_contains_add(
        own_symbols(node, source),
        symbols_in(nodes, nodes.len(), source),
        symbol,
    );
    if node.kind@ == "import_statement"@ {
        let list = imports_of(node, source);
        if let Some(path) = imported_path(nodes, 0, source) {
            assert(list[0] == import_of(path));
            if import.source == path && import.specifiers.len() == 0 && !import.is_reexport {
                assert(import.specifiers == Seq::<Seq<char>>::empty());
                assert(import == import_of(path));
                assert(list.contains(list[0]));
            }
        }
    }
}

/// A media block is read too: its own symbol, and all that stands in its blocks.
pub proof fn law_media_blocks_are_read(
    node: SyntaxNode,
    source: Seq<u8>,
    symbol: SymbolModel,
    b: int,
    c: int,
)
    requires
        node.kind@ == "media_statement"@,
        0 <= b < node.children@.len(),
        node.children@[b].kind@ == "block"@,
        0 <= c < node.children@[b].children@.len(),
    ensures
        media_symbol(node, source) == Some(symbol) ==> symbols_of(node, source).contains(symbol),
        symbols_of(node.children@[b].children@[c], source).contains(symbol) ==> symbols_of(
            node,
            source,
        ).contains(symbol),
{
    let nodes = node.children@;
    let inner = nodes[b].children@;
    reveal_strlit("media_statement");
    reveal_strlit("rule_set");
    reveal_strlit("keyframes_statement");
    reveal_strlit("import_statement");
    assert("media_statement"@.len() != "rule_set"@.len());
    assert("media_statement"@.len() != "keyframes_statement"@.len());
    assert("media_statement"@.len() != "import_statement"@.len());
    lemma_contains_add(
        own_symbols(node, source),
        symbols_in_blocks(nodes, nodes.len(), source),
        symbol,
    );
    if media_symbol(node, source) == Some(symbol) {
        assert(own_symbols(node, source)[0] == symbol);
    }
    if symbols_of(inner[c], source).contains(symbol) {
        lemma_symbols_in(inner, inner.len(), source, symbol);
        lemma_in_blocks(nodes, nodes.len(), source, symbol, b);
    }
}

proof fn lemma_in_blocks(
    nodes: Seq<SyntaxNode>,
    n: nat,
    source: Seq<u8>,
    symbol: SymbolModel,
    b: int,
)
    requires
        0 <= b < n <= nodes.len(),
        nodes[b].kind@ == "block"@,
        symbols_in(nodes[b].children@, nodes[b].children@.len(), source).contains(symbol),
    ensures
        symbols_in_blocks(nodes, n, source).contains(symbol),
    decreases n,
{
    let m = (n - 1) as nat;
    lemma_contains_add(
        symbols_in_blocks(nodes, m, source),
        symbols_in(nodes[m as int].children@, nodes[m as int].children@.len(), source),
        symbol,
    );
    if b < m {
        lemma_in_blocks(nodes, m, source, symbol, b);
    }
}

/// What a node itself stands for goes by its kind alone.
pub proof fn law_own_symbols(node: SyntaxNode, source: Seq<u8>)
    ensures
        node.kind@ == "rule_set"@ ==> own_symbols(node, source) == rule_symbols(node, source),
        node.kind@ == "keyframes_statement"@ ==> own_symbols(node, source) == (
        match keyframes_symbol(node, source) {
            Some(symbol) => seq![symbol],
            None => Seq::empty(),
        }),
        node.kind@ == "declaration"@ ==> own_symbols(node, source) == (
        match property_symbol(node, source) {
            Some(symbol) => seq![symbol],
            None => Seq::empty(),
        }),
        node.kind@ != "rule_set"@ && node.kind@ != "keyframes_statement"@ && node.kind@
            != "declaration"@ && node.kind@ != "media_statement"@ ==> own_symbols(node, source).len()
            == 0,
{
    reveal_strlit("rule_set");
    reveal_strlit("keyframes_statement");
    reveal_strlit("import_statement");
    reveal_strlit("media_statement");
    reveal_strlit("declaration");
    assert("declaration"@.len() != "rule_set"@.len());
    assert("declaration"@.len() != "keyframes_statement"@.len());
    assert("declaration"@.len() != "import_statement"@.len());
    assert("declaration"@.len() != "media_statement"@.len());
    assert("keyframes_statement"@.len() != "rule_set"@.len());
}

/// The imports in the blocks of a media block are read.
pub proof fn law_imports_in_media_blocks(
    node: SyntaxNode,
    source: Seq<u8>,
    import: ImportModel,
    b: int,
    c: int,
)
    requires
        node.kind@ == "media_statement"@,
        0 <= b < node.children@.len(),
        node.children@[b].kind@ == "block"@,
        0 <= c < node.children@[b].children@.len(),
        imports_of(node.children@[b].children@[c], source).contains(import),
    ensures
        imports_of(node, source).contains(import),
{
    let nodes = node.children@;
    let inner = nodes[b].children@;
    reveal_strlit("media_statement");
    reveal_strlit("import_statement");
    assert("media_statement"@.len() != "import_statement"@.len());
    lemma_imports_in(inner, inner.len(), source, import);
    lemma_import_in_blocks(nodes, nodes.len(), source, import, b);
}

proof fn lemma_import_in_blocks(
    nodes: Seq<SyntaxNode>,
    n: nat,
    source: Seq<u8>,
    import: ImportModel,
    b: int,
)
    requires
        0 <= b < n <= nodes.len(),
        nodes[b].kind@ == "block"@,
        imports_in(nodes[b].children@, nodes[b].children@.len(), source).contains(import),
    ensures
        imports_in_blocks(nodes, n, source).contains(import),
    decreases n,
{
    let m = (n - 1) as nat;
    lemma_contains_add(
        imports_in_blocks(nodes, m, source),
        imports_in(nodes[m as int].children@, nodes[m as int].children@.len(), source),
        import,
    );
    if b < m {
        lemma_import_in_blocks(nodes, m, source, import, b);
    }
}

}
