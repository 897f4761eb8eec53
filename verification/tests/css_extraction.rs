use qartez::index::languages::css::{normalize_selector_text, CssSupport};
use qartez::index::symbols::{ParseResult, SymbolKind};

fn parse_css(source: &str) -> ParseResult {
    let support = CssSupport;
    let root = support.parse(source.as_bytes()).unwrap();
    support.extract(source.as_bytes(), &root)
}

#[test]
fn test_class_selector() {
    let result = parse_css(".container { display: flex; }");
    assert_eq!(result.symbols.len(), 1);
    assert_eq!(result.symbols[0].name, ".container");
    assert!(matches!(result.symbols[0].kind, SymbolKind::Class));
    assert!(result.symbols[0].is_exported);
}

#[test]
fn test_id_selector() {
    let result = parse_css("#header { height: 60px; }");
    assert_eq!(result.symbols.len(), 1);
    assert_eq!(result.symbols[0].name, "#header");
    assert!(matches!(result.symbols[0].kind, SymbolKind::Variable));
}

#[test]
fn test_keyframes() {
    let result = parse_css("@keyframes fadeIn { from { opacity: 0; } to { opacity: 1; } }");
    let kf: Vec<_> = result
        .symbols
        .iter()
        .filter(|s| matches!(s.kind, SymbolKind::Function))
        .collect();
    assert_eq!(kf.len(), 1);
    assert_eq!(kf[0].name, "@keyframes fadeIn");
}

#[test]
fn test_custom_property() {
    let result = parse_css(":root { --primary-color: #333; }");
    let vars: Vec<_> = result
        .symbols
        .iter()
        .filter(|s| s.name.starts_with("--"))
        .collect();
    assert_eq!(vars.len(), 1);
    assert_eq!(vars[0].name, "--primary-color");
}

#[test]
fn test_import() {
    let result = parse_css("@import \"reset.css\";");
    assert_eq!(result.imports.len(), 1);
    assert_eq!(result.imports[0].source, "reset.css");
}

#[test]
fn test_import_url() {
    let result = parse_css("@import url(\"fonts.css\");");
    assert_eq!(result.imports.len(), 1);
    assert_eq!(result.imports[0].source, "fonts.css");
}

#[test]
fn test_empty_file() {
    let result = parse_css("");
    assert!(result.symbols.is_empty());
    assert!(result.imports.is_empty());
}

#[test]
fn test_media_query() {
    let result = parse_css("@media (max-width: 768px) {\n  .mobile { display: block; }\n}");
    let media: Vec<_> = result
        .symbols
        .iter()
        .filter(|s| matches!(s.kind, SymbolKind::Module))
        .collect();
    assert_eq!(media.len(), 1);

    let classes: Vec<_> = result
        .symbols
        .iter()
        .filter(|s| matches!(s.kind, SymbolKind::Class))
        .collect();
    assert_eq!(classes.len(), 1);
    assert_eq!(classes[0].name, ".mobile");
}

#[test]
fn test_mixed_declarations() {
    let result = parse_css(
        r#"@import "base.css";

:root {
  --main-bg: #fff;
  --text-color: #333;
}

.header { background: var(--main-bg); }

#app { margin: 0 auto; }

@keyframes slideIn {
  from { transform: translateX(-100%); }
  to { transform: translateX(0); }
}
"#,
    );

    let names: Vec<&str> = result.symbols.iter().map(|s| s.name.as_str()).collect();
    assert!(names.contains(&"--main-bg"));
    assert!(names.contains(&"--text-color"));
    assert!(names.contains(&".header"));
    assert!(names.contains(&"#app"));
    assert!(names.contains(&"@keyframes slideIn"));

    assert_eq!(result.imports.len(), 1);
    assert_eq!(result.imports[0].source, "base.css");
}

#[test]
fn test_descendant_selector_emits_one_symbol() {
    // `.hero__atlas .hero__arcs path { ... }` targets the `path`
    // element inside `.hero__arcs` inside `.hero__atlas`. That is ONE
    // rule, so the extractor should emit ONE symbol, not one per
    // nested class/tag.
    let result = parse_css(".hero__atlas .hero__arcs path { fill: red; }");
    assert_eq!(result.symbols.len(), 1, "descendant selector = one rule");
    assert_eq!(result.symbols[0].name, ".hero__atlas .hero__arcs path");
}

#[test]
fn test_compound_selector_emits_one_symbol() {
    // Same rule, written with pseudo-class (`:hover`), combinator
    // (`>`), or stacked classes (`.a.b`) - still one rule, one
    // symbol each.
    let hover = parse_css(".btn:hover { opacity: 0.8; }");
    assert_eq!(hover.symbols.len(), 1);
    assert_eq!(hover.symbols[0].name, ".btn:hover");

    let child = parse_css(".card > .title { font-size: 16px; }");
    assert_eq!(child.symbols.len(), 1);
    assert_eq!(child.symbols[0].name, ".card > .title");

    let stacked = parse_css(".is-primary.is-disabled { opacity: 0.5; }");
    assert_eq!(stacked.symbols.len(), 1);
    assert_eq!(stacked.symbols[0].name, ".is-primary.is-disabled");
}

#[test]
fn test_selector_list_emits_one_symbol_per_entry() {
    // Comma-separated selectors DO target distinct things - each entry
    // gets its own symbol so callers can navigate to a specific
    // class/id.
    let result = parse_css(".a, .b, #c { display: none; }");
    let names: Vec<&str> = result.symbols.iter().map(|s| s.name.as_str()).collect();
    assert_eq!(result.symbols.len(), 3);
    assert!(names.contains(&".a"));
    assert!(names.contains(&".b"));
    assert!(names.contains(&"#c"));
}

#[test]
fn test_compound_selector_normalizes_whitespace() {
    // Authors routinely wrap long selector lists across multiple
    // lines. The emitted symbol name should collapse any whitespace
    // (newlines, tabs, runs of spaces) into a single space so the
    // symbol reads identically regardless of formatting.
    let src = ".outer\n  .middle\n  .inner { color: red; }";
    let result = parse_css(src);
    assert_eq!(result.symbols.len(), 1);
    assert_eq!(result.symbols[0].name, ".outer .middle .inner");
}

#[test]
fn selector_text_is_normalized_once() {
    let once = normalize_selector_text("  .a\t\n >  .b ");
    assert_eq!(once, ".a > .b");
    assert_eq!(normalize_selector_text(&once), once);
}

#[test]
fn symbols_carry_lines_and_signatures() {
    let result = parse_css("\n.card {\n  color: red;\n}\n");
    assert_eq!(result.symbols.len(), 1);
    assert_eq!(result.symbols[0].line_start, 2);
    assert_eq!(result.symbols[0].line_end, 4);
    assert_eq!(result.symbols[0].signature.as_deref(), Some(".card"));
    assert_eq!(result.symbols[0].parent_idx, None);
}

#[test]
fn nested_rules_are_free_standing() {
    let result =
        parse_css("@media print { .a { color: red; } #b { --gap: 1px; } }\n@import url(x.css);");
    assert!(result.symbols.iter().all(|s| s.parent_idx.is_none()));
    let names: Vec<&str> = result.symbols.iter().map(|s| s.name.as_str()).collect();
    assert!(names.contains(&".a"));
    assert!(names.contains(&"#b"));
}

#[test]
fn parse_lists_the_whole_source() {
    let source = ".a { color: red; }";
    let root = CssSupport.parse(source.as_bytes()).unwrap();
    assert_eq!(root.kind, "stylesheet");
    assert_eq!(root.start_byte, 0);
    assert_eq!(root.end_byte, source.len());
    assert_eq!(root.children.len(), 1);
    assert_eq!(root.children[0].kind, "rule_set");
}

#[test]
fn style_sheets_refer_to_no_symbols() {
    let result = parse_css("@import \"a.css\";\n.a { color: var(--b); }");
    assert!(result.references.is_empty());
    assert_eq!(result.imports.len(), 1);
    assert_eq!(result.symbols.len(), 1);
}
