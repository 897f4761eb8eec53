use qartez::index::languages::common::{
    brace_or_first_line_signature, brace_or_first_line_signature_str, children,
    first_line_signature, first_line_signature_str, node_text, truncate_at_char_boundary, unquote,
};
use qartez::syntax::SyntaxNode;
use tree_sitter::Parser;

fn convert(cursor: &mut tree_sitter::TreeCursor<'_>) -> SyntaxNode {
    let node = cursor.node();
    let field = cursor.field_name().map(|name| name.to_string());
    let mut below = Vec::new();
    if cursor.goto_first_child() {
        loop {
            below.push(convert(cursor));
            if !cursor.goto_next_sibling() {
                break;
            }
        }
        cursor.goto_parent();
    }
    SyntaxNode {
        kind: node.kind().to_string(),
        named: node.is_named(),
        start_byte: node.start_byte(),
        end_byte: node.end_byte(),
        start_row: node.start_position().row,
        end_row: node.end_position().row,
        field,
        children: below,
    }
}

fn parse_rust(src: &str) -> SyntaxNode {
    let mut parser = Parser::new();
    parser
        .set_language(&tree_sitter::Language::new(tree_sitter_rust::LANGUAGE))
        .unwrap();
    let tree = parser.parse(src, None).unwrap();
    let mut cursor = tree.root_node().walk();
    convert(&mut cursor)
}

fn floor_char_boundary(s: &str, at: usize) -> usize {
    let mut at = at.min(s.len());
    while !s.is_char_boundary(at) {
        at -= 1;
    }
    at
}

#[test]
fn plain_text_unchanged() {
    assert_eq!(unquote("hello"), "hello");
}

#[test]
fn strips_double_quotes() {
    assert_eq!(unquote("\"hello\""), "hello");
}

#[test]
fn strips_single_quotes() {
    assert_eq!(unquote("'hello'"), "hello");
}

#[test]
fn trims_whitespace_before_stripping() {
    assert_eq!(unquote("  \"hello\"  "), "hello");
    assert_eq!(unquote("\n\t'hello'\t\n"), "hello");
}

#[test]
fn leaves_mismatched_quotes_alone() {
    assert_eq!(unquote("\"hello"), "\"hello");
    assert_eq!(unquote("hello\""), "hello\"");
    assert_eq!(unquote("\"hello'"), "\"hello'");
    assert_eq!(unquote("'hello\""), "'hello\"");
}

#[test]
fn empty_string_stays_empty() {
    assert_eq!(unquote(""), "");
    assert_eq!(unquote("   "), "");
}

#[test]
fn single_quote_char_unchanged() {
    assert_eq!(unquote("\""), "\"");
    assert_eq!(unquote("'"), "'");
}

#[test]
fn empty_quoted_string_becomes_empty() {
    assert_eq!(unquote("\"\""), "");
    assert_eq!(unquote("''"), "");
}

#[test]
fn preserves_inner_whitespace() {
    assert_eq!(unquote("\"hello world\""), "hello world");
    assert_eq!(unquote("'  inner  '"), "  inner  ");
}

#[test]
fn preserves_utf8_content() {
    assert_eq!(unquote("\"привет\""), "привет");
    assert_eq!(unquote("'你好'"), "你好");
    assert_eq!(unquote("\"🎉\""), "🎉");
}

#[test]
fn does_not_strip_nested_mixed_quotes() {
    assert_eq!(unquote("\"'nested'\""), "'nested'");
    assert_eq!(unquote("'\"nested\"'"), "\"nested\"");
}

#[test]
fn nested_same_quotes_preserved() {
    assert_eq!(
        unquote("\"outer \"inner\" outer\""),
        "outer \"inner\" outer"
    );
}

#[test]
fn empty_returns_none() {
    assert_eq!(first_line_signature_str(""), None);
    assert_eq!(first_line_signature_str("   "), None);
    assert_eq!(first_line_signature_str("\n\n\n"), None);
}

#[test]
fn common_empty_returns_none() {
    assert_eq!(brace_or_first_line_signature_str(""), None);
    assert_eq!(brace_or_first_line_signature_str("   "), None);
    assert_eq!(brace_or_first_line_signature_str("{"), None);
    assert_eq!(brace_or_first_line_signature_str("  {  body }"), None);
}

#[test]
fn short_signature_passthrough() {
    let sig = "def f()";
    assert_eq!(first_line_signature_str(sig), Some(sig.into()));
}

#[test]
fn common_short_signature_passthrough() {
    assert_eq!(
        brace_or_first_line_signature_str("interface Foo"),
        Some("interface Foo".into())
    );
}

#[test]
fn single_line_returned() {
    assert_eq!(
        first_line_signature_str("fn hello() {}"),
        Some("fn hello() {}".into())
    );
}

#[test]
fn multi_line_returns_only_first() {
    assert_eq!(
        first_line_signature_str("fn hello() {\n    body();\n}"),
        Some("fn hello() {".into())
    );
}

#[test]
fn leading_whitespace_trimmed() {
    assert_eq!(
        first_line_signature_str("    fn hello()"),
        Some("fn hello()".into())
    );
}

#[test]
fn trailing_whitespace_trimmed() {
    assert_eq!(
        first_line_signature_str("fn hello()   \t"),
        Some("fn hello()".into())
    );
}

#[test]
fn exact_200_bytes_not_truncated() {
    let sig = "x".repeat(200);
    let result = first_line_signature_str(&sig).unwrap();
    assert_eq!(result.len(), 200);
    assert_eq!(result, sig);
}

#[test]
fn ascii_over_200_truncated_to_200() {
    let sig = "x".repeat(300);
    let result = first_line_signature_str(&sig).unwrap();
    assert_eq!(result.len(), 200);
    assert_eq!(result, "x".repeat(200));
}

#[test]
fn utf8_boundary_safe_over_200() {
    let sig = "а".repeat(101);
    assert_eq!(sig.len(), 202);
    let result = first_line_signature_str(&sig).unwrap();
    assert!(result.len() <= 200);
    assert!(result.chars().all(|c| c == 'а'));
}

#[test]
fn utf8_boundary_rounds_down() {
    let mut sig = "x".repeat(199);
    sig.push('а');
    assert_eq!(sig.len(), 201);
    let result = first_line_signature_str(&sig).unwrap();
    assert_eq!(result.len(), 199);
    assert_eq!(result, "x".repeat(199));
}

#[test]
fn emoji_at_boundary_safe() {
    let mut sig = "x".repeat(198);
    sig.push('\u{1F600}');
    sig.push_str("xx");
    assert!(sig.len() > 200);
    let result = first_line_signature_str(&sig).unwrap();
    assert_eq!(result.len(), 198);
}

#[test]
fn preserves_internal_whitespace() {
    assert_eq!(
        first_line_signature_str("fn  foo  (a: i32)  -> i32"),
        Some("fn  foo  (a: i32)  -> i32".into())
    );
}

#[test]
fn no_brace_falls_through_to_first_line() {
    assert_eq!(
        brace_or_first_line_signature_str("pub fn bar() -> i32"),
        Some("pub fn bar() -> i32".into())
    );
}

#[test]
fn brace_on_first_line_cuts_at_brace() {
    assert_eq!(
        brace_or_first_line_signature_str("fn hello() { body }"),
        Some("fn hello()".into())
    );
}

#[test]
fn brace_on_later_line_takes_multi_line_pre_brace() {
    assert_eq!(
        brace_or_first_line_signature_str(
            "fn long_sig(\n    arg: i32,\n) -> i32 {\n    body\n}"
        ),
        Some("fn long_sig(\n    arg: i32,\n) -> i32".into())
    );
}

#[test]
fn brace_first_char_returns_none() {
    assert_eq!(brace_or_first_line_signature_str("{ body }"), None);
}

#[test]
fn trailing_whitespace_before_brace_trimmed() {
    assert_eq!(
        brace_or_first_line_signature_str("fn foo()   {"),
        Some("fn foo()".into())
    );
}

#[test]
fn multi_line_no_brace_returns_first_line_only() {
    assert_eq!(
        brace_or_first_line_signature_str("fn foo()\n    -> i32\n    where T: Copy"),
        Some("fn foo()".into())
    );
}

#[test]
fn over_200_ascii_truncated() {
    let sig = "x".repeat(300);
    let result = brace_or_first_line_signature_str(&sig).unwrap();
    assert_eq!(result.len(), 200);
}

#[test]
fn utf8_safe_over_200_no_brace() {
    let sig = "а".repeat(101);
    assert_eq!(sig.len(), 202);
    let result = brace_or_first_line_signature_str(&sig).unwrap();
    assert!(result.len() <= 200);
    assert!(result.chars().all(|c| c == 'а'));
}

#[test]
fn utf8_safe_pre_brace_over_200() {
    let mut sig = "а".repeat(101);
    sig.push_str(" { body }");
    let result = brace_or_first_line_signature_str(&sig).unwrap();
    assert!(result.len() <= 200);
    assert!(result.chars().all(|c| c == 'а'));
}

fn byte_slice_first_line(text: &str) -> Option<String> {
    let first_line = text.lines().next().unwrap_or(text).trim();
    if first_line.is_empty() {
        return None;
    }
    let truncated = if first_line.len() > 200 {
        &first_line[..200]
    } else {
        first_line
    };
    Some(truncated.to_string())
}

fn floored_first_line(text: &str) -> Option<String> {
    let first_line = text.lines().next().unwrap_or(text).trim();
    if first_line.is_empty() {
        return None;
    }
    let truncated = if first_line.len() > 200 {
        &first_line[..floor_char_boundary(first_line, 200)]
    } else {
        first_line
    };
    Some(truncated.to_string())
}

fn floored_brace(text: &str) -> Option<String> {
    let sig = if let Some(brace_pos) = text.find('{') {
        text[..brace_pos].trim()
    } else {
        text.lines().next().unwrap_or(text).trim()
    };
    if sig.is_empty() {
        return None;
    }
    let truncated = if sig.len() > 200 {
        &sig[..floor_char_boundary(sig, 200)]
    } else {
        sig
    };
    Some(truncated.to_string())
}

fn byte_slice_brace(text: &str) -> Option<String> {
    let sig = if let Some(brace_pos) = text.find('{') {
        text[..brace_pos].trim()
    } else {
        text.lines().next().unwrap_or(text).trim()
    };
    if sig.is_empty() {
        return None;
    }
    let truncated = if sig.len() > 200 { &sig[..200] } else { sig };
    Some(truncated.to_string())
}

fn ascii_fixtures() -> Vec<String> {
    vec![
        String::new(),
        "   ".into(),
        "\n\n".into(),
        "fn hello()".into(),
        "fn hello() {}".into(),
        "fn hello() {\n    body\n}".into(),
        "def foo(x, y):\n    return x + y".into(),
        "interface Foo { bar(): void }".into(),
        "class X extends Y implements Z {".into(),
        "type Option<T> = ...".into(),
        "x".repeat(200),
        "x".repeat(201),
        "x".repeat(300),
        "   leading whitespace   \n  second line".into(),
        "func() { body_with_braces: { nested } }".into(),
        "   { brace_first }".into(),
        "fn sig(\n    a: i32,\n    b: i32,\n) -> i32 {".into(),
    ]
}

#[test]
fn first_line_ascii_matches_old_byte_slice() {
    for input in ascii_fixtures() {
        assert_eq!(
            first_line_signature_str(&input),
            byte_slice_first_line(&input),
            "first_line (byte-slice) divergence on input: {input:?}"
        );
    }
}

#[test]
fn first_line_ascii_matches_old_floor() {
    for input in ascii_fixtures() {
        assert_eq!(
            first_line_signature_str(&input),
            floored_first_line(&input),
            "first_line (floor) divergence on input: {input:?}"
        );
    }
}

#[test]
fn brace_ascii_matches_old_floor() {
    for input in ascii_fixtures() {
        assert_eq!(
            brace_or_first_line_signature_str(&input),
            floored_brace(&input),
            "brace (floor) divergence on input: {input:?}"
        );
    }
}

#[test]
fn brace_ascii_matches_old_byte_slice() {
    for input in ascii_fixtures() {
        assert_eq!(
            brace_or_first_line_signature_str(&input),
            byte_slice_brace(&input),
            "brace (byte-slice) divergence on input: {input:?}"
        );
    }
}



#[test]
fn long_text_is_cut_between_characters() {
    // The limit falls inside the two-byte letter.
    let mut line = "x".repeat(199);
    line.push('а');
    line.push_str(&"a".repeat(50));
    assert_eq!(first_line_signature_str(&line), Some("x".repeat(199)));

    let mut head = "а".repeat(99);
    head.push('x');
    head.push('а');
    head.push_str(&"y".repeat(30));
    let mut cut = "а".repeat(99);
    cut.push('x');
    let text = format!("{head} {{ body }}");
    assert_eq!(brace_or_first_line_signature_str(&text), Some(cut.clone()));
    assert_eq!(truncate_at_char_boundary(&head), cut);
}

#[test]
fn iterates_over_all_direct_children() {
    let root = parse_rust("fn a() {} fn b() {}");
    assert_eq!(children(&root).len(), 2);
}

fn find_leaf(node: &SyntaxNode) -> &SyntaxNode {
    if node.children.is_empty() {
        return node;
    }
    find_leaf(&node.children[0])
}

#[test]
fn empty_for_leaf_node() {
    let root = parse_rust("fn a() {}");
    let leaf = find_leaf(&root);
    assert_eq!(children(leaf).len(), 0);
}

#[test]
fn first_line_signature_matches_string_helper() {
    let src = "fn hello() {\n    let x = 1;\n}";
    let root = parse_rust(src);
    let fn_node = &root.children[0];
    let from_node = first_line_signature(fn_node, src.as_bytes());
    let from_str = first_line_signature_str(&src[fn_node.start_byte..fn_node.end_byte]);
    assert_eq!(from_node, from_str);
    assert_eq!(from_node, Some("fn hello() {".into()));
}

#[test]
fn brace_signature_cuts_at_brace() {
    let src = "fn sig(a: i32, b: i32) -> i32 {\n    a + b\n}";
    let root = parse_rust(src);
    let from_node = brace_or_first_line_signature(&root.children[0], src.as_bytes());
    assert_eq!(from_node, Some("fn sig(a: i32, b: i32) -> i32".into()));
}

#[test]
fn both_return_none_for_empty_node() {
    let root = parse_rust("");
    assert_eq!(first_line_signature(&root, b""), None);
    assert_eq!(brace_or_first_line_signature(&root, b""), None);
}

#[test]
fn invalid_utf8_returns_none() {
    let root = parse_rust("fn a() {}");
    let node = &root.children[0];
    let mut bad_source = vec![0xFF, 0xFE, 0xFD];
    while bad_source.len() < node.end_byte {
        bad_source.push(0xFF);
    }
    assert_eq!(first_line_signature(node, &bad_source), None);
    assert_eq!(brace_or_first_line_signature(node, &bad_source), None);
}

fn text_between(node: &SyntaxNode, source: &[u8]) -> String {
    let end = node.end_byte.min(source.len());
    std::str::from_utf8(&source[node.start_byte..end])
        .unwrap_or("")
        .to_string()
}

fn walk_all<'a>(node: &'a SyntaxNode, out: &mut Vec<&'a SyntaxNode>) {
    out.push(node);
    for child in children(node) {
        walk_all(child, out);
    }
}

#[test]
fn matches_old_impl_for_every_node_in_a_real_parse() {
    let src = "fn add(a: i32, b: i32) -> i32 {\n    a + b\n}\nstruct Point { x: i32, y: i32 }\nconst K: u32 = 7;\n";
    let root = parse_rust(src);
    let mut nodes = Vec::new();
    walk_all(&root, &mut nodes);
    assert!(
        nodes.len() > 20,
        "fixture should produce a non-trivial tree, got {}",
        nodes.len()
    );
    for node in nodes {
        assert_eq!(
            node_text(node, src.as_bytes()),
            text_between(node, src.as_bytes()),
            "divergence at byte range {}..{} kind={}",
            node.start_byte,
            node.end_byte,
            node.kind,
        );
    }
}

#[test]
fn returns_empty_string_for_invalid_utf8() {
    let root = parse_rust("fn a() {}");
    let node = &root.children[0];
    let mut bad_source = vec![0xFF, 0xFE, 0xFD];
    while bad_source.len() < node.end_byte {
        bad_source.push(0xFF);
    }
    assert_eq!(node_text(node, &bad_source), "");
    assert_eq!(node_text(node, &bad_source), text_between(node, &bad_source));
}

#[test]
fn clamps_end_byte_to_source_len() {
    let src = "fn a() {}";
    let root = parse_rust(src);
    let node = &root.children[0];
    let truncated_source = &src.as_bytes()[..3];
    let text = node_text(node, truncated_source);
    assert_eq!(text, text_between(node, truncated_source));
    assert!(text == "fn " || text.is_empty());
}

#[test]
fn empty_source_returns_empty() {
    let root = parse_rust("");
    assert_eq!(node_text(&root, b""), "");
}

#[test]
fn single_char_node_round_trips() {
    let src = "fn a() {}";
    let root = parse_rust(src);
    let mut nodes = Vec::new();
    walk_all(&root, &mut nodes);
    for node in nodes
        .iter()
        .filter(|n| n.children.is_empty() && (n.end_byte - n.start_byte) <= 4)
    {
        assert_eq!(
            node_text(node, src.as_bytes()),
            text_between(node, src.as_bytes())
        );
    }
}

#[test]
fn utf8_content_preserved() {
    let src = "fn привет() -> &'static str { \"hello 🎉\" }";
    let root = parse_rust(src);
    let mut nodes = Vec::new();
    walk_all(&root, &mut nodes);
    for node in nodes {
        assert_eq!(
            node_text(node, src.as_bytes()),
            text_between(node, src.as_bytes()),
            "UTF-8 divergence at byte range {}..{} kind={}",
            node.start_byte,
            node.end_byte,
            node.kind,
        );
    }
}

#[test]
fn whole_program_round_trip_matches_source_slice() {
    let src = "fn main() {\n    let x = 42;\n    println!(\"{}\", x);\n}";
    let root = parse_rust(src);
    assert_eq!(node_text(&root, src.as_bytes()), src);
}
