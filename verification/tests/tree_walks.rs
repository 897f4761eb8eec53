use qartez::group_map::GroupMap;
use qartez::server::treesitter::{
    are_calls_readable, are_identifiers_readable, capitalize_kind, collect_call_names, collect_identifiers_grouped, extract_callee_name,
    pluralize,
};
use qartez::syntax::{list_preorder, tree_of, NodeRecord, SyntaxNode};
use tree_sitter::Parser;

fn parse_rust(src: &str) -> SyntaxNode {
    let mut parser = Parser::new();
    parser
        .set_language(&tree_sitter::Language::new(tree_sitter_rust::LANGUAGE))
        .unwrap();
    let tree = parser.parse(src, None).unwrap();
    let mut cursor = tree.walk();
    let records = (0..tree.root_node().descendant_count())
        .map(|i| {
            cursor.goto_descendant(i);
            let node = cursor.node();
            NodeRecord {
                depth: cursor.depth(),
                kind: node.kind().to_string(),
                named: node.is_named(),
                start_byte: node.start_byte(),
                end_byte: node.end_byte(),
                start_row: node.start_position().row,
                end_row: node.end_position().row,
                field: cursor.field_name().map(|name| name.to_string()),
            }
        })
        .collect();
    tree_of(&records, src.len()).unwrap()
}

fn leaf(kind: &str, start: usize, end: usize, row: usize) -> SyntaxNode {
    SyntaxNode {
        kind: kind.to_string(),
        named: true,
        start_byte: start,
        end_byte: end,
        start_row: row,
        end_row: row,
        field: None,
        children: Vec::new(),
    }
}

#[test]
fn identifiers_are_grouped_by_text() {
    let src = "fn add(a: i32) -> i32 {\n    a + a\n}\n";
    let root = parse_rust(src);
    let mut results = GroupMap::new();
    collect_identifiers_grouped(&root, src.as_bytes(), &mut results);
    assert_eq!(results.get("add").unwrap(), &vec![(1, 3, 6)]);
    assert_eq!(results.get("a").unwrap(), &vec![(1, 7, 8), (2, 28, 29), (2, 32, 33)]);
    assert!(results.get("b").is_none());
    for (text, places) in [("add", results.get("add")), ("a", results.get("a"))] {
        for (_, start, end) in places.unwrap() {
            assert_eq!(&src[*start..*end], text);
        }
    }
}

#[test]
fn identifiers_are_added_to_what_is_there() {
    let src = "fn a() {}";
    let root = parse_rust(src);
    let mut results = GroupMap::new();
    results.push("a", (9, 9, 9));
    collect_identifiers_grouped(&root, src.as_bytes(), &mut results);
    assert_eq!(results.get("a").unwrap(), &vec![(9, 9, 9), (1, 3, 4)]);
    assert_eq!(results.into_groups().len(), 1);
}

#[test]
fn calls_are_listed_with_their_lines() {
    let src = "fn main() {\n    run();\n    self.work.stop();\n    a::b::go(1);\n}\n";
    let root = parse_rust(src);
    let mut results = Vec::new();
    collect_call_names(&root, src.as_bytes(), &mut results);
    assert_eq!(
        results,
        vec![
            ("run".to_string(), 2),
            ("stop".to_string(), 3),
            ("go".to_string(), 4),
        ]
    );
}

#[test]
fn a_call_without_a_field_is_named_by_its_first_child() {
    let source = b"run()";
    let mut call = leaf("function_call", 0, 5, 0);
    call.children.push(leaf("identifier", 0, 3, 0));
    let mut results = Vec::new();
    collect_call_names(&call, source, &mut results);
    assert_eq!(results, vec![("run".to_string(), 1)]);
    let mut results = vec![("other".to_string(), 1)];
    collect_call_names(&call, source, &mut results);
    assert_eq!(results.len(), 1, "the line is taken already");
}

#[test]
fn callee_names_come_from_members() {
    let source = b"a.b.c";
    let mut member = leaf("member_expression", 0, 5, 0);
    assert_eq!(extract_callee_name(&member, source), "");
    member.children.push(leaf("identifier", 0, 1, 0));
    member.children.push(leaf("identifier", 4, 5, 0));
    assert_eq!(extract_callee_name(&member, source), "c");
    member.children[0].field = Some("property".to_string());
    assert_eq!(extract_callee_name(&member, source), "a");
    assert_eq!(extract_callee_name(&leaf("identifier", 2, 3, 0), source), "b");
    assert_eq!(extract_callee_name(&leaf("other", 0, 5, 0), source), "a.b.c");
    assert_eq!(extract_callee_name(&leaf("other", 0, 1, 0), b"\xFF"), "");
}

#[test]
fn deep_trees_are_built_and_walked() {
    let depth = 200_000u32;
    let mut records: Vec<NodeRecord> = (0..depth).map(|at| record(at, "block", 0, 1)).collect();
    records.push(record(depth, "identifier", 0, 1));
    let root = tree_of(&records, 1).unwrap();
    assert_eq!(list_preorder(&root).len(), 200_001);
    assert!(are_identifiers_readable(&root, b"x"));
    assert!(are_calls_readable(&root, b"x", Vec::new()));
    let mut results = GroupMap::new();
    collect_identifiers_grouped(&root, b"x", &mut results);
    assert_eq!(results.get("x").unwrap(), &vec![(1, 0, 1)]);
    let mut calls = Vec::new();
    collect_call_names(&root, b"x", &mut calls);
    assert!(calls.is_empty());
    let mut pending = vec![root];
    while let Some(mut node) = pending.pop() {
        pending.append(&mut node.children);
    }
}

#[test]
fn trees_are_listed_parents_first() {
    let mut root = leaf("a", 0, 4, 0);
    let mut left = leaf("b", 0, 2, 0);
    left.children.push(leaf("c", 0, 1, 0));
    root.children.push(left);
    root.children.push(leaf("d", 2, 4, 0));
    let kinds: Vec<&str> = list_preorder(&root).iter().map(|n| n.kind.as_str()).collect();
    assert_eq!(kinds, ["a", "b", "c", "d"]);
}

fn record(depth: u32, kind: &str, start: usize, end: usize) -> NodeRecord {
    NodeRecord {
        depth,
        kind: kind.to_string(),
        named: true,
        start_byte: start,
        end_byte: end,
        start_row: 0,
        end_row: 0,
        field: None,
    }
}

#[test]
fn records_grow_into_a_tree() {
    let records = vec![
        record(0, "a", 0, 4),
        record(1, "b", 0, 2),
        record(2, "c", 0, 1),
        record(1, "d", 2, 4),
    ];
    let root = tree_of(&records, 4).unwrap();
    assert_eq!(root.children.len(), 2);
    assert_eq!(root.children[0].children[0].kind, "c");
    assert_eq!(root.children[1].kind, "d");
}

#[test]
fn records_that_are_no_tree_are_refused() {
    assert!(tree_of(&Vec::new(), 4).is_none());
    assert!(tree_of(&vec![record(1, "a", 0, 1)], 4).is_none());
    assert!(tree_of(&vec![record(0, "a", 0, 1), record(2, "b", 0, 1)], 4).is_none());
    assert!(tree_of(&vec![record(0, "a", 0, 1), record(0, "b", 0, 1)], 4).is_none());
    assert!(tree_of(&vec![record(0, "a", 3, 1)], 4).is_none());
    assert!(tree_of(&vec![record(0, "a", 5, 6)], 4).is_none());
}

#[test]
fn kinds_become_headings() {
    assert_eq!(capitalize_kind("function"), "Functions");
    assert_eq!(capitalize_kind("class"), "Classes");
    assert_eq!(capitalize_kind("branch"), "Branches");
    assert_eq!(capitalize_kind("mesh"), "Meshes");
    assert_eq!(capitalize_kind("x"), "Xs");
    assert_eq!(capitalize_kind("9x"), "9xs");
    assert_eq!(capitalize_kind("ßa"), "SSas");
    assert_eq!(capitalize_kind(""), "");
    assert_eq!(pluralize("S".to_string()), "Ss");
    assert_eq!(pluralize("".to_string()), "s");
}

#[test]
fn lower_case_ascii_letters_are_raised() {
    for c in 'a'..='z' {
        let raised = char::from(c as u8 - 32);
        assert_eq!(capitalize_kind(&format!("{c}x")), format!("{raised}xs"));
    }
    for c in (0u8..128).map(char::from).filter(|c| !c.is_ascii_lowercase()) {
        assert_eq!(capitalize_kind(&format!("{c}x")), format!("{c}xs"));
    }
}

#[test]
fn calls_without_a_name_are_not_noted() {
    let mut call = leaf("call_expression", 0, 2, 0);
    call.children.push(leaf("identifier", 0, 0, 0));
    call.children[0].field = Some("function".to_string());
    let mut results = vec![("kept".to_string(), 7)];
    collect_call_names(&call, b"()", &mut results);
    assert_eq!(results, vec![("kept".to_string(), 7)]);
}

#[test]
fn trees_of_their_source_can_be_read() {
    let src = "fn a() {\n    b.c();\n}\n";
    let root = parse_rust(src);
    assert!(are_identifiers_readable(&root, src.as_bytes()));
    assert!(are_calls_readable(&root, src.as_bytes(), Vec::new()));
    assert!(!are_identifiers_readable(&root, b"fn a"));
    assert!(!are_calls_readable(&root, b"fn a", Vec::new()));
}

#[test]
fn only_what_is_read_has_to_lie_inside() {
    let source = b"run()";
    let mut call = leaf("call_expression", 0, 99, 0);
    call.children.push(leaf("identifier", 0, 3, 0));
    call.children[0].field = Some("function".to_string());
    call.children.push(leaf("arguments", 3, 99, 0));
    assert!(are_identifiers_readable(&call, source));
    assert!(are_calls_readable(&call, source, Vec::new()));
    let mut results = Vec::new();
    collect_call_names(&call, source, &mut results);
    assert_eq!(results, vec![("run".to_string(), 1)]);
    call.children[0].end_byte = 99;
    assert!(!are_identifiers_readable(&call, source));
    assert!(!are_calls_readable(&call, source, Vec::new()));
    let mut bare = leaf("function_call", 0, 5, 0);
    bare.children.push(leaf("other", 3, 2, 0));
    assert!(are_identifiers_readable(&bare, source));
    assert!(!are_calls_readable(&bare, source, Vec::new()));
    assert!(are_calls_readable(&bare, source, vec![("earlier".to_string(), 1)]));
    assert!(!leaf("other", 3, 2, 0).is_inside(5));
    assert!(leaf("other", 3, 5, 0).is_inside(5));
}
