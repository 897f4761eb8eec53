//! Identifiers and calls in a syntax tree.
use vstd::prelude::*;
use vstd::string::*;

use crate::group_map;
use crate::group_map::GroupMap;
use crate::index::languages::common;
use crate::index::languages::common::{node_text, node_text_opt};
use crate::syntax;
use crate::syntax::{list_preorder, SyntaxNode};
use crate::text;
use crate::text::{ends_with, same};

verus! {

/// Whether a kind of node is an identifier.
pub open spec fn identifier_kind(kind: Seq<char>) -> bool {
    ||| kind == "identifier"@
    ||| kind == "type_identifier"@
    ||| kind == "field_identifier"@
    ||| kind == "property_identifier"@
    ||| kind == "simple_identifier"@
    ||| kind == "shorthand_property_identifier_pattern"@
    ||| kind == "shorthand_property_identifier"@
}

fn is_identifier_kind(kind: &str) -> (r: bool)
    ensures
        r == identifier_kind(kind@),
{
    same(kind, "identifier") || same(kind, "type_identifier") || same(kind, "field_identifier")
        || same(kind, "property_identifier") || same(kind, "simple_identifier") || same(
        kind,
        "shorthand_property_identifier_pattern",
    ) || same(kind, "shorthand_property_identifier")
}

/// The identifiers among `nodes` whose bytes are well-formed, each by its text
/// and by its line, counted from one, its first byte and its end.
pub open spec fn identifiers(nodes: Seq<SyntaxNode>, source: Seq<u8>) -> Seq<
    (Seq<char>, (usize, usize, usize)),
>
    decreases nodes.len(),
{
    if nodes.len() == 0 {
        Seq::empty()
    } else {
        let rest = identifiers(nodes.drop_last(), source);
        let node = nodes.last();
        match common::decoded(node, source) {
            Some(text) => if identifier_kind(node.kind@) {
                rest.push((text, ((node.start_row + 1) as usize, node.start_byte, node.end_byte)))
            } else {
                rest
            },
            None => rest,
        }
    }
}

/// Whether the identifiers among `nodes` can be read: they lie inside a source of
/// `len` bytes, and their lines can be counted from one.
pub open spec fn identifiers_readable(nodes: Seq<SyntaxNode>, len: int) -> bool {
    forall|k: int|
        0 <= k < nodes.len() && identifier_kind((#[trigger] nodes[k]).kind@)
            ==> nodes[k].ends_in(len) && nodes[k].start_row < usize::MAX
}

/// Tells whether the identifiers of a tree can be read.
pub fn are_identifiers_readable(root: &SyntaxNode, source: &[u8]) -> (r: bool)
    ensures
        r == identifiers_readable(root.preorder(), source@.len() as int),
{
    let nodes = list_preorder(root);
    let n: usize = nodes.len();
    let ghost all = root.preorder();
    let mut i: usize = 0;
    assert(all.len() == n);
    while i < n
        invariant
            n == nodes@.len(),
            syntax::pointed_at(nodes@) == all,
            all == root.preorder(),
            n == all.len(),
            i <= n,
            forall|k: int|
                0 <= k < i && identifier_kind((#[trigger] all[k]).kind@) ==> all[k].ends_in(
                    source@.len() as int,
                ) && all[k].start_row < usize::MAX,
        decreases n - i,
    {
        let node = nodes[i];
        assert(all[i as int] == *node);
        if is_identifier_kind(node.kind.as_str()) && !(node.is_inside(source.len())
            && node.start_row < usize::MAX) {
            return false;
        }
        i = i + 1;
    }
    true
}

/// Adds every identifier of a tree to `results`, under its text.
pub fn collect_identifiers_grouped(
    root: &SyntaxNode,
    source: &[u8],
    results: &mut GroupMap<(usize, usize, usize)>,
)
    requires
        identifiers_readable(root.preorder(), source@.len() as int),
        old(results).well_formed(),
    ensures
        final(results).well_formed(),
        final(results).groups() == group_map::extended(
            old(results).groups(),
            identifiers(root.preorder(), source@),
        ),
{
    let nodes = list_preorder(root);
    let n: usize = nodes.len();
    let ghost all = root.preorder();
    let ghost start = results.groups();
    let mut i: usize = 0;
    assert(all.len() == n);
    while i < n
        invariant
            n == nodes@.len(),
            syntax::pointed_at(nodes@) == all,
            identifiers_readable(all, source@.len() as int),
            i <= n,
            results.well_formed(),
            results.groups() == group_map::extended(
                start,
                identifiers(all.take(i as int), source@),
            ),
        decreases n - i,
    {
        let node = nodes[i];
        proof {
            assert(all[i as int] == *node);
            assert(all.take(i + 1).drop_last() == all.take(i as int));
        }
        let ghost so_far = identifiers(all.take(i as int), source@);
        if is_identifier_kind(node.kind.as_str()) {
            match node_text_opt(node, source) {
                Some(text) => {
                    let place = (node.start_row + 1, node.start_byte, node.end_byte);
                    results.push(text, place);
                    assert(so_far.push((text@, place)).drop_last() == so_far);
                },
                None => {},
            }
        }
        i = i + 1;
    }
    assert(all.take(n as int) == all);
}

/// Every identifier is reported with the range of bytes that holds its text.
pub proof fn law_identifier_range_holds_text(nodes: Seq<SyntaxNode>, source: Seq<u8>, k: int)
    requires
        0 <= k < identifiers(nodes, source).len(),
        identifiers_readable(nodes, source.len() as int),
    ensures
        ({
            let (text, (_, start, end)) = identifiers(nodes, source)[k];
            start <= end <= source.len() && vstd::utf8::valid_utf8(
                source.subrange(start as int, end as int),
            ) && text == vstd::utf8::decode_utf8(source.subrange(start as int, end as int))
        }),
    decreases nodes.len(),
{
    let rest = nodes.drop_last();
    if k < identifiers(rest, source).len() {
        assert forall|i: int|
            0 <= i < rest.len() && identifier_kind(
                (#[trigger] rest[i]).kind@,
            ) implies rest[i].ends_in(source.len() as int) && rest[i].start_row < usize::MAX by {
            assert(rest[i] == nodes[i]);
        }
        law_identifier_range_holds_text(rest, source, k);
    } else {
        assert(nodes[nodes.len() - 1] == nodes.last());
    }
}

/// Whether a kind of node is a call.
pub open spec fn call_kind(kind: Seq<char>) -> bool {
    ||| kind == "call_expression"@
    ||| kind == "method_invocation"@
    ||| kind == "function_call"@
    ||| kind == "member_expression"@
}

fn is_call_kind(kind: &str) -> (r: bool)
    ensures
        r == call_kind(kind@),
{
    same(kind, "call_expression") || same(kind, "method_invocation") || same(
        kind,
        "function_call",
    ) || same(kind, "member_expression")
}

/// The first of `nodes` that stands under a field.
pub open spec fn in_field(nodes: Seq<SyntaxNode>, field: Seq<char>) -> Option<SyntaxNode>
    decreases nodes.len(),
{
    if nodes.len() == 0 {
        None
    } else if text::optional_text(nodes[0].field) == Some(field) {
        Some(nodes[0])
    } else {
        in_field(nodes.drop_first(), field)
    }
}

/// Whether a reference, if there is one, refers to the value of an option.
spec fn refers_to(found: Option<&SyntaxNode>, node: Option<SyntaxNode>) -> bool {
    match found {
        Some(found) => node == Some(*found),
        None => node is None,
    }
}

fn child_in_field<'a>(node: &'a SyntaxNode, field: &str) -> (r: Option<&'a SyntaxNode>)
    ensures
        refers_to(r, in_field(node.children@, field@)),
{
    let n: usize = node.children.len();
    let mut i: usize = 0;
    assert(node.children@.skip(0) == node.children@);
    while i < n
        invariant
            n == node.children@.len(),
            i <= n,
            in_field(node.children@, field@) == in_field(node.children@.skip(i as int), field@),
        decreases n - i,
    {
        assert(node.children@.skip(i as int)[0] == node.children@[i as int]);
        assert(node.children@.skip(i as int).drop_first() == node.children@.skip(i + 1));
        match &node.children[i].field {
            Some(name) => {
                if same(name.as_str(), field) {
                    return Some(&node.children[i]);
                }
            },
            None => {},
        }
        i = i + 1;
    }
    None
}

/// The first value of two options.
pub open spec fn either(a: Option<SyntaxNode>, b: Option<SyntaxNode>) -> Option<SyntaxNode> {
    if a is Some {
        a
    } else {
        b
    }
}

/// The child of a call that names what is called.
pub open spec fn callee_child(node: SyntaxNode) -> Option<SyntaxNode> {
    either(
        in_field(node.children@, "function"@),
        either(in_field(node.children@, "name"@), in_field(node.children@, "method"@)),
    )
}

/// Whether a kind of node is a path to a member.
pub open spec fn member_kind(kind: Seq<char>) -> bool {
    ||| kind == "field_expression"@
    ||| kind == "member_expression"@
    ||| kind == "scoped_identifier"@
    ||| kind == "attribute"@
}

/// The child that names the member: the one under a field for it, or else the
/// last one.
pub open spec fn member_child(node: SyntaxNode) -> Option<SyntaxNode> {
    let named = either(
        in_field(node.children@, "field"@),
        either(in_field(node.children@, "property"@), in_field(node.children@, "name"@)),
    );
    if named is Some {
        named
    } else if node.children@.len() > 0 {
        Some(node.children@.last())
    } else {
        None
    }
}

/// The node whose text names what a node calls: the member of a path, or the node
/// itself.
pub open spec fn name_node(node: SyntaxNode) -> Option<SyntaxNode> {
    if member_kind(node.kind@) {
        member_child(node)
    } else {
        Some(node)
    }
}

/// The name of what a node calls.
pub open spec fn callee_name(node: SyntaxNode, source: Seq<u8>) -> Seq<char> {
    match name_node(node) {
        Some(named) => common::text_or_empty(named, source),
        None => Seq::empty(),
    }
}

/// Whether the name of what a node calls lies inside a source of `len` bytes.
pub open spec fn name_readable(node: SyntaxNode, len: int) -> bool {
    match name_node(node) {
        Some(named) => named.ends_in(len),
        None => true,
    }
}

fn find_name_node<'a>(node: &'a SyntaxNode) -> (r: Option<&'a SyntaxNode>)
    ensures
        refers_to(r, name_node(*node)),
{
    let kind = node.kind.as_str();
    if !(same(kind, "field_expression") || same(kind, "member_expression") || same(
        kind,
        "scoped_identifier",
    ) || same(kind, "attribute")) {
        return Some(node);
    }
    let named = match child_in_field(node, "field") {
        Some(child) => Some(child),
        None => match child_in_field(node, "property") {
            Some(child) => Some(child),
            None => child_in_field(node, "name"),
        },
    };
    match named {
        Some(child) => Some(child),
        None => {
            let n: usize = node.children.len();
            if n > 0 {
                Some(&node.children[n - 1])
            } else {
                None
            }
        },
    }
}

fn is_name_readable(node: &SyntaxNode, len: usize) -> (r: bool)
    ensures
        r == name_readable(*node, len as int),
{
    match find_name_node(node) {
        Some(named) => named.is_inside(len),
        None => true,
    }
}

/// Reads the name of what a node calls.
pub fn extract_callee_name(node: &SyntaxNode, source: &[u8]) -> (r: String)
    requires
        name_readable(*node, source@.len() as int),
    ensures
        r@ == callee_name(*node, source@),
{
    match find_name_node(node) {
        Some(named) => node_text(named, source),
        None => String::new(),
    }
}

/// `calls`, with a call of `name` on `line` unless the name is empty.
pub open spec fn noted(calls: Seq<(Seq<char>, usize)>, name: Seq<char>, line: usize) -> Seq<
    (Seq<char>, usize),
> {
    if name.len() == 0 {
        calls
    } else {
        calls.push((name, line))
    }
}

/// `calls`, with the call that a node makes under the child that names what is
/// called.
pub open spec fn with_callee(
    calls: Seq<(Seq<char>, usize)>,
    node: SyntaxNode,
    source: Seq<u8>,
) -> Seq<(Seq<char>, usize)> {
    match callee_child(node) {
        Some(child) => noted(calls, callee_name(child, source), line_of(node)),
        None => calls,
    }
}

/// The line of a node, counted from one.
pub open spec fn line_of(node: SyntaxNode) -> usize {
    (node.start_row + 1) as usize
}

/// Whether the first child of a node is noted too: there is one, and the last call
/// noted is on another line.
pub open spec fn notes_first(calls: Seq<(Seq<char>, usize)>, node: SyntaxNode) -> bool {
    node.children@.len() > 0 && (calls.len() == 0 || calls.last().1 != line_of(node))
}

/// `calls`, with what a node adds to them. A call is noted under the child that
/// names what is called. Where the last call noted is on another line, the first
/// child is noted too.
pub open spec fn with_call(
    calls: Seq<(Seq<char>, usize)>,
    node: SyntaxNode,
    source: Seq<u8>,
) -> Seq<(Seq<char>, usize)> {
    let named = with_callee(calls, node, source);
    if !call_kind(node.kind@) {
        calls
    } else if notes_first(named, node) {
        noted(named, callee_name(node.children@[0], source), line_of(node))
    } else {
        named
    }
}

/// Whether what a node adds to `calls` can be read: the names that are looked at
/// lie inside the source, and the line can be counted from one.
pub open spec fn call_readable(
    calls: Seq<(Seq<char>, usize)>,
    node: SyntaxNode,
    source: Seq<u8>,
) -> bool {
    let len = source.len() as int;
    call_kind(node.kind@) ==> {
        &&& node.start_row < usize::MAX
        &&& callee_child(node) matches Some(child) ==> name_readable(child, len)
        &&& notes_first(with_callee(calls, node, source), node) ==> name_readable(
            node.children@[0],
            len,
        )
    }
}

/// `calls`, with what `nodes` add to them in turn.
pub open spec fn with_calls(
    calls: Seq<(Seq<char>, usize)>,
    nodes: Seq<SyntaxNode>,
    source: Seq<u8>,
) -> Seq<(Seq<char>, usize)>
    decreases nodes.len(),
{
    if nodes.len() == 0 {
        calls
    } else {
        with_call(with_calls(calls, nodes.drop_last(), source), nodes.last(), source)
    }
}

/// Whether what `nodes` add to `calls` in turn can be read.
pub open spec fn calls_readable(
    calls: Seq<(Seq<char>, usize)>,
    nodes: Seq<SyntaxNode>,
    source: Seq<u8>,
) -> bool
    decreases nodes.len(),
{
    nodes.len() > 0 ==> calls_readable(calls, nodes.drop_last(), source) && call_readable(
        with_calls(calls, nodes.drop_last(), source),
        nodes.last(),
        source,
    )
}

proof fn lemma_calls_readable(
    calls: Seq<(Seq<char>, usize)>,
    nodes: Seq<SyntaxNode>,
    source: Seq<u8>,
    n: int,
)
    requires
        calls_readable(calls, nodes, source),
        0 <= n <= nodes.len(),
    ensures
        calls_readable(calls, nodes.take(n), source),
    decreases nodes.len(),
{
    if n == nodes.len() {
        assert(nodes.take(n) == nodes);
    } else {
        lemma_calls_readable(calls, nodes.drop_last(), source, n);
        assert(nodes.drop_last().take(n) == nodes.take(n));
    }
}

proof fn lemma_in_field(nodes: Seq<SyntaxNode>, field: Seq<char>)
    ensures
        in_field(nodes, field) matches Some(node) ==> nodes.contains(node),
    decreases nodes.len(),
{
    if nodes.len() > 0 && text::optional_text(nodes[0].field) != Some(field) {
        lemma_in_field(nodes.drop_first(), field);
        if let Some(node) = in_field(nodes, field) {
            let k = choose|k: int|
                0 <= k < nodes.drop_first().len() && nodes.drop_first()[k] == node;
            assert(nodes[k + 1] == node);
        }
    }
}

/// The nodes of the tree all lie inside the source, with lines that can be
/// counted.
pub open spec fn tree_inside(root: SyntaxNode, len: int) -> bool {
    forall|k: int|
        0 <= k < root.preorder().len() ==> (#[trigger] root.preorder()[k]).ends_in(len)
            && root.preorder()[k].start_row < usize::MAX
}

proof fn lemma_name_inside(root: SyntaxNode, node: SyntaxNode, len: int)
    requires
        tree_inside(root, len),
        root.preorder().contains(node),
    ensures
        name_readable(node, len),
{
    lemma_in_field(node.children@, "field"@);
    lemma_in_field(node.children@, "property"@);
    lemma_in_field(node.children@, "name"@);
    if let Some(named) = name_node(node) {
        if member_kind(node.kind@) {
            assert(node.children@.contains(named));
            syntax::lemma_preorder_children(root, node, named);
        }
        let k = choose|k: int| 0 <= k < root.preorder().len() && root.preorder()[k] == named;
        assert(root.preorder()[k].ends_in(len));
    }
}

proof fn lemma_prefix_readable(
    root: SyntaxNode,
    calls: Seq<(Seq<char>, usize)>,
    source: Seq<u8>,
    n: int,
)
    requires
        tree_inside(root, source.len() as int),
        0 <= n <= root.preorder().len(),
    ensures
        calls_readable(calls, root.preorder().take(n), source),
    decreases n,
{
    if n > 0 {
        let nodes = root.preorder();
        let node = nodes[n - 1];
        let len = source.len() as int;
        lemma_prefix_readable(root, calls, source, n - 1);
        assert(nodes.take(n).drop_last() == nodes.take(n - 1));
        assert(nodes.take(n).last() == node);
        lemma_in_field(node.children@, "function"@);
        lemma_in_field(node.children@, "name"@);
        lemma_in_field(node.children@, "method"@);
        if let Some(child) = callee_child(node) {
            syntax::lemma_preorder_children(root, node, child);
            lemma_name_inside(root, child, len);
        }
        if node.children@.len() > 0 {
            syntax::lemma_preorder_children(root, node, node.children@[0]);
            lemma_name_inside(root, node.children@[0], len);
        }
    }
}

/// The identifiers and the calls of a tree can be read wherever its nodes lie
/// inside the source.
pub proof fn law_trees_inside_are_readable(
    root: SyntaxNode,
    calls: Seq<(Seq<char>, usize)>,
    source: Seq<u8>,
)
    requires
        tree_inside(root, source.len() as int),
    ensures
        identifiers_readable(root.preorder(), source.len() as int),
        calls_readable(calls, root.preorder(), source),
{
    lemma_prefix_readable(root, calls, source, root.preorder().len() as int);
    assert(root.preorder().take(root.preorder().len() as int) == root.preorder());
}

/// A list of calls as plain values.
pub open spec fn call_texts(calls: Seq<(String, usize)>) -> Seq<(Seq<char>, usize)> {
    Seq::new(calls.len(), |i: int| (calls[i].0@, calls[i].1))
}

fn note(results: &mut Vec<(String, usize)>, name: String, line: usize)
    ensures
        call_texts(final(results)@) == noted(call_texts(old(results)@), name@, line),
{
    if !name.as_str().is_empty() {
        results.push((name, line));
        assert(call_texts(results@) == call_texts(old(results)@).push((name@, line)));
    }
}

fn find_callee_child<'a>(node: &'a SyntaxNode) -> (r: Option<&'a SyntaxNode>)
    ensures
        refers_to(r, callee_child(*node)),
{
    match child_in_field(node, "function") {
        Some(child) => Some(child),
        None => match child_in_field(node, "name") {
            Some(child) => Some(child),
            None => child_in_field(node, "method"),
        },
    }
}

fn is_call_readable(calls: &Vec<(String, usize)>, node: &SyntaxNode, source: &[u8]) -> (r: bool)
    ensures
        r == call_readable(call_texts(calls@), *node, source@),
{
    if !is_call_kind(node.kind.as_str()) {
        return true;
    }
    if node.start_row == usize::MAX {
        return false;
    }
    let line: usize = node.start_row + 1;
    let n: usize = calls.len();
    let ghost texts = call_texts(calls@);
    assert(texts.len() == n);
    assert(n > 0 ==> texts.last().1 == calls@[n - 1].1);
    let mut elsewhere = n == 0 || calls[n - 1].1 != line;
    match find_callee_child(node) {
        Some(child) => {
            if !is_name_readable(child, source.len()) {
                return false;
            }
            if !extract_callee_name(child, source).as_str().is_empty() {
                elsewhere = false;
            }
        },
        None => {},
    }
    !(elsewhere && node.children.len() > 0) || is_name_readable(&node.children[0], source.len())
}

fn add_call(results: &mut Vec<(String, usize)>, node: &SyntaxNode, source: &[u8])
    requires
        call_readable(call_texts(old(results)@), *node, source@),
    ensures
        call_texts(final(results)@) == with_call(call_texts(old(results)@), *node, source@),
{
    if !is_call_kind(node.kind.as_str()) {
        return;
    }
    let line: usize = node.start_row + 1;
    match find_callee_child(node) {
        Some(child) => {
            note(results, extract_callee_name(child, source), line);
        },
        None => {},
    }
    let n: usize = results.len();
    assert(call_texts(results@).len() == n);
    let elsewhere = n == 0 || results[n - 1].1 != line;
    if elsewhere && node.children.len() > 0 {
        note(results, extract_callee_name(&node.children[0], source), line);
    }
}

/// Tells whether the calls of a tree can be read and added to `results`.
pub fn are_calls_readable(
    root: &SyntaxNode,
    source: &[u8],
    results: Vec<(String, usize)>,
) -> (r: bool)
    ensures
        r == calls_readable(call_texts(results@), root.preorder(), source@),
{
    let nodes = list_preorder(root);
    let n: usize = nodes.len();
    let ghost all = root.preorder();
    let ghost start = call_texts(results@);
    let mut calls = results;
    let mut i: usize = 0;
    assert(all.len() == n);
    while i < n
        invariant
            n == nodes@.len(),
            n == all.len(),
            syntax::pointed_at(nodes@) == all,
            i <= n,
            calls_readable(start, all.take(i as int), source@),
            call_texts(calls@) == with_calls(start, all.take(i as int), source@),
            all == root.preorder(),
            start == call_texts(results@),
        decreases n - i,
    {
        let node = nodes[i];
        proof {
            assert(all[i as int] == *node);
            assert(all.take(i + 1).drop_last() == all.take(i as int));
        }
        if !is_call_readable(&calls, node, source) {
            proof {
                if calls_readable(start, all, source@) {
                    lemma_calls_readable(start, all, source@, i + 1);
                }
            }
            return false;
        }
        add_call(&mut calls, node, source);
        i = i + 1;
    }
    assert(all.take(n as int) == all);
    true
}

/// Adds the calls of a tree to `results`, each by its name and its line.
pub fn collect_call_names(root: &SyntaxNode, source: &[u8], results: &mut Vec<(String, usize)>)
    requires
        calls_readable(call_texts(old(results)@), root.preorder(), source@),
    ensures
        call_texts(final(results)@) == with_calls(
            call_texts(old(results)@),
            root.preorder(),
            source@,
        ),
{
    let nodes = list_preorder(root);
    let n: usize = nodes.len();
    let ghost all = root.preorder();
    let ghost start = call_texts(results@);
    let mut i: usize = 0;
    assert(all.len() == n);
    while i < n
        invariant
            n == nodes@.len(),
            n == all.len(),
            syntax::pointed_at(nodes@) == all,
            calls_readable(start, all, source@),
            i <= n,
            call_texts(results@) == with_calls(start, all.take(i as int), source@),
        decreases n - i,
    {
        let node = nodes[i];
        proof {
            assert(all[i as int] == *node);
            assert(all.take(i + 1).drop_last() == all.take(i as int));
            lemma_calls_readable(start, all, source@, i + 1);
        }
        add_call(results, node, source);
        i = i + 1;
    }
    assert(all.take(n as int) == all);
}

/// What was noted stays, and no call is noted under an empty name.
pub proof fn law_calls_have_names(
    calls: Seq<(Seq<char>, usize)>,
    nodes: Seq<SyntaxNode>,
    source: Seq<u8>,
)
    ensures
        calls.is_prefix_of(with_calls(calls, nodes, source)),
        forall|k: int|
            calls.len() <= k < with_calls(calls, nodes, source).len() ==> (#[trigger] with_calls(
                calls,
                nodes,
                source,
            )[k]).0.len() > 0,
    decreases nodes.len(),
{
    if nodes.len() > 0 {
        law_calls_have_names(calls, nodes.drop_last(), source);
    }
}

/// The upper case of a character, which may be several characters.
pub uninterp spec fn uppercase(c: char) -> Seq<char>;

/// `char::to_uppercase`: gives one or more characters, which depend on the
/// character alone. Letters from `a` to `z` become those from `A` to `Z`, and
/// other ASCII characters stay as they are. What becomes of other characters is
/// named, not stated.
#[verifier::external_body]
fn to_uppercase(c: char) -> (r: String)
    ensures
        r@ == uppercase(c),
        r@.len() >= 1,
        'a' <= c <= 'z' ==> r@ == seq![(c as u32 - 32) as char],
        c <= '\u{7f}' && !('a' <= c <= 'z') ==> r@ == seq![c],
{
    c.to_uppercase().collect()
}

/// The plural of a word.
pub open spec fn plural(word: Seq<char>) -> Seq<char> {
    if "s"@.is_suffix_of(word) || "sh"@.is_suffix_of(word) || "ch"@.is_suffix_of(word) {
        word + "es"@
    } else {
        word + "s"@
    }
}

/// Forms the plural of a word.
pub fn pluralize(word: String) -> (r: String)
    ensures
        r@ == plural(word@),
{
    let mut out = word;
    if ends_with(out.as_str(), "s") || ends_with(out.as_str(), "sh") || ends_with(
        out.as_str(),
        "ch",
    ) {
        out.append("es");
    } else {
        out.append("s");
    }
    out
}

/// Turns the name of a kind into a heading: in the plural, with its first letter
/// in upper case.
pub fn capitalize_kind(kind: &str) -> (r: String)
    ensures
        r@ == if kind@.len() == 0 {
            Seq::empty()
        } else {
            plural(uppercase(kind@[0]) + kind@.skip(1))
        },
{
    if kind.is_empty() {
        return String::new();
    }
    let mut word = to_uppercase(kind.get_char(0));
    let n: usize = kind.unicode_len();
    let rest = kind.substring_char(1, n);
    assert(rest@ == kind@.skip(1));
    word.append(rest);
    pluralize(word)
}

/// The child that names what a node calls is its first child under `function`; where
/// there is none the first under `name`, and where there is none either the first
/// under `method`.
#[verifier::rlimit(50)]
pub proof fn law_callee_child(node: SyntaxNode, c: int)
    requires
        0 <= c < node.children@.len(),
    ensures
        ({
            let list = node.children@;
            let field = text::optional_text(list[c].field);
            let none_under = |name: Seq<char>, n: int| forall|k: int|
                0 <= k < n ==> text::optional_text((#[trigger] list[k]).field) != Some(name);
            &&& field == Some("function"@) && none_under("function"@, c) ==> callee_child(node)
                == Some(list[c])
            &&& field == Some("name"@) && none_under("name"@, c) && none_under(
                "function"@,
                list.len() as int,
            ) ==> callee_child(node) == Some(list[c])
            &&& field == Some("method"@) && none_under("method"@, c) && none_under(
                "name"@,
                list.len() as int,
            ) && none_under("function"@, list.len() as int) ==> callee_child(node) == Some(list[c])
            &&& none_under("function"@, list.len() as int) && none_under(
                "name"@,
                list.len() as int,
            ) && none_under("method"@, list.len() as int) ==> callee_child(node) is None
        }),
{
    let list = node.children@;
    let n = list.len() as int;
    let none_under = |name: Seq<char>, n: int| forall|k: int|
        0 <= k < n ==> text::optional_text((#[trigger] list[k]).field) != Some(name);
    if none_under("function"@, c) {
        lemma_first_in_field(list, "function"@, c);
    }
    if none_under("name"@, c) {
        lemma_first_in_field(list, "name"@, c);
    }
    if none_under("method"@, c) {
        lemma_first_in_field(list, "method"@, c);
    }
    if none_under("function"@, n) {
        lemma_first_in_field(list, "function"@, n);
    }
    if none_under("name"@, n) {
        lemma_first_in_field(list, "name"@, n);
    }
    if none_under("method"@, n) {
        lemma_first_in_field(list, "method"@, n);
    }
}

proof fn lemma_first_in_field(nodes: Seq<SyntaxNode>, field: Seq<char>, c: int)
    requires
        0 <= c <= nodes.len(),
        forall|k: int|
            0 <= k < c ==> text::optional_text((#[trigger] nodes[k]).field) != Some(field),
    ensures
        c < nodes.len() && text::optional_text(nodes[c].field) == Some(field) ==> in_field(
            nodes,
            field,
        ) == Some(nodes[c]),
        c == nodes.len() ==> in_field(nodes, field) is None,
    decreases c,
{
    if c > 0 {
        let rest = nodes.drop_first();
        assert forall|k: int|
            0 <= k < c - 1 implies text::optional_text((#[trigger] rest[k]).field) != Some(
            field,
        ) by {
            assert(rest[k] == nodes[k + 1]);
        }
        assert(text::optional_text(nodes[0].field) != Some(field));
        lemma_first_in_field(rest, field, c - 1);
        if c < nodes.len() {
            assert(rest[c - 1] == nodes[c]);
        }
    }
}

/// A node other than a path to a member is named by its own text. A path is named
/// by its first child under `field`, else by the first under `property`, else by the
/// first under `name`, and else by its last child.
#[verifier::rlimit(50)]
pub proof fn law_callee_name(node: SyntaxNode, source: Seq<u8>, c: int)
    requires
        0 <= c < node.children@.len(),
    ensures
        ({
            let list = node.children@;
            let n = list.len() as int;
            let path = node.kind@ == "field_expression"@ || node.kind@ == "member_expression"@
                || node.kind@ == "scoped_identifier"@ || node.kind@ == "attribute"@;
            let field = text::optional_text(list[c].field);
            let none_under = |name: Seq<char>, n: int| forall|k: int|
                0 <= k < n ==> text::optional_text((#[trigger] list[k]).field) != Some(name);
            &&& !path ==> callee_name(node, source) == common::text_or_empty(node, source)
            &&& path && field == Some("field"@) && none_under("field"@, c) ==> callee_name(
                node,
                source,
            ) == common::text_or_empty(list[c], source)
            &&& path && field == Some("property"@) && none_under("property"@, c) && none_under(
                "field"@,
                n,
            ) ==> callee_name(node, source) == common::text_or_empty(list[c], source)
            &&& path && field == Some("name"@) && none_under("name"@, c) && none_under(
                "field"@,
                n,
            ) && none_under("property"@, n) ==> callee_name(node, source)
                == common::text_or_empty(list[c], source)
            &&& path && none_under("name"@, n) && none_under("field"@, n) && none_under(
                "property"@,
                n,
            ) ==> callee_name(node, source) == common::text_or_empty(list[n - 1], source)
        }),
{
    let list = node.children@;
    let n = list.len() as int;
    let none_under = |name: Seq<char>, n: int| forall|k: int|
        0 <= k < n ==> text::optional_text((#[trigger] list[k]).field) != Some(name);
    if none_under("field"@, c) {
        lemma_first_in_field(list, "field"@, c);
    }
    if none_under("property"@, c) {
        lemma_first_in_field(list, "property"@, c);
    }
    if none_under("name"@, c) {
        lemma_first_in_field(list, "name"@, c);
    }
    if none_under("field"@, n) {
        lemma_first_in_field(list, "field"@, n);
    }
    if none_under("property"@, n) {
        lemma_first_in_field(list, "property"@, n);
    }
    if none_under("name"@, n) {
        lemma_first_in_field(list, "name"@, n);
    }
}

/// Whether a node is a call with a child that names what is called.
pub open spec fn names_its_callee(node: SyntaxNode, source: Seq<u8>) -> bool {
    &&& node.kind@ == "call_expression"@ || node.kind@ == "method_invocation"@ || node.kind@
        == "function_call"@ || node.kind@ == "member_expression"@
    &&& callee_child(node) is Some
    &&& callee_name(callee_child(node)->0, source).len() > 0
}

/// The number of calls among `nodes` that name what is called.
pub open spec fn named_call_count(nodes: Seq<SyntaxNode>, source: Seq<u8>) -> nat
    decreases nodes.len(),
{
    if nodes.len() == 0 {
        0
    } else {
        named_call_count(nodes.drop_last(), source) + if names_its_callee(nodes.last(), source) {
            1nat
        } else {
            0
        }
    }
}

/// Every call that names what is called is noted under that name and on its line,
/// whatever was noted before it, and each has an entry of its own.
pub proof fn law_every_call_is_noted(
    calls: Seq<(Seq<char>, usize)>,
    nodes: Seq<SyntaxNode>,
    source: Seq<u8>,
    k: int,
)
    requires
        0 <= k < nodes.len(),
        names_its_callee(nodes[k], source),
    ensures
        ({
            let all = with_calls(calls, nodes, source);
            let before = with_calls(calls, nodes.take(k), source);
            &&& before.len() < all.len()
            &&& all[before.len() as int] == (
                callee_name(callee_child(nodes[k])->0, source),
                (nodes[k].start_row + 1) as usize,
            )
            &&& all.len() >= calls.len() + named_call_count(nodes, source)
        }),
    decreases nodes.len(),
{
    lemma_named_call_count(calls, nodes, source);
    lemma_calls_split(calls, nodes, source, k + 1);
    let next = nodes.take(k + 1);
    assert(next.drop_last() == nodes.take(k));
    assert(next.last() == nodes[k]);
    let before = with_calls(calls, nodes.take(k), source);
    let after = with_calls(calls, next, source);
    law_calls_have_names(after, nodes.skip(k + 1), source);
    let all = with_calls(calls, nodes, source);
    assert(after == all.subrange(0, after.len() as int));
    assert(after[before.len() as int] == all[before.len() as int]);
}

proof fn lemma_named_call_count(
    calls: Seq<(Seq<char>, usize)>,
    nodes: Seq<SyntaxNode>,
    source: Seq<u8>,
)
    ensures
        with_calls(calls, nodes, source).len() >= calls.len() + named_call_count(nodes, source),
    decreases nodes.len(),
{
    if nodes.len() > 0 {
        lemma_named_call_count(calls, nodes.drop_last(), source);
    }
}

proof fn lemma_calls_split(
    calls: Seq<(Seq<char>, usize)>,
    nodes: Seq<SyntaxNode>,
    source: Seq<u8>,
    n: int,
)
    requires
        0 <= n <= nodes.len(),
    ensures
        with_calls(calls, nodes, source) == with_calls(
            with_calls(calls, nodes.take(n), source),
            nodes.skip(n),
            source,
        ),
    decreases nodes.len(),
{
    if n == nodes.len() {
        assert(nodes.take(n) == nodes);
        assert(nodes.skip(n) == Seq::<SyntaxNode>::empty());
    } else {
        lemma_calls_split(calls, nodes.drop_last(), source, n);
        assert(nodes.drop_last().take(n) == nodes.take(n));
        assert(nodes.skip(n).drop_last() == nodes.drop_last().skip(n));
        assert(nodes.skip(n).last() == nodes.last());
    }
}

/// Nodes that are no calls add nothing. What a call adds stands on its line: the name
/// of the child that names what is called, and the name of its first child only
/// where no call is noted on that line yet.
pub proof fn law_what_a_node_adds(
    calls: Seq<(Seq<char>, usize)>,
    node: SyntaxNode,
    source: Seq<u8>,
)
    ensures
        ({
            let all = with_calls(calls, seq![node], source);
            let line = (node.start_row + 1) as usize;
            let first = callee_name(node.children@[0], source);
            let call = node.kind@ == "call_expression"@ || node.kind@ == "method_invocation"@
                || node.kind@ == "function_call"@ || node.kind@ == "member_expression"@;
            &&& !call ==> all == calls
            &&& names_its_callee(node, source) ==> all == calls.push(
                (callee_name(callee_child(node)->0, source), line),
            )
            &&& call && !names_its_callee(node, source) && calls.len() > 0 && calls.last().1 == line
                ==> all == calls
            &&& call && !names_its_callee(node, source) && !(calls.len() > 0 && calls.last().1
                == line) ==> all == if node.children@.len() > 0 && first.len() > 0 {
                calls.push((first, line))
            } else {
                calls
            }
        }),
{
    assert(seq![node].drop_last() == Seq::<SyntaxNode>::empty());
    assert(seq![node].last() == node);
    reveal_with_fuel(with_calls, 2);
}

/// What two lists of nodes add is what the first adds, and then the second.
pub proof fn law_calls_are_added_in_turn(
    calls: Seq<(Seq<char>, usize)>,
    a: Seq<SyntaxNode>,
    b: Seq<SyntaxNode>,
    source: Seq<u8>,
)
    ensures
        with_calls(calls, a + b, source) == with_calls(with_calls(calls, a, source), b, source),
{
    lemma_calls_split(calls, a + b, source, a.len() as int);
    assert((a + b).take(a.len() as int) == a);
    assert((a + b).skip(a.len() as int) == b);
}

/// Every identifier whose bytes are well-formed is listed under its text, with its
/// line, its first byte and its end; nothing else is listed; and the identifiers of
/// two lists of nodes are those of the one and then those of the other.
pub proof fn law_identifiers_are_listed(
    nodes: Seq<SyntaxNode>,
    more: Seq<SyntaxNode>,
    source: Seq<u8>,
    entry: (Seq<char>, (usize, usize, usize)),
)
    ensures
        identifiers(nodes, source).contains(entry) <==> exists|k: int|
            0 <= k < nodes.len() && is_entry_of(#[trigger] nodes[k], source, entry),
        identifiers(nodes + more, source) == identifiers(nodes, source) + identifiers(
            more,
            source,
        ),
{
    lemma_identifiers_hold(nodes, source, entry);
    lemma_identifiers_add(nodes, more, source);
}

/// Whether an entry is that of an identifier.
pub open spec fn is_entry_of(
    node: SyntaxNode,
    source: Seq<u8>,
    entry: (Seq<char>, (usize, usize, usize)),
) -> bool {
    &&& node.kind@ == "identifier"@ || node.kind@ == "type_identifier"@ || node.kind@
        == "field_identifier"@ || node.kind@ == "property_identifier"@ || node.kind@
        == "simple_identifier"@ || node.kind@ == "shorthand_property_identifier_pattern"@
        || node.kind@ == "shorthand_property_identifier"@
    &&& common::decoded(node, source) == Some(entry.0)
    &&& entry.1 == ((node.start_row + 1) as usize, node.start_byte, node.end_byte)
}

proof fn lemma_identifiers_hold(
    nodes: Seq<SyntaxNode>,
    source: Seq<u8>,
    entry: (Seq<char>, (usize, usize, usize)),
)
    ensures
        identifiers(nodes, source).contains(entry) <==> exists|k: int|
            0 <= k < nodes.len() && is_entry_of(#[trigger] nodes[k], source, entry),
    decreases nodes.len(),
{
    if nodes.len() > 0 {
        let rest = nodes.drop_last();
        let before = identifiers(rest, source);
        let all = identifiers(nodes, source);
        lemma_identifiers_hold(rest, source, entry);
        assert(nodes[nodes.len() - 1] == nodes.last());
        if before.contains(entry) {
            let k = choose|k: int|
                0 <= k < rest.len() && is_entry_of(#[trigger] rest[k], source, entry);
            assert(nodes[k] == rest[k]);
            let j = choose|j: int| 0 <= j < before.len() && before[j] == entry;
            assert(all[j] == entry);
        }
        if all.contains(entry) && !before.contains(entry) {
            let j = choose|j: int| 0 <= j < all.len() && all[j] == entry;
            assert(j == before.len()) by {
                if j < before.len() {
                    assert(before[j] == entry);
                }
            }
            assert(is_entry_of(nodes[nodes.len() - 1], source, entry));
        }
        if exists|k: int| 0 <= k < nodes.len() && is_entry_of(#[trigger] nodes[k], source, entry) {
            let k = choose|k: int|
                0 <= k < nodes.len() && is_entry_of(#[trigger] nodes[k], source, entry);
            if k < rest.len() {
                assert(rest[k] == nodes[k]);
            } else {
                assert(all[before.len() as int] == entry);
            }
        }
    }
}

proof fn lemma_identifiers_add(a: Seq<SyntaxNode>, b: Seq<SyntaxNode>, source: Seq<u8>)
    ensures
        identifiers(a + b, source) == identifiers(a, source) + identifiers(b, source),
    decreases b.len(),
{
    if b.len() == 0 {
        assert(a + b == a);
        assert(identifiers(a, source) + identifiers(b, source) == identifiers(a, source));
    } else {
        lemma_identifiers_add(a, b.drop_last(), source);
        assert((a + b).drop_last() == a + b.drop_last());
        assert((a + b).last() == b.last());
        assert(identifiers(a + b, source) == identifiers(a, source) + identifiers(b, source));
    }
}

/// A word that ends in `s`, `sh` or `ch` takes `es` in the plural, every other word
/// `s`.
pub proof fn law_plural(stem: Seq<char>, c: char)
    ensures
        c == 's' ==> plural(stem.push(c)) == stem.push(c) + "es"@,
        c == 'h' && stem.len() > 0 && (stem.last() == 's' || stem.last() == 'c') ==> plural(
            stem.push(c),
        ) == stem.push(c) + "es"@,
        c != 's' && c != 'h' ==> plural(stem.push(c)) == stem.push(c) + "s"@,
        c == 'h' && !(stem.len() > 0 && (stem.last() == 's' || stem.last() == 'c')) ==> plural(
            stem.push(c),
        ) == stem.push(c) + "s"@,
{
    let word = stem.push(c);
    let n = word.len() as int;
    reveal_strlit("s");
    reveal_strlit("sh");
    reveal_strlit("ch");
    assert(word.subrange(n - 1, n) == seq![c]);
    assert("s"@ == seq!['s']);
    if "s"@.is_suffix_of(word) {
        assert(word.subrange(n - 1, n)[0] == 's');
    }
    if n >= 2 {
        assert(word.subrange(n - 2, n) == seq![stem.last(), c]);
        assert("sh"@ == seq!['s', 'h']);
        assert("ch"@ == seq!['c', 'h']);
        assert(seq!['s', 'h'][0] == 's' && seq!['s', 'h'][1] == 'h');
        assert(seq!['c', 'h'][0] == 'c' && seq!['c', 'h'][1] == 'h');
        if "sh"@.is_suffix_of(word) {
            assert(seq![stem.last(), c][0] == 's' && seq![stem.last(), c][1] == 'h');
        }
        if "ch"@.is_suffix_of(word) {
            assert(seq![stem.last(), c][0] == 'c' && seq![stem.last(), c][1] == 'h');
        }
    }
}

/// A heading is the plural of the kind with its first character in upper case.
pub proof fn law_heading(kind: &str, r: String)
    requires
        call_ensures(capitalize_kind, (kind,), r),
    ensures
        kind@.len() == 0 ==> r@.len() == 0,
        kind@.len() > 0 ==> (uppercase(kind@[0]) + kind@.skip(1)).is_prefix_of(r@) && r@.last()
            == 's',
{
    reveal_strlit("s");
    reveal_strlit("es");
    if kind@.len() > 0 {
        let word = uppercase(kind@[0]) + kind@.skip(1);
        text::lemma_starts(word, "s"@);
        text::lemma_starts(word, "es"@);
    }
}

}
