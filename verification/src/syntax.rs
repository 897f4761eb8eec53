//! Syntax trees as plain values.
//!
//! The parser hands out its nodes as one pre-order list; this module turns
//! that list into the tree that the extractors walk.
use vstd::prelude::*;
use vstd::utf8::*;

use crate::text;

verus! {

/// One node of a syntax tree, with its children in source order.
pub struct SyntaxNode {
    /// The grammar's name of the node.
    pub kind: String,
    /// Whether the node is named in the grammar, as opposed to punctuation.
    pub named: bool,
    /// The offset of the first byte of the node.
    pub start_byte: usize,
    /// The offset just past the last byte of the node.
    pub end_byte: usize,
    /// The zero-based row on which the node starts.
    pub start_row: usize,
    /// The zero-based row on which the node ends.
    pub end_row: usize,
    /// The field of the parent under which the node stands.
    pub field: Option<String>,
    /// The children, in source order.
    pub children: Vec<SyntaxNode>,
}

/// One node of a pre-order listing of a syntax tree.
pub struct NodeRecord {
    /// The distance from the root.
    pub depth: u32,
    /// The grammar's name of the node.
    pub kind: String,
    /// Whether the node is named in the grammar.
    pub named: bool,
    /// The offset of the first byte of the node.
    pub start_byte: usize,
    /// The offset just past the last byte of the node.
    pub end_byte: usize,
    /// The zero-based row on which the node starts.
    pub start_row: usize,
    /// The zero-based row on which the node ends.
    pub end_row: usize,
    /// The field of the parent under which the node stands.
    pub field: Option<String>,
}

/// What a `NodeRecord` says, as plain values.
pub struct NodeFacts {
    pub depth: int,
    pub kind: Seq<char>,
    pub named: bool,
    pub start_byte: int,
    pub end_byte: int,
    pub start_row: int,
    pub end_row: int,
    pub field: Option<Seq<char>>,
}

impl View for NodeRecord {
    type V = NodeFacts;

    open spec fn view(&self) -> NodeFacts {
        NodeFacts {
            depth: self.depth as int,
            kind: self.kind@,
            named: self.named,
            start_byte: self.start_byte as int,
            end_byte: self.end_byte as int,
            start_row: self.start_row as int,
            end_row: self.end_row as int,
            field: text::optional_text(self.field),
        }
    }
}

/// The facts of a list of records, in order.
pub open spec fn facts(records: Seq<NodeRecord>) -> Seq<NodeFacts> {
    Seq::new(records.len(), |i: int| records[i]@)
}

impl SyntaxNode {
    /// The facts of the node itself, at distance `depth` from the root.
    pub open spec fn own_facts(self, depth: int) -> NodeFacts {
        NodeFacts {
            depth,
            kind: self.kind@,
            named: self.named,
            start_byte: self.start_byte as int,
            end_byte: self.end_byte as int,
            start_row: self.start_row as int,
            end_row: self.end_row as int,
            field: text::optional_text(self.field),
        }
    }

    /// The pre-order listing of the subtree, whose root lies at `depth`.
    pub open spec fn listing(self, depth: int) -> Seq<NodeFacts>
        decreases self, 0nat,
    {
        seq![self.own_facts(depth)] + listing_of(self.children@, self.children@.len(), depth + 1)
    }

    /// The node's byte range starts inside a source of `len` bytes and does
    /// not end before it starts.
    pub open spec fn bytes_fit(self, len: int) -> bool {
        self.start_byte <= self.end_byte && self.start_byte <= len
    }

    /// The node's bytes fit, and its rows have successors in `u32`.
    pub open spec fn span_fits(self, len: int) -> bool {
        &&& self.bytes_fit(len)
        &&& self.start_row < u32::MAX
        &&& self.end_row < u32::MAX
    }

    /// Every node of the subtree fits a source of `len` bytes.
    pub open spec fn fits(self, len: int) -> bool
        decreases self, 0nat,
    {
        self.span_fits(len) && all_fit(self.children@, self.children@.len(), len)
    }

    /// The node's bytes lie inside a source of `len` bytes.
    pub open spec fn ends_in(self, len: int) -> bool {
        self.start_byte <= self.end_byte <= len
    }
}

/// The pre-order listings of the first `n` nodes, one after the other.
pub open spec fn listing_of(nodes: Seq<SyntaxNode>, n: nat, depth: int) -> Seq<NodeFacts>
    decreases nodes, n,
{
    if n == 0 || n > nodes.len() {
        Seq::empty()
    } else {
        listing_of(nodes, (n - 1) as nat, depth) + nodes[n - 1].listing(depth)
    }
}

/// The first `n` nodes and all below them fit a source of `len` bytes.
pub open spec fn all_fit(nodes: Seq<SyntaxNode>, n: nat, len: int) -> bool
    decreases nodes, n,
{
    if n == 0 || n > nodes.len() {
        true
    } else {
        all_fit(nodes, (n - 1) as nat, len) && nodes[n - 1].fits(len)
    }
}

pub proof fn lemma_all_fit(nodes: Seq<SyntaxNode>, n: nat, len: int, i: int)
    requires
        all_fit(nodes, n, len),
        0 <= i < n <= nodes.len(),
    ensures
        nodes[i].fits(len),
    decreases n,
{
    if i < n - 1 {
        lemma_all_fit(nodes, (n - 1) as nat, len, i);
    }
}

/// The listing starts at the root, and each later node lies below it, at most
/// one step below the node listed before it.
pub open spec fn well_nested(list: Seq<NodeFacts>) -> bool {
    &&& list.len() > 0
    &&& list[0].depth == 0
    &&& forall|i: int| 0 < i < list.len() ==> 1 <= (#[trigger] list[i]).depth <= list[i - 1].depth
        + 1
}

/// Every listed node fits a source of `len` bytes.
pub open spec fn listed_fit(list: Seq<NodeFacts>, len: int) -> bool {
    forall|i: int|
        0 <= i < list.len() ==> (#[trigger] list[i]).start_byte <= list[i].end_byte
            && list[i].start_byte <= len && list[i].start_row < u32::MAX && list[i].end_row
            < u32::MAX
}

fn copy_field(field: &Option<String>) -> (r: Option<String>)
    ensures
        r == *field,
{
    match field {
        Some(t) => Some(t.clone()),
        None => None,
    }
}

proof fn lemma_listing_of_push(nodes: Seq<SyntaxNode>, node: SyntaxNode, n: nat, depth: int)
    requires
        n <= nodes.len(),
    ensures
        listing_of(nodes.push(node), n, depth) == listing_of(nodes, n, depth),
    decreases n,
{
    if n > 0 {
        lemma_listing_of_push(nodes, node, (n - 1) as nat, depth);
        assert(nodes.push(node)[n - 1] == nodes[n - 1]);
    }
}

proof fn lemma_all_fit_push(nodes: Seq<SyntaxNode>, node: SyntaxNode, n: nat, len: int)
    requires
        n <= nodes.len(),
    ensures
        all_fit(nodes.push(node), n, len) == all_fit(nodes, n, len),
    decreases n,
{
    if n > 0 {
        lemma_all_fit_push(nodes, node, (n - 1) as nat, len);
        assert(nodes.push(node)[n - 1] == nodes[n - 1]);
    }
}

/// The listings of some trees, each with the depth of its root, the last one
/// first.
spec fn forest(trees: Seq<(u32, SyntaxNode)>) -> Seq<NodeFacts>
    decreases trees.len(),
{
    if trees.len() == 0 {
        Seq::empty()
    } else {
        trees.last().1.listing(trees.last().0 as int) + forest(trees.drop_last())
    }
}

/// Whether some trees fit a source of `len` bytes, and none lies deeper than the
/// one before it, from the last one on.
spec fn orderly(trees: Seq<(u32, SyntaxNode)>, len: int) -> bool {
    &&& forall|k: int| 0 <= k < trees.len() ==> (#[trigger] trees[k]).1.fits(len)
    &&& forall|j: int, k: int|
        0 <= j <= k < trees.len() ==> (#[trigger] trees[j]).0 <= (#[trigger] trees[k]).0
}

/// Puts the node that is listed at `at` on top of the trees that follow it, as
/// the parent of those that lie below it.
fn plant(
    records: &Vec<NodeRecord>,
    at: usize,
    trees: &mut Vec<(u32, SyntaxNode)>,
    len: Ghost<int>,
)
    requires
        at < records@.len(),
        forall|i: int|
            0 < i < records@.len() ==> (#[trigger] records@[i]).depth <= records@[i - 1].depth + 1,
        listed_fit(facts(records@), len@),
        orderly(old(trees)@, len@),
        forest(old(trees)@) == facts(records@).skip(at + 1),
        old(trees)@.len() > 0 ==> at + 1 < records@.len() && old(trees)@.last().0 == records@[at
            + 1].depth,
    ensures
        orderly(final(trees)@, len@),
        forest(final(trees)@) == facts(records@).skip(at as int),
        final(trees)@.len() > 0,
        final(trees)@.last().0 == records@[at as int].depth,
        forall|k: int|
            0 <= k < final(trees)@.len() - 1 ==> (#[trigger] final(trees)@[k]).0
                <= records@[at as int].depth && old(trees)@.contains(final(trees)@[k]),
{
    let depth: u32 = records[at].depth;
    let mut children: Vec<SyntaxNode> = Vec::new();
    let ghost all = facts(records@);
    let ghost before = trees@;
    proof {
        assert(listing_of(children@, 0, depth + 1) + forest(trees@) == forest(trees@));
    }
    while trees.len() > 0 && trees[trees.len() - 1].0 > depth
        invariant
            at < records@.len(),
            depth == records@[at as int].depth,
            all == facts(records@),
            orderly(trees@, len@),
            trees@.is_prefix_of(before),
            trees@.len() > 0 ==> trees@.last().0 <= depth + 1,
            listing_of(children@, children@.len(), depth + 1) + forest(trees@) == all.skip(at + 1),
            all_fit(children@, children@.len(), len@),
        decreases trees@.len(),
    {
        let ghost kept = children@;
        let ghost standing = trees@;
        let (level, child) = trees.pop().unwrap();
        children.push(child);
        proof {
            assert(standing.last() == (level, child));
            assert(trees@ == standing.drop_last());
            lemma_listing_of_push(kept, child, kept.len(), depth + 1);
            lemma_all_fit_push(kept, child, kept.len(), len@);
            assert(children@[kept.len() as int] == child);
            let earlier = listing_of(kept, kept.len(), depth + 1);
            assert(earlier + (child.listing(depth + 1) + forest(trees@)) == earlier
                + child.listing(depth + 1) + forest(trees@));
        }
    }
    let record = &records[at];
    let node = SyntaxNode {
        kind: record.kind.clone(),
        named: record.named,
        start_byte: record.start_byte,
        end_byte: record.end_byte,
        start_row: record.start_row,
        end_row: record.end_row,
        field: copy_field(&record.field),
        children,
    };
    let ghost left = trees@;
    trees.push((depth, node));
    proof {
        assert(all[at as int] == records@[at as int]@);
        assert(node.own_facts(depth as int) == all[at as int]);
        assert(trees@.drop_last() == left);
        let below = listing_of(node.children@, node.children@.len(), depth + 1);
        assert(seq![all[at as int]] + below + forest(left) == seq![all[at as int]] + (below
            + forest(left)));
        assert(seq![all[at as int]] + all.skip(at + 1) == all.skip(at as int));
    }
}

/// Builds the tree that `records` lists, for a source of `len` bytes: `None`
/// where they are no pre-order listing, or where a node does not fit.
pub fn tree_of(records: &Vec<NodeRecord>, len: usize) -> (r: Option<SyntaxNode>)
    ensures
        r is Some <==> well_nested(facts(records@)) && listed_fit(facts(records@), len as int),
        r matches Some(root) ==> root.listing(0) == facts(records@) && root.fits(len as int),
{
    let n: usize = records.len();
    let ghost all = facts(records@);
    if n == 0 || records[0].depth != 0 {
        assert(n > 0 ==> all[0].depth == records@[0].depth);
        return None;
    }
    let mut i: usize = 0;
    while i < n
        invariant
            n == records@.len(),
            i <= n,
            all == facts(records@),
            forall|k: int|
                0 < k < i ==> 1 <= (#[trigger] records@[k]).depth <= records@[k - 1].depth + 1,
            forall|k: int|
                0 <= k < i ==> (#[trigger] all[k]).start_byte <= all[k].end_byte
                    && all[k].start_byte <= len && all[k].start_row < u32::MAX && all[k].end_row
                    < u32::MAX,
        decreases n - i,
    {
        let record = &records[i];
        assert(all[i as int] == record@);
        if record.start_byte > record.end_byte || record.start_byte > len || record.start_row
            >= u32::MAX as usize || record.end_row >= u32::MAX as usize {
            return None;
        }
        if i > 0 {
            assert(all[i - 1] == records@[i - 1]@);
            let above: u32 = records[i - 1].depth;
            if record.depth == 0 || (record.depth > above && record.depth - above > 1) {
                return None;
            }
        }
        i = i + 1;
    }
    assert forall|k: int| 0 < k < all.len() implies 1 <= (#[trigger] all[k]).depth <= all[k
        - 1].depth + 1 by {
        assert(all[k].depth == records@[k].depth);
        assert(all[k - 1].depth == records@[k - 1].depth);
    }
    let mut trees: Vec<(u32, SyntaxNode)> = Vec::new();
    let mut at: usize = n;
    assert(all.skip(n as int) == Seq::<NodeFacts>::empty());
    while at > 0
        invariant
            n == records@.len(),
            at <= n,
            all == facts(records@),
            records@[0].depth == 0,
            well_nested(all),
            listed_fit(all, len as int),
            forall|i: int|
                0 < i < n ==> 1 <= (#[trigger] records@[i]).depth <= records@[i - 1].depth + 1,
            orderly(trees@, len as int),
            forest(trees@) == all.skip(at as int),
            trees@.len() > 0 <==> at < n,
            at < n ==> trees@.last().0 == records@[at as int].depth,
            at > 0 ==> forall|k: int| 0 <= k < trees@.len() ==> (#[trigger] trees@[k]).0 >= 1,
            at == 0 ==> trees@.len() == 1,
        decreases at,
    {
        at = at - 1;
        plant(records, at, &mut trees, Ghost(len as int));
        proof {
            if at == 0 && trees@.len() > 1 {
                assert(trees@[0].0 >= 1);
            }
        }
    }
    let (_, root) = trees.pop().unwrap();
    proof {
        assert(forest(trees@) == Seq::<NodeFacts>::empty());
        assert(all.skip(0) == all);
        assert(root.listing(0) + Seq::<NodeFacts>::empty() == root.listing(0));
    }
    Some(root)
}

impl SyntaxNode {
    /// The nodes of the subtree, each before the nodes below it.
    pub open spec fn preorder(self) -> Seq<SyntaxNode>
        decreases self, 0nat,
    {
        seq![self] + preorder_from(self.children@, 0)
    }
}

/// The nodes of the subtrees of `nodes`, but for the first `i` of them.
pub open spec fn preorder_from(nodes: Seq<SyntaxNode>, i: nat) -> Seq<SyntaxNode>
    decreases nodes, nodes.len() - i,
{
    if i >= nodes.len() {
        Seq::empty()
    } else {
        nodes[i as int].preorder() + preorder_from(nodes, i + 1)
    }
}

/// The nodes that a list of references refers to.
pub open spec fn pointed_at(list: Seq<&SyntaxNode>) -> Seq<SyntaxNode> {
    Seq::new(list.len(), |i: int| *list[i])
}

/// The nodes of the subtrees of `stack`, its last one first.
spec fn pending(stack: Seq<SyntaxNode>) -> Seq<SyntaxNode>
    decreases stack.len(),
{
    if stack.len() == 0 {
        Seq::empty()
    } else {
        stack.last().preorder() + pending(stack.drop_last())
    }
}

/// Lists the nodes of a tree, each before the nodes below it. A stack of its own
/// takes the place of the call stack, so that no tree is too deep.
pub fn list_preorder<'a>(root: &'a SyntaxNode) -> (r: Vec<&'a SyntaxNode>)
    ensures
        pointed_at(r@) == root.preorder(),
{
    let mut out: Vec<&'a SyntaxNode> = Vec::new();
    let mut stack: Vec<&'a SyntaxNode> = Vec::new();
    stack.push(root);
    proof {
        let s = pointed_at(stack@);
        assert(s.drop_last() == Seq::<SyntaxNode>::empty());
        reveal_with_fuel(pending, 2);
        assert(s.last() == *root);
        assert(pending(s) == root.preorder());
        assert(pointed_at(out@) + pending(s) == root.preorder());
    }
    while stack.len() > 0
        invariant
            pointed_at(out@) + pending(pointed_at(stack@)) == root.preorder(),
        decreases pending(pointed_at(stack@)).len(),
    {
        let ghost before = pointed_at(stack@);
        let ghost done = pointed_at(out@);
        let top: usize = stack.len() - 1;
        let node = stack[top];
        stack.pop();
        let ghost rest = pointed_at(stack@);
        proof {
            assert(rest == before.drop_last());
            assert(before.last() == *node);
        }
        out.push(node);
        assert(pointed_at(out@) == done.push(*node));
        let n: usize = node.children.len();
        let mut i: usize = n;
        assert(preorder_from(node.children@, n as nat) + pending(rest) == pending(rest));
        while i > 0
            invariant
                n == node.children@.len(),
                i <= n,
                pending(pointed_at(stack@)) == preorder_from(node.children@, i as nat) + pending(
                    rest,
                ),
            decreases i,
        {
            i = i - 1;
            let ghost below = pointed_at(stack@);
            stack.push(&node.children[i]);
            proof {
                let child = node.children@[i as int];
                assert(pointed_at(stack@) == below.push(child));
                assert(below.push(child).drop_last() == below);
                assert(pending(pointed_at(stack@)) == child.preorder() + (preorder_from(
                    node.children@,
                    (i + 1) as nat,
                ) + pending(rest)));
                assert(child.preorder() + (preorder_from(node.children@, (i + 1) as nat)
                    + pending(rest)) == child.preorder() + preorder_from(
                    node.children@,
                    (i + 1) as nat,
                ) + pending(rest));
            }
        }
        proof {
            let below = preorder_from(node.children@, 0);
            assert(pending(before) == seq![*node] + below + pending(rest));
            assert(done.push(*node) + (below + pending(rest)) == done + (seq![*node] + below
                + pending(rest)));
        }
    }
    assert(pointed_at(out@) + pending(pointed_at(stack@)) == pointed_at(out@));
    out
}

impl SyntaxNode {
    /// Tells whether the node's bytes lie inside a source of `len` bytes.
    pub fn is_inside(&self, len: usize) -> (r: bool)
        ensures
            r == self.ends_in(len as int),
    {
        self.start_byte <= self.end_byte && self.end_byte <= len
    }
}

/// The children of a node of a tree are nodes of the tree.
pub proof fn lemma_preorder_children(root: SyntaxNode, node: SyntaxNode, child: SyntaxNode)
    requires
        root.preorder().contains(node),
        node.children@.contains(child),
    ensures
        root.preorder().contains(child),
    decreases root, 0nat,
{
    let all = root.preorder();
    let below = preorder_from(root.children@, 0);
    assert(all[0] == root);
    let k = choose|k: int| 0 <= k < all.len() && all[k] == node;
    if k == 0 {
        let c = choose|c: int| 0 <= c < node.children@.len() && node.children@[c] == child;
        lemma_preorder_from_holds(root.children@, 0, c as nat);
    } else {
        assert(below[k - 1] == node);
        lemma_preorder_from_children(root.children@, 0, node, child);
    }
    let j = choose|j: int| 0 <= j < below.len() && below[j] == child;
    assert(all[j + 1] == child);
}

proof fn lemma_preorder_from_holds(nodes: Seq<SyntaxNode>, i: nat, c: nat)
    requires
        i <= c < nodes.len(),
    ensures
        preorder_from(nodes, i).contains(nodes[c as int]),
    decreases nodes.len() - i,
{
    let all = preorder_from(nodes, i);
    let first = nodes[i as int].preorder();
    assert(first[0] == nodes[i as int]);
    if i == c {
        assert(all[0] == nodes[c as int]);
    } else {
        let rest = preorder_from(nodes, i + 1);
        lemma_preorder_from_holds(nodes, i + 1, c);
        let j = choose|j: int| 0 <= j < rest.len() && rest[j] == nodes[c as int];
        assert(all[first.len() + j] == nodes[c as int]);
    }
}

proof fn lemma_preorder_from_children(
    nodes: Seq<SyntaxNode>,
    i: nat,
    node: SyntaxNode,
    child: SyntaxNode,
)
    requires
        preorder_from(nodes, i).contains(node),
        node.children@.contains(child),
    ensures
        preorder_from(nodes, i).contains(child),
    decreases nodes, nodes.len() - i,
{
    let all = preorder_from(nodes, i);
    let first = nodes[i as int].preorder();
    let rest = preorder_from(nodes, i + 1);
    let k = choose|k: int| 0 <= k < all.len() && all[k] == node;
    if k < first.len() {
        assert(first[k] == node);
        lemma_preorder_children(nodes[i as int], node, child);
        let j = choose|j: int| 0 <= j < first.len() && first[j] == child;
        assert(all[j] == child);
    } else {
        assert(rest[k - first.len()] == node);
        lemma_preorder_from_children(nodes, i + 1, node, child);
        let j = choose|j: int| 0 <= j < rest.len() && rest[j] == child;
        assert(all[first.len() + j] == child);
    }
}

/// `core::str::from_utf8`: succeeds exactly on well-formed UTF-8, and then
/// gives the characters that the bytes encode.
#[verifier::external_body]
pub(crate) fn decode(bytes: &[u8]) -> (r: Option<&str>)
    ensures
        r is Some <==> valid_utf8(bytes@),
        r matches Some(s) ==> s@ == decode_utf8(bytes@),
{
    std::str::from_utf8(bytes).ok()
}

/// Whether some facts are those of a node, but for its depth.
pub open spec fn facts_of_node(fact: NodeFacts, node: SyntaxNode) -> bool {
    &&& fact.kind == node.kind@
    &&& fact.named == node.named
    &&& fact.start_byte == node.start_byte
    &&& fact.end_byte == node.end_byte
    &&& fact.start_row == node.start_row
    &&& fact.end_row == node.end_row
    &&& fact.field == text::optional_text(node.field)
}

/// The nodes of a tree are listed in the order of its listing, each of them once.
pub proof fn law_preorder_is_the_listing(root: SyntaxNode, depth: int, k: int)
    ensures
        root.preorder().len() == root.listing(depth).len(),
        0 <= k < root.preorder().len() ==> facts_of_node(
            root.listing(depth)[k],
            root.preorder()[k],
        ),
    decreases root, 0nat,
{
    let nodes = root.children@;
    lemma_preorder_listing(nodes, 0, depth + 1, k - 1);
    let below = listing_of(nodes, nodes.len(), depth + 1);
    assert(listing_of(nodes, 0, depth + 1).len() == 0);
    if 0 < k < root.preorder().len() {
        assert(root.preorder()[k] == preorder_from(nodes, 0)[k - 1]);
        assert(root.listing(depth)[k] == below[k - 1]);
    }
}

proof fn lemma_preorder_listing(nodes: Seq<SyntaxNode>, i: nat, depth: int, k: int)
    requires
        i <= nodes.len(),
    ensures
        preorder_from(nodes, i).len() + listing_of(nodes, i, depth).len() == listing_of(
            nodes,
            nodes.len(),
            depth,
        ).len(),
        0 <= k < preorder_from(nodes, i).len() ==> facts_of_node(
            listing_of(nodes, nodes.len(), depth)[listing_of(nodes, i, depth).len() + k],
            preorder_from(nodes, i)[k],
        ),
        listing_of(nodes, i, depth).is_prefix_of(listing_of(nodes, nodes.len(), depth)),
    decreases nodes, nodes.len() - i,
{
    if i < nodes.len() {
        let first = nodes[i as int];
        let own = first.preorder();
        law_preorder_is_the_listing(first, depth, k);
        lemma_preorder_listing(nodes, i + 1, depth, k - own.len());
        let before = listing_of(nodes, i, depth);
        let next = listing_of(nodes, i + 1, depth);
        let all = listing_of(nodes, nodes.len(), depth);
        assert(next == before + first.listing(depth));
        assert(next == all.subrange(0, next.len() as int));
        assert(before == all.subrange(0, before.len() as int));
        if 0 <= k < own.len() {
            assert(next[before.len() + k] == first.listing(depth)[k]);
            assert(all[before.len() + k] == next[before.len() + k]);
            assert(preorder_from(nodes, i)[k] == own[k]);
        } else if own.len() <= k < preorder_from(nodes, i).len() {
            assert(preorder_from(nodes, i)[k] == preorder_from(nodes, i + 1)[k - own.len()]);
        }
    } else {
        let all = listing_of(nodes, nodes.len(), depth);
        assert(all == all.subrange(0, all.len() as int));
    }
}

}
