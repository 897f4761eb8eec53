//! The calls around a function as a flowchart.
use vstd::hash_map::StringHashMap;
use vstd::hash_set::StringHashSet;
use vstd::prelude::*;
use vstd::string::*;

use crate::server::tools::calls::callers;
use crate::server::tools::calls::callers::CallerSite;
use crate::server::tools::calls::CallDirection;
use crate::text;

verus! {

/// The names of the nodes of a diagram: an id and a label for each function.
pub struct NodeNames {
    inner: StringHashMap<(String, String)>,
}

impl View for NodeNames {
    type V = Map<Seq<char>, (Seq<char>, Seq<char>)>;

    closed spec fn view(&self) -> Map<Seq<char>, (Seq<char>, Seq<char>)> {
        self.inner@.map_values(|names: (String, String)| (names.0@, names.1@))
    }
}

impl NodeNames {
    /// No node has a name yet.
    pub fn new() -> (r: Self)
        ensures
            r@ == Map::<Seq<char>, (Seq<char>, Seq<char>)>::empty(),
    {
        let r = NodeNames { inner: StringHashMap::new() };
        assert(r@ == Map::<Seq<char>, (Seq<char>, Seq<char>)>::empty());
        r
    }

    /// Names the node of a function.
    pub fn insert(&mut self, name: &str, id: String, label: String)
        ensures
            final(self)@ == old(self)@.insert(name@, (id@, label@)),
    {
        self.inner.insert(name.to_owned(), (id, label));
        assert(self@ == old(self)@.insert(name@, (id@, label@)));
    }

    fn get(&self, name: &str) -> (r: &(String, String))
        requires
            self@.contains_key(name@),
        ensures
            self@[name@] == (r.0@, r.1@),
    {
        self.inner.get(name).unwrap()
    }
}

/// The largest number of edges of a diagram.
pub const MAX_EDGES: usize = 50;

/// An edge of a diagram: from a caller to the function, or from the function to
/// a callee, given by the id and the label of the other node.
pub enum EdgeModel {
    Caller(Seq<char>, Seq<char>),
    Callee(Seq<char>, Seq<char>),
}

/// Whether a caller with an id has an edge.
pub open spec fn has_caller(edges: Seq<EdgeModel>, id: Seq<char>) -> bool {
    exists|k: int|
        0 <= k < edges.len() && (#[trigger] edges[k] matches EdgeModel::Caller(other, _) && other
            == id)
}

/// `edges`, with an edge for each of `callers` that has none, as long as there
/// is room.
pub open spec fn with_callers(
    names: Map<Seq<char>, (Seq<char>, Seq<char>)>,
    edges: Seq<EdgeModel>,
    callers: Seq<Seq<char>>,
) -> Seq<EdgeModel>
    decreases callers.len(),
{
    if callers.len() == 0 {
        edges
    } else {
        let rest = with_callers(names, edges, callers.drop_last());
        let (id, label) = names[callers.last()];
        if rest.len() >= MAX_EDGES || has_caller(rest, id) {
            rest
        } else {
            rest.push(EdgeModel::Caller(id, label))
        }
    }
}

/// `edges`, with an edge for each of `callees`, as long as there is room.
pub open spec fn with_callees(
    names: Map<Seq<char>, (Seq<char>, Seq<char>)>,
    edges: Seq<EdgeModel>,
    callees: Seq<Seq<char>>,
) -> Seq<EdgeModel>
    decreases callees.len(),
{
    if callees.len() == 0 {
        edges
    } else {
        let rest = with_callees(names, edges, callees.drop_last());
        let (id, label) = names[callees.last()];
        if rest.len() >= MAX_EDGES {
            rest
        } else {
            rest.push(EdgeModel::Callee(id, label))
        }
    }
}

/// The name that a call goes under in a diagram.
pub open spec fn caller_name(site: callers::CallerModel) -> Seq<char> {
    match site.enclosing {
        Some(name) => name,
        None => "(top-level)"@,
    }
}

/// The names that some calls go under in a diagram.
pub open spec fn caller_names(sites: Seq<callers::CallerModel>) -> Seq<Seq<char>> {
    Seq::new(sites.len(), |i: int| caller_name(sites[i]))
}

/// The edges of the diagram of the first `n` functions. `callees[k]` are the
/// names that function `k` calls.
pub open spec fn diagram_edges(
    names: Map<Seq<char>, (Seq<char>, Seq<char>)>,
    sites: Seq<callers::CallerModel>,
    callees: Seq<Vec<String>>,
    direction: CallDirection,
    n: nat,
) -> Seq<EdgeModel>
    decreases n,
{
    if n == 0 {
        Seq::empty()
    } else {
        let rest = diagram_edges(names, sites, callees, direction, (n - 1) as nat);
        let extended = if direction.callers() {
            with_callers(names, rest, caller_names(sites))
        } else {
            rest
        };
        if direction.callees() {
            with_callees(names, extended, text::texts(callees[n - 1]@))
        } else {
            extended
        }
    }
}

/// The line of an edge.
pub open spec fn edge_line(target: Seq<char>, edge: EdgeModel) -> Seq<char> {
    match edge {
        EdgeModel::Caller(id, label) => "  "@ + id + "[\""@ + label + "\"] --> "@ + target
            + "\n"@,
        EdgeModel::Callee(id, label) => "  "@ + target + " --> "@ + id + "[\""@ + label
            + "\"]\n"@,
    }
}

/// The lines of some edges.
pub open spec fn edge_lines(target: Seq<char>, edges: Seq<EdgeModel>) -> Seq<char>
    decreases edges.len(),
{
    if edges.len() == 0 {
        Seq::empty()
    } else {
        edge_lines(target, edges.drop_last()) + edge_line(target, edges.last())
    }
}

/// A diagram of the calls around a function.
pub open spec fn diagram(target: (Seq<char>, Seq<char>), edges: Seq<EdgeModel>) -> Seq<char> {
    "graph TD\n  "@ + target.0 + "[\""@ + target.1 + "\"]\n"@ + edge_lines(target.0, edges) + (
    if edges.len() >= MAX_EDGES {
        "  truncated[\"... truncated\"]\n"@
    } else {
        Seq::empty()
    })
}

/// Whether no two callers in a diagram have the same id.
pub open spec fn callers_distinct(edges: Seq<EdgeModel>) -> bool {
    forall|i: int, j: int|
        0 <= i < j < edges.len() ==> !(#[trigger] edges[i] is Caller && #[trigger] edges[j]
            is Caller && edges[i]->Caller_0 == edges[j]->Caller_0)
}

proof fn lemma_with_callers(
    names: Map<Seq<char>, (Seq<char>, Seq<char>)>,
    edges: Seq<EdgeModel>,
    callers: Seq<Seq<char>>,
)
    requires
        edges.len() <= MAX_EDGES,
        callers_distinct(edges),
    ensures
        with_callers(names, edges, callers).len() <= MAX_EDGES,
        callers_distinct(with_callers(names, edges, callers)),
    decreases callers.len(),
{
    if callers.len() > 0 {
        lemma_with_callers(names, edges, callers.drop_last());
    }
}

proof fn lemma_with_callees(
    names: Map<Seq<char>, (Seq<char>, Seq<char>)>,
    edges: Seq<EdgeModel>,
    callees: Seq<Seq<char>>,
)
    requires
        edges.len() <= MAX_EDGES,
        callers_distinct(edges),
    ensures
        with_callees(names, edges, callees).len() <= MAX_EDGES,
        callers_distinct(with_callees(names, edges, callees)),
    decreases callees.len(),
{
    if callees.len() > 0 {
        lemma_with_callees(names, edges, callees.drop_last());
    }
}

/// A diagram never has more edges than its limit, and no caller shows twice.
pub proof fn law_diagram_is_bounded(
    names: Map<Seq<char>, (Seq<char>, Seq<char>)>,
    sites: Seq<callers::CallerModel>,
    callees: Seq<Vec<String>>,
    direction: CallDirection,
    n: nat,
)
    requires
        n <= callees.len(),
    ensures
        diagram_edges(names, sites, callees, direction, n).len() <= MAX_EDGES,
        callers_distinct(diagram_edges(names, sites, callees, direction, n)),
    decreases n,
{
    if n > 0 {
        law_diagram_is_bounded(names, sites, callees, direction, (n - 1) as nat);
        let rest = diagram_edges(names, sites, callees, direction, (n - 1) as nat);
        lemma_with_callers(names, rest, caller_names(sites));
        let extended = if direction.callers() {
            with_callers(names, rest, caller_names(sites))
        } else {
            rest
        };
        lemma_with_callees(names, extended, text::texts(callees[n - 1]@));
    }
}

struct Diagram {
    lines: String,
    count: usize,
    seen: StringHashSet,
    edges: Ghost<Seq<EdgeModel>>,
}

impl Diagram {
    spec fn shows(self, target: Seq<char>) -> bool {
        &&& self.lines@ == edge_lines(target, self.edges@)
        &&& self.count == self.edges@.len()
        &&& self.count <= MAX_EDGES
        &&& forall|id: Seq<char>| #[trigger]
            self.seen@.contains(id) <==> has_caller(self.edges@, id)
    }

    fn push_caller(&mut self, target: &str, id: &str, label: &str)
        requires
            old(self).shows(target@),
        ensures
            final(self).shows(target@),
            final(self).edges@ == if old(self).edges@.len() >= MAX_EDGES || has_caller(
                old(self).edges@,
                id@,
            ) {
                old(self).edges@
            } else {
                old(self).edges@.push(EdgeModel::Caller(id@, label@))
            },
    {
        if self.count >= MAX_EDGES || self.seen.contains(id) {
            return;
        }
        let ghost before = self.edges@;
        let ghost edge = EdgeModel::Caller(id@, label@);
        self.seen.insert(id.to_owned());
        let mut line = "  ".to_owned();
        line.append(id);
        line.append("[\"");
        line.append(label);
        line.append("\"] --> ");
        line.append(target);
        line.append("\n");
        self.lines.append(line.as_str());
        self.count = self.count + 1;
        self.edges = Ghost(before.push(edge));
        proof {
            assert(before.push(edge).drop_last() == before);
            assert forall|other: Seq<char>| #[trigger]
                self.seen@.contains(other) <==> has_caller(self.edges@, other) by {
                if has_caller(before, other) {
                    let k = choose|k: int|
                        0 <= k < before.len() && (
                        #[trigger] before[k] matches EdgeModel::Caller(found, _) && found
                            == other);
                    assert(self.edges@[k] == before[k]);
                }
                assert(self.edges@[before.len() as int] == edge);
            }
        }
    }

    fn push_callee(&mut self, target: &str, id: &str, label: &str)
        requires
            old(self).shows(target@),
        ensures
            final(self).shows(target@),
            final(self).edges@ == if old(self).edges@.len() >= MAX_EDGES {
                old(self).edges@
            } else {
                old(self).edges@.push(EdgeModel::Callee(id@, label@))
            },
    {
        if self.count >= MAX_EDGES {
            return;
        }
        let ghost before = self.edges@;
        let ghost edge = EdgeModel::Callee(id@, label@);
        let mut line = "  ".to_owned();
        line.append(target);
        line.append(" --> ");
        line.append(id);
        line.append("[\"");
        line.append(label);
        line.append("\"]\n");
        self.lines.append(line.as_str());
        self.count = self.count + 1;
        self.edges = Ghost(before.push(edge));
        proof {
            assert(before.push(edge).drop_last() == before);
            assert forall|other: Seq<char>| #[trigger]
                self.seen@.contains(other) <==> has_caller(self.edges@, other) by {
                if has_caller(before, other) {
                    let k = choose|k: int|
                        0 <= k < before.len() && (
                        #[trigger] before[k] matches EdgeModel::Caller(found, _) && found
                            == other);
                    assert(self.edges@[k] == before[k]);
                }
                if has_caller(self.edges@, other) {
                    let k = choose|k: int|
                        0 <= k < self.edges@.len() && (
                        #[trigger] self.edges@[k] matches EdgeModel::Caller(found, _) && found
                            == other);
                    assert(before[k] == self.edges@[k]);
                }
            }
        }
    }
}

fn draw_callers(diagram: &mut Diagram, names: &NodeNames, target: &str, sites: &Vec<CallerSite>)
    requires
        old(diagram).shows(target@),
        forall|k: int|
            0 <= k < sites@.len() ==> names@.contains_key(caller_name((#[trigger] sites@[k])@)),
    ensures
        final(diagram).shows(target@),
        final(diagram).edges@ == with_callers(
            names@,
            old(diagram).edges@,
            caller_names(callers::caller_models(sites@)),
        ),
{
    let ghost all = caller_names(callers::caller_models(sites@));
    let ghost start = diagram.edges@;
    let n: usize = sites.len();
    let mut i: usize = 0;
    while i < n
        invariant
            n == sites@.len(),
            all == caller_names(callers::caller_models(sites@)),
            i <= n,
            diagram.shows(target@),
            forall|k: int|
                0 <= k < n ==> names@.contains_key(caller_name((#[trigger] sites@[k])@)),
            diagram.edges@ == with_callers(names@, start, all.take(i as int)),
        decreases n - i,
    {
        let name = match &sites[i].enclosing {
            Some(name) => name.as_str(),
            None => "(top-level)",
        };
        assert(name@ == caller_name(sites@[i as int]@));
        let node = names.get(name);
        diagram.push_caller(target, node.0.as_str(), node.1.as_str());
        proof {
            assert(all.take(i + 1).drop_last() == all.take(i as int));
            assert(all.take(i + 1).last() == name@);
        }
        i = i + 1;
    }
    assert(all.take(n as int) == all);
}

fn draw_callees(diagram: &mut Diagram, names: &NodeNames, target: &str, callees: &Vec<String>)
    requires
        old(diagram).shows(target@),
        forall|k: int| 0 <= k < callees@.len() ==> names@.contains_key((#[trigger] callees@[k])@),
    ensures
        final(diagram).shows(target@),
        final(diagram).edges@ == with_callees(
            names@,
            old(diagram).edges@,
            text::texts(callees@),
        ),
{
    let ghost all = text::texts(callees@);
    let ghost start = diagram.edges@;
    let n: usize = callees.len();
    let mut i: usize = 0;
    while i < n
        invariant
            n == callees@.len(),
            all == text::texts(callees@),
            i <= n,
            diagram.shows(target@),
            forall|k: int| 0 <= k < n ==> names@.contains_key((#[trigger] callees@[k])@),
            diagram.edges@ == with_callees(names@, start, all.take(i as int)),
        decreases n - i,
    {
        let name = callees[i].as_str();
        let node = names.get(name);
        diagram.push_callee(target, node.0.as_str(), node.1.as_str());
        proof {
            assert(all.take(i + 1).drop_last() == all.take(i as int));
            assert(all.take(i + 1).last() == name@);
        }
        i = i + 1;
    }
    assert(all.take(n as int) == all);
}

/// Draws the calls around the function `target_name` as a Mermaid flowchart.
/// `callees[k]` are the names that the `k`-th function of that name calls, and
/// `names` knows all nodes.
pub fn qartez_calls_mermaid(
    target_name: &str,
    sites: &Vec<CallerSite>,
    callees: &Vec<Vec<String>>,
    direction: CallDirection,
    names: &NodeNames,
) -> (r: String)
    requires
        names@.contains_key(target_name@),
        direction.callers() ==> forall|k: int|
            0 <= k < sites@.len() ==> names@.contains_key(caller_name((#[trigger] sites@[k])@)),
        direction.callees() ==> forall|j: int, k: int|
            0 <= j < callees@.len() && 0 <= k < callees@[j]@.len() ==> names@.contains_key(
                (#[trigger] callees@[j]@[k])@,
            ),
    ensures
        r@ == diagram(
            names@[target_name@],
            diagram_edges(
                names@,
                callers::caller_models(sites@),
                callees@,
                direction,
                callees@.len(),
            ),
        ),
{
    let node = names.get(target_name);
    let target = node.0.as_str();
    let mut drawing = Diagram {
        lines: String::new(),
        count: 0,
        seen: StringHashSet::new(),
        edges: Ghost(Seq::empty()),
    };
    let n: usize = callees.len();
    let mut i: usize = 0;
    while i < n
        invariant
            n == callees@.len(),
            i <= n,
            drawing.shows(target@),
            direction.callers() ==> forall|k: int|
                0 <= k < sites@.len() ==> names@.contains_key(
                    caller_name((#[trigger] sites@[k])@),
                ),
            direction.callees() ==> forall|j: int, k: int|
                0 <= j < callees@.len() && 0 <= k < callees@[j]@.len() ==> names@.contains_key(
                    (#[trigger] callees@[j]@[k])@,
                ),
            drawing.edges@ == diagram_edges(
                names@,
                callers::caller_models(sites@),
                callees@,
                direction,
                i as nat,
            ),
        decreases n - i,
    {
        if direction.wants_callers() {
            draw_callers(&mut drawing, names, target, sites);
        }
        if direction.wants_callees() {
            draw_callees(&mut drawing, names, target, &callees[i]);
        }
        i = i + 1;
    }
    let mut out = "graph TD\n  ".to_owned();
    out.append(target);
    out.append("[\"");
    out.append(node.1.as_str());
    out.append("\"]\n");
    out.append(drawing.lines.as_str());
    if drawing.count >= MAX_EDGES {
        out.append("  truncated[\"... truncated\"]\n");
    } else {
        assert(out@ + Seq::<char>::empty() == out@);
    }
    out
}

#[verifier::rlimit(50)]
proof fn lemma_callers_drawn(
    names: Map<Seq<char>, (Seq<char>, Seq<char>)>,
    edges: Seq<EdgeModel>,
    callers: Seq<Seq<char>>,
)
    ensures
        edges.is_prefix_of(with_callers(names, edges, callers)),
        with_callers(names, edges, callers).len() < MAX_EDGES ==> forall|k: int|
            0 <= k < callers.len() ==> has_caller(
                with_callers(names, edges, callers),
                names[#[trigger] callers[k]].0,
            ),
        forall|j: int|
            edges.len() <= j < with_callers(names, edges, callers).len() ==> (
            #[trigger] with_callers(names, edges, callers)[j] matches EdgeModel::Caller(id, label)
                && exists|k: int|
                0 <= k < callers.len() && names[#[trigger] callers[k]] == (id, label)),
    decreases callers.len(),
{
    if callers.len() > 0 {
        let rest = callers.drop_last();
        lemma_callers_drawn(names, edges, rest);
        let before = with_callers(names, edges, rest);
        let all = with_callers(names, edges, callers);
        let (id, label) = names[callers.last()];
        assert(callers[callers.len() - 1] == callers.last());
        assert forall|j: int| edges.len() <= j < all.len() implies (
        #[trigger] all[j] matches EdgeModel::Caller(id, label) && exists|k: int|
            0 <= k < callers.len() && names[#[trigger] callers[k]] == (id, label)) by {
            if j < before.len() {
                assert(all[j] == before[j]);
                let id = before[j]->Caller_0;
                let label = before[j]->Caller_1;
                let k = choose|k: int|
                    0 <= k < rest.len() && names[#[trigger] rest[k]] == (id, label);
                assert(callers[k] == rest[k]);
            } else {
                assert(names[callers[callers.len() - 1]] == (id, label));
            }
        }
        if all.len() < MAX_EDGES {
            assert forall|k: int| 0 <= k < callers.len() implies has_caller(
                all,
                names[#[trigger] callers[k]].0,
            ) by {
                if k < rest.len() {
                    assert(rest[k] == callers[k]);
                    let other = names[callers[k]].0;
                    assert(has_caller(before, other));
                    let j = choose|j: int|
                        0 <= j < before.len() && (
                        #[trigger] before[j] matches EdgeModel::Caller(found, _) && found
                            == other);
                    assert(all[j] == before[j]);
                } else if !has_caller(before, id) {
                    assert(all[before.len() as int] == EdgeModel::Caller(id, label));
                }
            }
        }
    }
}

proof fn lemma_callees_drawn(
    names: Map<Seq<char>, (Seq<char>, Seq<char>)>,
    edges: Seq<EdgeModel>,
    callees: Seq<Seq<char>>,
)
    ensures
        edges.is_prefix_of(with_callees(names, edges, callees)),
        with_callees(names, edges, callees).len() < MAX_EDGES ==> with_callees(
            names,
            edges,
            callees,
        ).len() == edges.len() + callees.len(),
        forall|j: int|
            edges.len() <= j < with_callees(names, edges, callees).len() ==> j - edges.len()
                < callees.len() && #[trigger] with_callees(names, edges, callees)[j]
                == EdgeModel::Callee(
                names[callees[j - edges.len()]].0,
                names[callees[j - edges.len()]].1,
            ),
    decreases callees.len(),
{
    if callees.len() > 0 {
        let rest = callees.drop_last();
        lemma_callees_drawn(names, edges, rest);
        let before = with_callees(names, edges, rest);
        let all = with_callees(names, edges, callees);
        assert forall|j: int| edges.len() <= j < all.len() implies j - edges.len() < callees.len()
            && #[trigger] all[j] == EdgeModel::Callee(
            names[callees[j - edges.len()]].0,
            names[callees[j - edges.len()]].1,
        ) by {
            if j < before.len() {
                assert(all[j] == before[j]);
                assert(callees[j - edges.len()] == rest[j - edges.len()]);
            } else {
                lemma_callees_room(names, edges, rest);
            }
        }
    }
}

proof fn lemma_callees_room(
    names: Map<Seq<char>, (Seq<char>, Seq<char>)>,
    edges: Seq<EdgeModel>,
    callees: Seq<Seq<char>>,
)
    ensures
        with_callees(names, edges, callees).len() < MAX_EDGES ==> with_callees(
            names,
            edges,
            callees,
        ).len() == edges.len() + callees.len(),
    decreases callees.len(),
{
    if callees.len() > 0 {
        lemma_callees_room(names, edges, callees.drop_last());
    }
}

/// Where a diagram has room left, every call that is asked for is in it: each caller
/// by an edge to the function, and each callee of each function by an edge from it.
#[verifier::rlimit(50)]
pub proof fn law_every_call_is_drawn(
    names: Map<Seq<char>, (Seq<char>, Seq<char>)>,
    sites: Seq<callers::CallerModel>,
    callees: Seq<Vec<String>>,
    direction: CallDirection,
    n: nat,
    f: int,
    k: int,
)
    requires
        0 <= f < n <= callees.len(),
        diagram_edges(names, sites, callees, direction, n).len() < 50,
    ensures
        ({
            let edges = diagram_edges(names, sites, callees, direction, n);
            &&& direction is Callers || direction is Both ==> (0 <= k < sites.len()
                ==> has_caller(
                edges,
                names[if sites[k].enclosing is Some {
                    sites[k].enclosing->0
                } else {
                    "(top-level)"@
                }].0,
            ))
            &&& direction is Callees || direction is Both ==> (0 <= k < callees[f]@.len()
                ==> edges.contains(
                EdgeModel::Callee(names[callees[f]@[k]@].0, names[callees[f]@[k]@].1),
            ))
            &&& direction is Callees ==> forall|j: int|
                0 <= j < edges.len() ==> #[trigger] edges[j] is Callee
            &&& direction is Callers ==> forall|j: int|
                0 <= j < edges.len() ==> #[trigger] edges[j] is Caller
        }),
    decreases n,
{
    let m = (n - 1) as nat;
    let rest = diagram_edges(names, sites, callees, direction, m);
    let all = diagram_edges(names, sites, callees, direction, n);
    let list = text::texts(callees[m as int]@);
    let extended = if direction.callers() {
        with_callers(names, rest, caller_names(sites))
    } else {
        rest
    };
    lemma_callers_drawn(names, rest, caller_names(sites));
    lemma_callees_drawn(names, extended, list);
    assert(rest.is_prefix_of(extended));
    assert(extended.is_prefix_of(all));
    assert(rest == extended.subrange(0, rest.len() as int));
    assert(extended == all.subrange(0, extended.len() as int));
    assert(forall|j: int| 0 <= j < rest.len() ==> #[trigger] all[j] == rest[j]) by {
        assert forall|j: int| 0 <= j < rest.len() implies #[trigger] all[j] == rest[j] by {
            assert(rest[j] == extended[j]);
            assert(extended[j] == all[j]);
        }
    }
    assert(rest.len() <= extended.len() <= all.len());
    if m > 0 {
        law_every_call_is_drawn(names, sites, callees, direction, m, if f < m {
            f
        } else {
            0
        }, k);
    }
    if direction.callers() && 0 <= k < sites.len() {
        let id = names[caller_name(sites[k])].0;
        assert(caller_names(sites)[k] == caller_name(sites[k]));
        assert(has_caller(extended, id));
        let j = choose|j: int|
            0 <= j < extended.len() && (
            #[trigger] extended[j] matches EdgeModel::Caller(found, _) && found == id);
        assert(all[j] == extended[j]);
    }
    if direction.callees() && 0 <= k < callees[f]@.len() {
        let edge = EdgeModel::Callee(names[callees[f]@[k]@].0, names[callees[f]@[k]@].1);
        if f == m {
            assert(all.len() == extended.len() + list.len());
            let j = extended.len() + k;
            assert(list[k] == callees[f]@[k]@);
            assert(all[j as int] == edge);
        } else {
            let j = choose|j: int| 0 <= j < rest.len() && rest[j] == edge;
            assert(all[j] == edge);
        }
    }
    assert forall|j: int| 0 <= j < all.len() && direction is Callers implies #[trigger] all[j]
        is Caller by {
        if j < rest.len() {
            assert(all[j] == rest[j]);
        } else {
            assert(all[j] == extended[j]);
        }
    }
    assert forall|j: int| 0 <= j < all.len() && direction is Callees implies #[trigger] all[j]
        is Callee by {
        if j < rest.len() {
            assert(all[j] == rest[j]);
        }
    }
}

/// A diagram has the node of the function and a line for every edge, from callers to
/// the function and from the function to callees. It is marked as truncated exactly
/// when its edges are at the limit.
pub proof fn law_edges_are_shown(target: (Seq<char>, Seq<char>), edges: Seq<EdgeModel>, k: int)
    requires
        0 <= k < edges.len(),
    ensures
        ({
            let shown = diagram(target, edges);
            let body = "graph TD\n  "@ + target.0 + "[\""@ + target.1 + "\"]\n"@ + edge_lines(
                target.0,
                edges,
            );
            &&& edges[k] matches EdgeModel::Caller(id, label) ==> text::contains_text(
                shown,
                "  "@ + id + "[\""@ + label + "\"] --> "@ + target.0 + "\n"@,
            )
            &&& edges[k] matches EdgeModel::Callee(id, label) ==> text::contains_text(
                shown,
                "  "@ + target.0 + " --> "@ + id + "[\""@ + label + "\"]\n"@,
            )
            &&& edges.len() < 50 ==> shown == body
            &&& edges.len() >= 50 ==> shown == body + "  truncated[\"... truncated\"]\n"@
        }),
{
    lemma_edge_shown(target.0, edges, k);
    let lines = edge_lines(target.0, edges);
    let head = "graph TD\n  "@ + target.0 + "[\""@ + target.1 + "\"]\n"@;
    let line = edge_line(target.0, edges[k]);
    text::lemma_grows(lines, head, line);
    text::lemma_grows(head + lines, "  truncated[\"... truncated\"]\n"@, line);
    assert(head + lines + Seq::<char>::empty() == head + lines);
}

proof fn lemma_edge_shown(target: Seq<char>, edges: Seq<EdgeModel>, k: int)
    requires
        0 <= k < edges.len(),
    ensures
        text::contains_text(edge_lines(target, edges), edge_line(target, edges[k])),
    decreases edges.len(),
{
    let rest = edges.drop_last();
    let own = edge_line(target, edges.last());
    if k < rest.len() {
        lemma_edge_shown(target, rest, k);
        text::lemma_grows(edge_lines(target, rest), own, edge_line(target, edges[k]));
    } else {
        text::lemma_holds(edge_lines(target, rest), own, Seq::empty());
        assert(edge_lines(target, rest) + own + Seq::<char>::empty() == edge_lines(target, rest)
            + own);
    }
}

}
