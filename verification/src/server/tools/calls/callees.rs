//! What a function calls, and what its callees call.
use vstd::hash_map::StringHashMap;
use vstd::hash_set::StringHashSet;
use vstd::prelude::*;
use vstd::string::*;

use crate::order;
use crate::server::tools::calls::CallSite;
use crate::storage::models::{FileRow, SymbolRow};
use crate::text;
use crate::text::{join, push_count, same};

verus! {

/// The calls of files, by path, as far as they were looked up.
pub struct CallsCache {
    inner: StringHashMap<Vec<CallSite>>,
}

impl View for CallsCache {
    type V = Map<Seq<char>, Seq<CallSite>>;

    closed spec fn view(&self) -> Map<Seq<char>, Seq<CallSite>> {
        self.inner@.map_values(|calls: Vec<CallSite>| calls@)
    }
}

impl CallsCache {
    /// Nothing was looked up yet.
    pub fn new() -> (r: Self)
        ensures
            r@ == Map::<Seq<char>, Seq<CallSite>>::empty(),
    {
        let r = CallsCache { inner: StringHashMap::new() };
        assert(r@ == Map::<Seq<char>, Seq<CallSite>>::empty());
        r
    }

    /// Notes the calls of a file.
    pub fn insert(&mut self, path: &str, calls: Vec<CallSite>)
        ensures
            final(self)@ == old(self)@.insert(path@, calls@),
    {
        self.inner.insert(path.to_owned(), calls);
        assert(self@ == old(self)@.insert(path@, calls@));
    }

    /// The calls of a file, if they were looked up.
    pub fn get(&self, path: &str) -> (r: Option<&Vec<CallSite>>)
        ensures
            match r {
                Some(calls) => self@.contains_key(path@) && self@[path@] == calls@,
                None => !self@.contains_key(path@),
            },
    {
        self.inner.get(path)
    }
}

/// The symbols that names stand for, as far as they were looked up.
pub struct ResolveCache {
    inner: StringHashMap<Vec<(SymbolRow, FileRow)>>,
}

impl View for ResolveCache {
    type V = Map<Seq<char>, Seq<(SymbolRow, FileRow)>>;

    closed spec fn view(&self) -> Map<Seq<char>, Seq<(SymbolRow, FileRow)>> {
        self.inner@.map_values(|symbols: Vec<(SymbolRow, FileRow)>| symbols@)
    }
}

impl ResolveCache {
    /// Nothing was looked up yet.
    pub fn new() -> (r: Self)
        ensures
            r@ == Map::<Seq<char>, Seq<(SymbolRow, FileRow)>>::empty(),
    {
        let r = ResolveCache { inner: StringHashMap::new() };
        assert(r@ == Map::<Seq<char>, Seq<(SymbolRow, FileRow)>>::empty());
        r
    }

    /// Notes the symbols that a name stands for.
    pub fn insert(&mut self, name: &str, symbols: Vec<(SymbolRow, FileRow)>)
        ensures
            final(self)@ == old(self)@.insert(name@, symbols@),
    {
        self.inner.insert(name.to_owned(), symbols);
        assert(self@ == old(self)@.insert(name@, symbols@));
    }

    /// The symbols that a name stands for, if they were looked up.
    pub fn get(&self, name: &str) -> (r: Option<&Vec<(SymbolRow, FileRow)>>)
        ensures
            match r {
                Some(symbols) => self@.contains_key(name@) && self@[name@] == symbols@,
                None => !self@.contains_key(name@),
            },
    {
        self.inner.get(name)
    }
}

/// The calls that a map holds for a path.
pub open spec fn calls_at(map: Map<Seq<char>, Seq<CallSite>>, path: Seq<char>) -> Seq<CallSite> {
    if map.contains_key(path) {
        map[path]
    } else {
        Seq::empty()
    }
}

/// The symbols that a map holds for a name.
pub open spec fn symbols_named(
    map: Map<Seq<char>, Seq<(SymbolRow, FileRow)>>,
    name: Seq<char>,
) -> Seq<(SymbolRow, FileRow)> {
    if map.contains_key(name) {
        map[name]
    } else {
        Seq::empty()
    }
}

/// Whether a call lies inside a function.
pub open spec fn inside(call: CallSite, symbol: SymbolRow) -> bool {
    symbol.line_start <= call.line <= symbol.line_end
}

fn is_inside(call: &CallSite, symbol: &SymbolRow) -> (r: bool)
    ensures
        r == inside(*call, *symbol),
{
    let start: usize = symbol.line_start as usize;
    let end: usize = symbol.line_end as usize;
    start <= call.line && call.line <= end
}

/// The names that a function calls, each once, in the order of their first
/// calls.
pub open spec fn direct_callees(calls: Seq<CallSite>, symbol: SymbolRow) -> Seq<Seq<char>>
    decreases calls.len(),
{
    if calls.len() == 0 {
        Seq::empty()
    } else {
        let rest = direct_callees(calls.drop_last(), symbol);
        let call = calls.last();
        if inside(call, symbol) && !rest.contains(call.name@) {
            rest.push(call.name@)
        } else {
            rest
        }
    }
}

/// No callee is listed twice.
pub proof fn law_callees_are_distinct(calls: Seq<CallSite>, symbol: SymbolRow)
    ensures
        direct_callees(calls, symbol).no_duplicates(),
    decreases calls.len(),
{
    if calls.len() > 0 {
        law_callees_are_distinct(calls.drop_last(), symbol);
    }
}

/// Lists the names that a function calls, each once.
pub fn find_callees(calls: &Vec<CallSite>, symbol: &SymbolRow) -> (r: Vec<String>)
    ensures
        text::texts(r@) == direct_callees(calls@, *symbol),
{
    let n: usize = calls.len();
    let mut seen = StringHashSet::new();
    let mut out: Vec<String> = Vec::new();
    let mut i: usize = 0;
    assert(text::texts(out@) == Seq::<Seq<char>>::empty());
    while i < n
        invariant
            n == calls@.len(),
            i <= n,
            forall|name: Seq<char>| #[trigger]
                seen@.contains(name) <==> text::texts(out@).contains(name),
            text::texts(out@) == direct_callees(calls@.take(i as int), *symbol),
        decreases n - i,
    {
        assert(calls@.take(i + 1).drop_last() == calls@.take(i as int));
        let call = &calls[i];
        if is_inside(call, symbol) && seen.insert(call.name.clone()) {
            let ghost before = text::texts(out@);
            proof {
                text::lemma_texts_push(out@, call.name);
            }
            out.push(call.name.clone());
            proof {
                lemma_pushed_names(before, call.name@);
            }
        }
        i = i + 1;
    }
    assert(calls@.take(n as int) == calls@);
    out
}

proof fn lemma_pushed_names(names: Seq<Seq<char>>, name: Seq<char>)
    ensures
        forall|other: Seq<char>| #[trigger]
            names.push(name).contains(other) <==> (names.contains(other) || other == name),
{
    assert forall|other: Seq<char>| #[trigger]
        names.push(name).contains(other) <==> (names.contains(other) || other == name) by {
        let longer = names.push(name);
        if names.contains(other) {
            let k = choose|k: int| 0 <= k < names.len() && names[k] == other;
            assert(longer[k] == other);
        }
        if other == name {
            assert(longer[names.len() as int] == other);
        }
    }
}

/// The line on a callee: where it is defined, if it is known.
pub open spec fn callee_line(
    resolved: Map<Seq<char>, Seq<(SymbolRow, FileRow)>>,
    name: Seq<char>,
) -> Seq<char> {
    let symbols = symbols_named(resolved, name);
    if symbols.len() > 0 {
        "  "@ + name + " @ "@ + symbols[0].1.path@ + "\n"@
    } else {
        "  "@ + name + " (extern)\n"@
    }
}

/// The lines on some callees.
pub open spec fn callee_lines(
    resolved: Map<Seq<char>, Seq<(SymbolRow, FileRow)>>,
    names: Seq<Seq<char>>,
) -> Seq<char>
    decreases names.len(),
{
    if names.len() == 0 {
        Seq::empty()
    } else {
        callee_lines(resolved, names.drop_last()) + callee_line(resolved, names.last())
    }
}

/// The section on the callees of a function.
pub open spec fn callees_section(
    resolved: Map<Seq<char>, Seq<(SymbolRow, FileRow)>>,
    names: Seq<Seq<char>>,
    concise: bool,
) -> Seq<char> {
    if names.len() == 0 {
        "callees: none\n"@
    } else {
        "callees: "@ + text::decimal(names.len()) + "\n"@ + (if concise {
            Seq::empty()
        } else {
            callee_lines(resolved, names)
        })
    }
}

/// Appends the section on the callees of a function.
pub fn append_callees(
    out: &mut String,
    resolved: &ResolveCache,
    names: &Vec<String>,
    concise: bool,
)
    ensures
        final(out)@ == old(out)@ + callees_section(resolved@, text::texts(names@), concise),
{
    let ghost all = text::texts(names@);
    let n: usize = names.len();
    if n == 0 {
        out.append("callees: none\n");
        return;
    }
    let mut section = "callees: ".to_owned();
    push_count(&mut section, n);
    section.append("\n");
    let ghost start = section@;
    assert(start + Seq::<char>::empty() == start);
    if !concise {
        let mut i: usize = 0;
        while i < n
            invariant
                n == names@.len(),
                all == text::texts(names@),
                i <= n,
                section@ == start + callee_lines(resolved@, all.take(i as int)),
            decreases n - i,
        {
            let name = names[i].as_str();
            let mut line = "  ".to_owned();
            line.append(name);
            let path = match resolved.get(name) {
                Some(symbols) => if symbols.len() > 0 {
                    Some(symbols[0].1.path.as_str())
                } else {
                    None
                },
                None => None,
            };
            match path {
                Some(path) => {
                    line.append(" @ ");
                    line.append(path);
                    line.append("\n");
                },
                None => {
                    line.append(" (extern)\n");
                },
            }
            section.append(line.as_str());
            proof {
                assert(line@ == callee_line(resolved@, name@));
                assert(all.take(i + 1).drop_last() == all.take(i as int));
                assert(all.take(i + 1).last() == name@);
                assert(section@ == start + callee_lines(resolved@, all.take(i + 1)));
            }
            i = i + 1;
        }
        assert(all.take(n as int) == all);
    }
    out.append(section.as_str());
}

/// `reached`, with the names that a function calls and that are neither known
/// nor reached yet.
pub open spec fn reach(
    known: Set<Seq<char>>,
    reached: Seq<Seq<char>>,
    calls: Seq<CallSite>,
    symbol: SymbolRow,
) -> Seq<Seq<char>>
    decreases calls.len(),
{
    if calls.len() == 0 {
        reached
    } else {
        let rest = reach(known, reached, calls.drop_last(), symbol);
        let call = calls.last();
        if inside(call, symbol) && !known.contains(call.name@) && !rest.contains(call.name@) {
            rest.push(call.name@)
        } else {
            rest
        }
    }
}

/// Whether the calls of a symbol are followed.
pub open spec fn followed(kind: Seq<char>) -> bool {
    kind == "function"@ || kind == "method"@
}

/// `reached`, with the names that any of the functions `symbols` calls and that
/// are neither known nor reached yet.
pub open spec fn reach_all(
    calls: Map<Seq<char>, Seq<CallSite>>,
    known: Set<Seq<char>>,
    reached: Seq<Seq<char>>,
    symbols: Seq<(SymbolRow, FileRow)>,
) -> Seq<Seq<char>>
    decreases symbols.len(),
{
    if symbols.len() == 0 {
        reached
    } else {
        let rest = reach_all(calls, known, reached, symbols.drop_last());
        let (symbol, file) = symbols.last();
        if followed(symbol.kind@) {
            reach(known, rest, calls_at(calls, file.path@), symbol)
        } else {
            rest
        }
    }
}

/// The names that the first `n` of `roots` reach.
pub open spec fn second_level(
    calls: Map<Seq<char>, Seq<CallSite>>,
    resolved: Map<Seq<char>, Seq<(SymbolRow, FileRow)>>,
    known: Set<Seq<char>>,
    roots: Seq<Seq<char>>,
    n: nat,
) -> Seq<Seq<char>>
    decreases n,
{
    if n == 0 {
        Seq::empty()
    } else {
        reach_all(
            calls,
            known,
            second_level(calls, resolved, known, roots, (n - 1) as nat),
            symbols_named(resolved, roots[n - 1]),
        )
    }
}

/// The first `n` of `roots` that reach anything new, each with what it reaches.
pub open spec fn second_level_groups(
    calls: Map<Seq<char>, Seq<CallSite>>,
    resolved: Map<Seq<char>, Seq<(SymbolRow, FileRow)>>,
    known: Set<Seq<char>>,
    roots: Seq<Seq<char>>,
    n: nat,
) -> Seq<(Seq<char>, Seq<Seq<char>>)>
    decreases n,
{
    if n == 0 {
        Seq::empty()
    } else {
        let rest = second_level_groups(calls, resolved, known, roots, (n - 1) as nat);
        let before = second_level(calls, resolved, known, roots, (n - 1) as nat);
        let after = second_level(calls, resolved, known, roots, n);
        let targets = after.skip(before.len() as int);
        if targets.len() == 0 {
            rest
        } else {
            rest.push((roots[n - 1], targets))
        }
    }
}

/// The names that are known before the second level: the function itself and
/// what it calls.
pub open spec fn known_names(name: Seq<char>, callees: Seq<Seq<char>>) -> Set<Seq<char>> {
    callees.to_set().insert(name)
}

/// The line on what a callee reaches.
pub open spec fn depth2_line(root: Seq<char>, targets: Seq<Seq<char>>) -> Seq<char> {
    if targets.len() == 1 {
        "  "@ + root + " → "@ + targets[0] + "\n"@
    } else {
        "  "@ + root + " → {"@ + text::joined(targets, ", "@) + "}\n"@
    }
}

/// The lines on what some callees reach.
pub open spec fn depth2_lines(groups: Seq<(Seq<char>, Seq<Seq<char>>)>) -> Seq<char>
    decreases groups.len(),
{
    if groups.len() == 0 {
        Seq::empty()
    } else {
        depth2_lines(groups.drop_last()) + depth2_line(groups.last().0, groups.last().1)
    }
}

/// The section on what the callees of a function call.
pub open spec fn depth2_section(groups: Seq<(Seq<char>, Seq<Seq<char>>)>) -> Seq<char> {
    if groups.len() == 0 {
        "depth2: none\n"@
    } else {
        "depth2:\n"@ + depth2_lines(groups)
    }
}

proof fn lemma_reach(
    known: Set<Seq<char>>,
    reached: Seq<Seq<char>>,
    calls: Seq<CallSite>,
    symbol: SymbolRow,
)
    ensures
        reached.is_prefix_of(reach(known, reached, calls, symbol)),
        reached.no_duplicates() ==> reach(known, reached, calls, symbol).no_duplicates(),
        (forall|k: int| 0 <= k < reached.len() ==> !known.contains(#[trigger] reached[k]))
            ==> forall|k: int|
            0 <= k < reach(known, reached, calls, symbol).len() ==> !known.contains(
                #[trigger] reach(known, reached, calls, symbol)[k],
            ),
    decreases calls.len(),
{
    if calls.len() > 0 {
        lemma_reach(known, reached, calls.drop_last(), symbol);
    }
}

proof fn lemma_reach_all(
    calls: Map<Seq<char>, Seq<CallSite>>,
    known: Set<Seq<char>>,
    reached: Seq<Seq<char>>,
    symbols: Seq<(SymbolRow, FileRow)>,
)
    ensures
        reached.is_prefix_of(reach_all(calls, known, reached, symbols)),
        reached.no_duplicates() ==> reach_all(calls, known, reached, symbols).no_duplicates(),
        (forall|k: int| 0 <= k < reached.len() ==> !known.contains(#[trigger] reached[k]))
            ==> forall|k: int|
            0 <= k < reach_all(calls, known, reached, symbols).len() ==> !known.contains(
                #[trigger] reach_all(calls, known, reached, symbols)[k],
            ),
    decreases symbols.len(),
{
    if symbols.len() > 0 {
        let front = symbols.drop_last();
        lemma_reach_all(calls, known, reached, front);
        let rest = reach_all(calls, known, reached, front);
        let (symbol, file) = symbols.last();
        lemma_reach(known, rest, calls_at(calls, file.path@), symbol);
    }
}

/// The second level lists no name twice, and none that is known already: cycles
/// back to the function or to its callees do not show.
pub proof fn law_second_level_is_new(
    calls: Map<Seq<char>, Seq<CallSite>>,
    resolved: Map<Seq<char>, Seq<(SymbolRow, FileRow)>>,
    known: Set<Seq<char>>,
    roots: Seq<Seq<char>>,
    n: nat,
)
    requires
        n <= roots.len(),
    ensures
        second_level(calls, resolved, known, roots, n).no_duplicates(),
        forall|k: int|
            0 <= k < second_level(calls, resolved, known, roots, n).len() ==> !known.contains(
                #[trigger] second_level(calls, resolved, known, roots, n)[k],
            ),
    decreases n,
{
    if n > 0 {
        law_second_level_is_new(calls, resolved, known, roots, (n - 1) as nat);
        lemma_reach_all(
            calls,
            known,
            second_level(calls, resolved, known, roots, (n - 1) as nat),
            symbols_named(resolved, roots[n - 1]),
        );
    }
}

/// Neither a function nor its callees show on the second level of the function,
/// so that cycles and recursion end there.
pub proof fn law_cycles_do_not_show(
    calls: Map<Seq<char>, Seq<CallSite>>,
    resolved: Map<Seq<char>, Seq<(SymbolRow, FileRow)>>,
    name: Seq<char>,
    callees: Seq<Seq<char>>,
    k: int,
)
    requires
        0 <= k < second_level(
            calls,
            resolved,
            known_names(name, callees),
            callees,
            callees.len(),
        ).len(),
    ensures
        ({
            let reached = second_level(
                calls,
                resolved,
                known_names(name, callees),
                callees,
                callees.len(),
            )[k];
            reached != name && !callees.contains(reached)
        }),
{
    law_second_level_is_new(calls, resolved, known_names(name, callees), callees, callees.len());
}

/// The names of some groups, one group after another.
pub open spec fn flat(groups: Seq<(Seq<char>, Seq<Seq<char>>)>) -> Seq<Seq<char>>
    decreases groups.len(),
{
    if groups.len() == 0 {
        Seq::empty()
    } else {
        flat(groups.drop_last()) + groups.last().1
    }
}

/// The groups of the second level hold its names, each in one group.
pub proof fn law_groups_hold_second_level(
    calls: Map<Seq<char>, Seq<CallSite>>,
    resolved: Map<Seq<char>, Seq<(SymbolRow, FileRow)>>,
    known: Set<Seq<char>>,
    roots: Seq<Seq<char>>,
    n: nat,
)
    requires
        n <= roots.len(),
    ensures
        flat(second_level_groups(calls, resolved, known, roots, n)) == second_level(
            calls,
            resolved,
            known,
            roots,
            n,
        ),
    decreases n,
{
    if n > 0 {
        let m = (n - 1) as nat;
        law_groups_hold_second_level(calls, resolved, known, roots, m);
        let before = second_level(calls, resolved, known, roots, m);
        let after = second_level(calls, resolved, known, roots, n);
        lemma_reach_all(calls, known, before, symbols_named(resolved, roots[n - 1]));
        let targets = after.skip(before.len() as int);
        assert(before + targets == after);
        let groups = second_level_groups(calls, resolved, known, roots, m);
        assert(groups.push((roots[n - 1], targets)).drop_last() == groups);
    }
}

spec fn visits(visited: Set<Seq<char>>, known: Set<Seq<char>>, reached: Seq<Seq<char>>) -> bool {
    forall|name: Seq<char>| #[trigger]
        visited.contains(name) <==> (known.contains(name) || reached.contains(name))
}

fn follow_calls(
    visited: &mut StringHashSet,
    targets: &mut Vec<String>,
    calls: &Vec<CallSite>,
    symbol: &SymbolRow,
    Ghost(known): Ghost<Set<Seq<char>>>,
    Ghost(before): Ghost<Seq<Seq<char>>>,
)
    requires
        visits(old(visited)@, known, before + text::texts(old(targets)@)),
    ensures
        before + text::texts(final(targets)@) == reach(
            known,
            before + text::texts(old(targets)@),
            calls@,
            *symbol,
        ),
        visits(final(visited)@, known, before + text::texts(final(targets)@)),
{
    let n: usize = calls.len();
    let ghost start = before + text::texts(targets@);
    let mut i: usize = 0;
    assert(reach(known, start, calls@.take(0), *symbol) == start);
    while i < n
        invariant
            n == calls@.len(),
            i <= n,
            before + text::texts(targets@) == reach(known, start, calls@.take(i as int), *symbol),
            visits(visited@, known, before + text::texts(targets@)),
        decreases n - i,
    {
        assert(calls@.take(i + 1).drop_last() == calls@.take(i as int));
        let call = &calls[i];
        let ghost so_far = before + text::texts(targets@);
        if is_inside(call, symbol) && !visited.contains(call.name.as_str()) {
            visited.insert(call.name.clone());
            proof {
                text::lemma_texts_push(targets@, call.name);
            }
            targets.push(call.name.clone());
            proof {
                assert(before + text::texts(targets@) == so_far.push(call.name@));
                lemma_pushed_names(so_far, call.name@);
            }
        }
        i = i + 1;
    }
    assert(calls@.take(n as int) == calls@);
}

fn follow_root(
    visited: &mut StringHashSet,
    calls: &CallsCache,
    symbols: &Vec<(SymbolRow, FileRow)>,
    Ghost(known): Ghost<Set<Seq<char>>>,
    Ghost(before): Ghost<Seq<Seq<char>>>,
) -> (targets: Vec<String>)
    requires
        visits(old(visited)@, known, before),
    ensures
        before + text::texts(targets@) == reach_all(calls@, known, before, symbols@),
        visits(final(visited)@, known, before + text::texts(targets@)),
{
    let n: usize = symbols.len();
    let mut targets: Vec<String> = Vec::new();
    let mut i: usize = 0;
    assert(before + text::texts(targets@) == before);
    assert(reach_all(calls@, known, before, symbols@.take(0)) == before);
    while i < n
        invariant
            n == symbols@.len(),
            i <= n,
            before + text::texts(targets@) == reach_all(
                calls@,
                known,
                before,
                symbols@.take(i as int),
            ),
            visits(visited@, known, before + text::texts(targets@)),
        decreases n - i,
    {
        assert(symbols@.take(i + 1).drop_last() == symbols@.take(i as int));
        let symbol = &symbols[i].0;
        let kind = symbol.kind.as_str();
        if same(kind, "function") || same(kind, "method") {
            match calls.get(symbols[i].1.path.as_str()) {
                Some(list) => {
                    follow_calls(
                        visited,
                        &mut targets,
                        list,
                        symbol,
                        Ghost(known),
                        Ghost(before),
                    );
                },
                None => {},
            }
        }
        i = i + 1;
    }
    assert(symbols@.take(n as int) == symbols@);
    targets
}

fn render_depth2_line(root: &str, targets: &Vec<String>) -> (r: String)
    ensures
        r@ == depth2_line(root@, text::texts(targets@)),
{
    let mut line = "  ".to_owned();
    line.append(root);
    if targets.len() == 1 {
        line.append(" → ");
        line.append(targets[0].as_str());
        line.append("\n");
    } else {
        line.append(" → {");
        let list = join(targets, ", ");
        line.append(list.as_str());
        line.append("}\n");
    }
    line
}

/// Appends the section on what the callees `roots` of the function `name` call.
pub fn append_depth2(
    out: &mut String,
    calls: &CallsCache,
    resolved: &ResolveCache,
    name: &str,
    roots: &Vec<String>,
)
    ensures
        final(out)@ == old(out)@ + depth2_section(
            second_level_groups(
                calls@,
                resolved@,
                known_names(name@, text::texts(roots@)),
                text::texts(roots@),
                roots@.len(),
            ),
        ),
{
    let ghost names = text::texts(roots@);
    let ghost known = known_names(name@, names);
    let mut visited = StringHashSet::new();
    visited.insert(name.to_owned());
    let n: usize = roots.len();
    let mut i: usize = 0;
    while i < n
        invariant
            n == roots@.len(),
            names == text::texts(roots@),
            i <= n,
            forall|other: Seq<char>| #[trigger]
                visited@.contains(other) <==> (other == name@ || names.take(i as int).contains(
                    other,
                )),
        decreases n - i,
    {
        visited.insert(roots[i].clone());
        proof {
            assert(names.take(i + 1) == names.take(i as int).push(names[i as int]));
            lemma_pushed_names(names.take(i as int), names[i as int]);
        }
        i = i + 1;
    }
    assert(names.take(n as int) == names);
    let ghost mut reached = Seq::<Seq<char>>::empty();
    let ghost mut groups = Seq::<(Seq<char>, Seq<Seq<char>>)>::empty();
    let empty: Vec<(SymbolRow, FileRow)> = Vec::new();
    let mut lines = String::new();
    let mut any = false;
    let mut j: usize = 0;
    while j < n
        invariant
            n == roots@.len(),
            names == text::texts(roots@),
            empty@.len() == 0,
            j <= n,
            visits(visited@, known, reached),
            reached == second_level(calls@, resolved@, known, names, j as nat),
            groups == second_level_groups(calls@, resolved@, known, names, j as nat),
            lines@ == depth2_lines(groups),
            any == (groups.len() > 0),
        decreases n - j,
    {
        let root = roots[j].as_str();
        let symbols = match resolved.get(root) {
            Some(symbols) => symbols,
            None => &empty,
        };
        assert(symbols@ == symbols_named(resolved@, names[j as int]));
        let targets = follow_root(&mut visited, calls, symbols, Ghost(known), Ghost(reached));
        proof {
            let after = reached + text::texts(targets@);
            assert(after.skip(reached.len() as int) == text::texts(targets@));
            reached = after;
        }
        if targets.len() > 0 {
            let line = render_depth2_line(root, &targets);
            lines.append(line.as_str());
            any = true;
            proof {
                let longer = groups.push((root@, text::texts(targets@)));
                assert(longer.drop_last() == groups);
                groups = longer;
            }
        }
        j = j + 1;
    }
    if any {
        let mut section = "depth2:\n".to_owned();
        section.append(lines.as_str());
        out.append(section.as_str());
    } else {
        out.append("depth2: none\n");
    }
}

/// Whether one of some calls is a call of `name` on a line of a function.
pub open spec fn calls_from(calls: Seq<CallSite>, symbol: SymbolRow, name: Seq<char>) -> bool {
    exists|k: int|
        0 <= k < calls.len() && (#[trigger] calls[k]).name@ == name && symbol.line_start
            <= calls[k].line && calls[k].line <= symbol.line_end
}

proof fn lemma_calls_from(calls: Seq<CallSite>, symbol: SymbolRow, name: Seq<char>)
    requires
        calls.len() > 0,
    ensures
        calls_from(calls, symbol, name) <==> calls_from(calls.drop_last(), symbol, name) || (
        calls.last().name@ == name && symbol.line_start <= calls.last().line && calls.last().line
            <= symbol.line_end),
{
    let rest = calls.drop_last();
    assert(calls[calls.len() - 1] == calls.last());
    if calls_from(rest, symbol, name) {
        let k = choose|k: int|
            0 <= k < rest.len() && (#[trigger] rest[k]).name@ == name && symbol.line_start
                <= rest[k].line && rest[k].line <= symbol.line_end;
        assert(calls[k] == rest[k]);
    }
    if calls_from(calls, symbol, name) {
        let k = choose|k: int|
            0 <= k < calls.len() && (#[trigger] calls[k]).name@ == name && symbol.line_start
                <= calls[k].line && calls[k].line <= symbol.line_end;
        if k < rest.len() {
            assert(rest[k] == calls[k]);
        }
    }
}

/// A name is listed as a callee exactly when it is called on a line of the function.
/// More calls add names behind those that are listed already.
pub proof fn law_every_callee_is_listed(
    calls: Seq<CallSite>,
    symbol: SymbolRow,
    name: Seq<char>,
)
    ensures
        direct_callees(calls, symbol).contains(name) <==> calls_from(calls, symbol, name),
        calls.len() > 0 ==> direct_callees(calls.drop_last(), symbol).is_prefix_of(
            direct_callees(calls, symbol),
        ),
    decreases calls.len(),
{
    if calls.len() > 0 {
        let rest = calls.drop_last();
        law_every_callee_is_listed(rest, symbol, name);
        lemma_calls_from(calls, symbol, name);
        order::lemma_contains_push(direct_callees(rest, symbol), calls.last().name@, name);
    }
}

proof fn lemma_reach_holds(
    known: Set<Seq<char>>,
    reached: Seq<Seq<char>>,
    calls: Seq<CallSite>,
    symbol: SymbolRow,
    name: Seq<char>,
)
    ensures
        reach(known, reached, calls, symbol).contains(name) <==> reached.contains(name) || (
        !known.contains(name) && calls_from(calls, symbol, name)),
    decreases calls.len(),
{
    if calls.len() > 0 {
        let rest = calls.drop_last();
        lemma_reach_holds(known, reached, rest, symbol, name);
        lemma_calls_from(calls, symbol, name);
        order::lemma_contains_push(reach(known, reached, rest, symbol), calls.last().name@, name);
    }
}

/// Whether one of some symbols is a function or a method that calls `name`.
pub open spec fn reached_from(
    calls: Map<Seq<char>, Seq<CallSite>>,
    symbols: Seq<(SymbolRow, FileRow)>,
    name: Seq<char>,
) -> bool {
    exists|k: int|
        0 <= k < symbols.len() && ((#[trigger] symbols[k]).0.kind@ == "function"@
            || symbols[k].0.kind@ == "method"@) && calls.contains_key(symbols[k].1.path@)
            && calls_from(calls[symbols[k].1.path@], symbols[k].0, name)
}

proof fn lemma_reach_all_holds(
    calls: Map<Seq<char>, Seq<CallSite>>,
    known: Set<Seq<char>>,
    reached: Seq<Seq<char>>,
    symbols: Seq<(SymbolRow, FileRow)>,
    name: Seq<char>,
)
    ensures
        reach_all(calls, known, reached, symbols).contains(name) <==> reached.contains(name) || (
        !known.contains(name) && reached_from(calls, symbols, name)),
    decreases symbols.len(),
{
    if symbols.len() > 0 {
        let front = symbols.drop_last();
        let (symbol, file) = symbols.last();
        lemma_reach_all_holds(calls, known, reached, front, name);
        lemma_reach_holds(
            known,
            reach_all(calls, known, reached, front),
            calls_at(calls, file.path@),
            symbol,
            name,
        );
        assert(symbols[symbols.len() - 1] == symbols.last());
        if reached_from(calls, front, name) {
            let k = choose|k: int|
                0 <= k < front.len() && ((#[trigger] front[k]).0.kind@ == "function"@
                    || front[k].0.kind@ == "method"@) && calls.contains_key(front[k].1.path@)
                    && calls_from(calls[front[k].1.path@], front[k].0, name);
            assert(symbols[k] == front[k]);
        }
        if reached_from(calls, symbols, name) {
            let k = choose|k: int|
                0 <= k < symbols.len() && ((#[trigger] symbols[k]).0.kind@ == "function"@
                    || symbols[k].0.kind@ == "method"@) && calls.contains_key(symbols[k].1.path@)
                    && calls_from(calls[symbols[k].1.path@], symbols[k].0, name);
            if k < front.len() {
                assert(front[k] == symbols[k]);
            }
        }
    }
}

/// A name shows on the second level exactly when it is not known yet and a function
/// or method that one of the callees stands for calls it.
pub proof fn law_second_level_is_complete(
    calls: Map<Seq<char>, Seq<CallSite>>,
    resolved: Map<Seq<char>, Seq<(SymbolRow, FileRow)>>,
    known: Set<Seq<char>>,
    roots: Seq<Seq<char>>,
    n: nat,
    name: Seq<char>,
)
    requires
        n <= roots.len(),
    ensures
        second_level(calls, resolved, known, roots, n).contains(name) <==> !known.contains(name)
            && exists|r: int|
            0 <= r < n && resolved.contains_key(#[trigger] roots[r]) && reached_from(
                calls,
                resolved[roots[r]],
                name,
            ),
    decreases n,
{
    if n > 0 {
        let m = (n - 1) as nat;
        law_second_level_is_complete(calls, resolved, known, roots, m, name);
        lemma_reach_all_holds(
            calls,
            known,
            second_level(calls, resolved, known, roots, m),
            symbols_named(resolved, roots[m as int]),
            name,
        );
        if exists|r: int|
            0 <= r < n && resolved.contains_key(#[trigger] roots[r]) && reached_from(
                calls,
                resolved[roots[r]],
                name,
            ) {
            let r = choose|r: int|
                0 <= r < n && resolved.contains_key(#[trigger] roots[r]) && reached_from(
                    calls,
                    resolved[roots[r]],
                    name,
                );
            if r < m {
                assert(exists|r: int|
                    0 <= r < m && resolved.contains_key(#[trigger] roots[r]) && reached_from(
                        calls,
                        resolved[roots[r]],
                        name,
                    ));
            }
        }
    }
}

/// Each group of the second level is named after a callee, holds something, and holds
/// only what a function or method that the callee stands for calls.
pub proof fn law_groups_are_reached_from_their_callee(
    calls: Map<Seq<char>, Seq<CallSite>>,
    resolved: Map<Seq<char>, Seq<(SymbolRow, FileRow)>>,
    known: Set<Seq<char>>,
    roots: Seq<Seq<char>>,
    n: nat,
    g: int,
)
    requires
        n <= roots.len(),
        0 <= g < second_level_groups(calls, resolved, known, roots, n).len(),
    ensures
        ({
            let (root, targets) = second_level_groups(calls, resolved, known, roots, n)[g];
            &&& roots.contains(root)
            &&& resolved.contains_key(root)
            &&& targets.len() > 0
            &&& forall|k: int|
                0 <= k < targets.len() ==> reached_from(
                    calls,
                    resolved[root],
                    #[trigger] targets[k],
                )
        }),
    decreases n,
{
    let m = (n - 1) as nat;
    let rest = second_level_groups(calls, resolved, known, roots, m);
    let all = second_level_groups(calls, resolved, known, roots, n);
    if g < rest.len() {
        law_groups_are_reached_from_their_callee(calls, resolved, known, roots, m, g);
        assert(all[g] == rest[g]);
    } else {
        let root = roots[m as int];
        let before = second_level(calls, resolved, known, roots, m);
        let after = second_level(calls, resolved, known, roots, n);
        let symbols = symbols_named(resolved, root);
        lemma_reach_all(calls, known, before, symbols);
        law_second_level_is_new(calls, resolved, known, roots, n);
        let targets = after.skip(before.len() as int);
        assert(all[g] == (root, targets));
        assert(roots.contains(roots[m as int]));
        assert forall|k: int| 0 <= k < targets.len() implies reached_from(
            calls,
            symbols,
            #[trigger] targets[k],
        ) by {
            let name = targets[k];
            assert(after[before.len() + k] == name);
            assert(after.contains(name));
            lemma_reach_all_holds(calls, known, before, symbols, name);
            if before.contains(name) {
                let j = choose|j: int| 0 <= j < before.len() && before[j] == name;
                assert(before == after.subrange(0, before.len() as int));
                assert(after[j] == name);
            }
        }
        assert(reached_from(calls, symbols, targets[0]));
    }
}

/// The section on callees has a line for each of them: with the path of the first
/// symbol that the name stands for, or marked as external where it stands for none.
pub proof fn law_callees_are_shown(
    resolved: Map<Seq<char>, Seq<(SymbolRow, FileRow)>>,
    names: Seq<Seq<char>>,
    k: int,
)
    requires
        0 <= k < names.len(),
    ensures
        resolved.contains_key(names[k]) && resolved[names[k]].len() > 0 ==> text::contains_text(
            callees_section(resolved, names, false),
            "  "@ + names[k] + " @ "@ + resolved[names[k]][0].1.path@ + "\n"@,
        ),
        !resolved.contains_key(names[k]) || resolved[names[k]].len() == 0 ==> text::contains_text(
            callees_section(resolved, names, false),
            "  "@ + names[k] + " (extern)\n"@,
        ),
        callees_section(resolved, names, true) == "callees: "@ + text::decimal(names.len())
            + "\n"@,
{
    lemma_callee_shown(resolved, names, k);
    let head = "callees: "@ + text::decimal(names.len()) + "\n"@;
    text::lemma_grows(callee_lines(resolved, names), head, callee_line(resolved, names[k]));
    assert(head + Seq::<char>::empty() == head);
}

proof fn lemma_callee_shown(
    resolved: Map<Seq<char>, Seq<(SymbolRow, FileRow)>>,
    names: Seq<Seq<char>>,
    k: int,
)
    requires
        0 <= k < names.len(),
    ensures
        text::contains_text(callee_lines(resolved, names), callee_line(resolved, names[k])),
    decreases names.len(),
{
    let rest = names.drop_last();
    let own = callee_line(resolved, names.last());
    if k < rest.len() {
        lemma_callee_shown(resolved, rest, k);
        text::lemma_grows(callee_lines(resolved, rest), own, callee_line(resolved, names[k]));
    } else {
        text::lemma_holds(callee_lines(resolved, rest), own, Seq::empty());
        assert(callee_lines(resolved, rest) + own + Seq::<char>::empty() == callee_lines(
            resolved,
            rest,
        ) + own);
    }
}

/// Every group of the second level is shown: the callee, an arrow, and what it
/// reaches, in braces where that is more than one name.
pub proof fn law_second_level_is_shown(groups: Seq<(Seq<char>, Seq<Seq<char>>)>, k: int)
    requires
        0 <= k < groups.len(),
    ensures
        groups[k].1.len() == 1 ==> text::contains_text(
            depth2_section(groups),
            "  "@ + groups[k].0 + " → "@ + groups[k].1[0] + "\n"@,
        ),
        groups[k].1.len() > 1 ==> text::contains_text(
            depth2_section(groups),
            "  "@ + groups[k].0 + " → {"@ + text::joined(groups[k].1, ", "@) + "}\n"@,
        ),
{
    lemma_group_shown(groups, k);
    text::lemma_grows(
        depth2_lines(groups),
        "depth2:\n"@,
        depth2_line(groups[k].0, groups[k].1),
    );
}

proof fn lemma_group_shown(groups: Seq<(Seq<char>, Seq<Seq<char>>)>, k: int)
    requires
        0 <= k < groups.len(),
    ensures
        text::contains_text(depth2_lines(groups), depth2_line(groups[k].0, groups[k].1)),
    decreases groups.len(),
{
    let rest = groups.drop_last();
    let own = depth2_line(groups.last().0, groups.last().1);
    if k < rest.len() {
        lemma_group_shown(rest, k);
        assert(rest[k] == groups[k]);
        text::lemma_grows(depth2_lines(rest), own, depth2_line(groups[k].0, groups[k].1));
    } else {
        text::lemma_holds(depth2_lines(rest), own, Seq::empty());
        assert(depth2_lines(rest) + own + Seq::<char>::empty() == depth2_lines(rest) + own);
    }
}

}
