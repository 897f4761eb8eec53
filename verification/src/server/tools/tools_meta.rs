//! Which tools are offered, and how tiers of them are enabled and disabled.
use vstd::hash_set::StringHashSet;
use vstd::prelude::*;
use vstd::string::*;

use crate::order;
use crate::text;
use crate::text::{cut_before, push_count, same};

verus! {

/// A named group of tools.
#[derive(Debug)]
pub struct Tier {
    pub name: String,
    pub tools: Vec<String>,
}

/// A tool that the server can offer.
#[derive(Debug)]
pub struct RegisteredTool {
    pub name: String,
    pub description: Option<String>,
}

/// All that the server can offer.
#[derive(Debug)]
pub struct Catalog {
    pub tiers: Vec<Tier>,
    pub tools: Vec<RegisteredTool>,
    /// The name of the tool that enables tools.
    pub meta_tool: String,
}

/// The tools of the first tier with a name.
pub open spec fn tier_tools(tiers: Seq<Tier>, name: Seq<char>) -> Option<Seq<Seq<char>>>
    decreases tiers.len(),
{
    if tiers.len() == 0 {
        None
    } else if tiers[0].name@ == name {
        Some(text::texts(tiers[0].tools@))
    } else {
        tier_tools(tiers.drop_first(), name)
    }
}

/// The first registered tool with a name.
pub open spec fn tool_named(tools: Seq<RegisteredTool>, name: Seq<char>) -> Option<RegisteredTool>
    decreases tools.len(),
{
    if tools.len() == 0 {
        None
    } else if tools[0].name@ == name {
        Some(tools[0])
    } else {
        tool_named(tools.drop_first(), name)
    }
}

/// The names of the registered tools.
pub open spec fn tool_names(tools: Seq<RegisteredTool>) -> Seq<Seq<char>> {
    Seq::new(tools.len(), |i: int| tools[i].name@)
}

/// `set` with all of `names`.
pub open spec fn with_all(set: Set<Seq<char>>, names: Seq<Seq<char>>) -> Set<Seq<char>>
    decreases names.len(),
{
    if names.len() == 0 {
        set
    } else {
        with_all(set, names.drop_last()).insert(names.last())
    }
}

/// `set` with none of `names`.
pub open spec fn without_all(set: Set<Seq<char>>, names: Seq<Seq<char>>) -> Set<Seq<char>>
    decreases names.len(),
{
    if names.len() == 0 {
        set
    } else {
        without_all(set, names.drop_last()).remove(names.last())
    }
}

/// Those of `names` that are not among `stay`, in order.
pub open spec fn others(names: Seq<Seq<char>>, stay: Seq<Seq<char>>) -> Seq<Seq<char>>
    decreases names.len(),
{
    if names.len() == 0 {
        Seq::empty()
    } else {
        let rest = others(names.drop_last(), stay);
        if stay.contains(names.last()) {
            rest
        } else {
            rest.push(names.last())
        }
    }
}

impl Catalog {
    /// The tools of the tier `core`, which stay enabled; none where there is no
    /// such tier.
    pub open spec fn core_tools(self) -> Seq<Seq<char>> {
        match tier_tools(self.tiers@, "core"@) {
            Some(names) => names,
            None => Seq::empty(),
        }
    }

    /// The tools that a request for `target` names: all, those of a tier, or one.
    pub open spec fn named_by(self, target: Seq<char>) -> Seq<Seq<char>> {
        if target == "all"@ {
            tool_names(self.tools@)
        } else {
            match tier_tools(self.tiers@, target) {
                Some(names) => names,
                None => if tool_named(self.tools@, target) is Some {
                    seq![target]
                } else {
                    Seq::empty()
                },
            }
        }
    }

    /// The tools that a request to disable `target` takes away: those of a tier,
    /// or one, but none of the tier `core`.
    pub open spec fn taken_by(self, target: Seq<char>) -> Seq<Seq<char>> {
        if target == "core"@ || target == self.meta_tool@ {
            Seq::empty()
        } else {
            others(
                match tier_tools(self.tiers@, target) {
                    Some(names) => names,
                    None => seq![target],
                },
                self.core_tools(),
            )
        }
    }

    /// The enabled tools after `targets` were enabled in turn.
    pub open spec fn enabled_by(self, set: Set<Seq<char>>, targets: Seq<Seq<char>>) -> Set<
        Seq<char>,
    >
        decreases targets.len(),
    {
        if targets.len() == 0 {
            set
        } else {
            with_all(
                self.enabled_by(set, targets.drop_last()),
                self.named_by(targets.last()),
            )
        }
    }

    /// The enabled tools after `targets` were disabled in turn.
    pub open spec fn disabled_by(self, set: Set<Seq<char>>, targets: Seq<Seq<char>>) -> Set<
        Seq<char>,
    >
        decreases targets.len(),
    {
        if targets.len() == 0 {
            set
        } else {
            without_all(
                self.disabled_by(set, targets.drop_last()),
                self.taken_by(targets.last()),
            )
        }
    }

    /// Whether enabling `targets` in turn changes anything.
    pub open spec fn enabling_changes(self, set: Set<Seq<char>>, targets: Seq<Seq<char>>) -> bool {
        self.enabled_by(set, targets) != set
    }

    /// Whether disabling `targets` in turn changes anything.
    pub open spec fn disabling_changes(self, set: Set<Seq<char>>, targets: Seq<Seq<char>>) -> bool {
        self.disabled_by(set, targets) != set
    }
}

proof fn lemma_with_all(set: Set<Seq<char>>, names: Seq<Seq<char>>)
    ensures
        set.subset_of(with_all(set, names)),
        forall|k: int| 0 <= k < names.len() ==> with_all(set, names).contains(#[trigger] names[k]),
    decreases names.len(),
{
    if names.len() > 0 {
        let rest = names.drop_last();
        lemma_with_all(set, rest);
        assert forall|k: int| 0 <= k < names.len() implies with_all(set, names).contains(
            #[trigger] names[k],
        ) by {
            if k < rest.len() {
                assert(rest[k] == names[k]);
            }
        }
    }
}

proof fn lemma_without_all(set: Set<Seq<char>>, names: Seq<Seq<char>>)
    ensures
        without_all(set, names).subset_of(set),
    decreases names.len(),
{
    if names.len() > 0 {
        lemma_without_all(set, names.drop_last());
    }
}

proof fn lemma_with_all_present(set: Set<Seq<char>>, names: Seq<Seq<char>>)
    requires
        forall|k: int| 0 <= k < names.len() ==> set.contains(#[trigger] names[k]),
    ensures
        with_all(set, names) == set,
    decreases names.len(),
{
    if names.len() > 0 {
        let rest = names.drop_last();
        assert forall|k: int| 0 <= k < rest.len() implies set.contains(#[trigger] rest[k]) by {
            assert(rest[k] == names[k]);
        }
        lemma_with_all_present(set, rest);
        assert(names[names.len() - 1] == names.last());
        assert(set.insert(names.last()) == set);
    }
}

proof fn lemma_enabled_by(catalog: Catalog, set: Set<Seq<char>>, targets: Seq<Seq<char>>)
    ensures
        set.subset_of(catalog.enabled_by(set, targets)),
        forall|j: int, k: int|
            0 <= j < targets.len() && 0 <= k < catalog.named_by(targets[j]).len()
                ==> catalog.enabled_by(set, targets).contains(
                #[trigger] catalog.named_by(targets[j])[k],
            ),
    decreases targets.len(),
{
    if targets.len() > 0 {
        let rest = targets.drop_last();
        lemma_enabled_by(catalog, set, rest);
        let before = catalog.enabled_by(set, rest);
        lemma_with_all(before, catalog.named_by(targets.last()));
        assert forall|j: int, k: int|
            0 <= j < targets.len() && 0 <= k < catalog.named_by(
                targets[j],
            ).len() implies catalog.enabled_by(set, targets).contains(
            #[trigger] catalog.named_by(targets[j])[k],
        ) by {
            if j < rest.len() {
                assert(rest[j] == targets[j]);
                assert(before.contains(catalog.named_by(rest[j])[k]));
            }
        }
    }
}

/// Enabling never takes a tool away.
pub proof fn law_enabling_keeps(catalog: Catalog, set: Set<Seq<char>>, targets: Seq<Seq<char>>)
    ensures
        set.subset_of(catalog.enabled_by(set, targets)),
{
    lemma_enabled_by(catalog, set, targets);
}

/// Disabling never adds a tool.
pub proof fn law_disabling_adds_nothing(
    catalog: Catalog,
    set: Set<Seq<char>>,
    targets: Seq<Seq<char>>,
)
    ensures
        catalog.disabled_by(set, targets).subset_of(set),
    decreases targets.len(),
{
    if targets.len() > 0 {
        law_disabling_adds_nothing(catalog, set, targets.drop_last());
        lemma_without_all(
            catalog.disabled_by(set, targets.drop_last()),
            catalog.taken_by(targets.last()),
        );
    }
}

/// Whoever enables `all` has every registered tool enabled.
pub proof fn law_all_enables_every_tool(
    catalog: Catalog,
    set: Set<Seq<char>>,
    targets: Seq<Seq<char>>,
    i: int,
)
    requires
        targets.contains("all"@),
        0 <= i < catalog.tools@.len(),
    ensures
        catalog.enabled_by(set, targets).contains(catalog.tools@[i].name@),
{
    lemma_enabled_by(catalog, set, targets);
    let j = choose|j: int| 0 <= j < targets.len() && targets[j] == "all"@;
    assert(catalog.named_by(targets[j])[i] == catalog.tools@[i].name@);
}

/// To enable the same targets a second time changes nothing.
pub proof fn law_enabling_twice_is_enabling_once(
    catalog: Catalog,
    set: Set<Seq<char>>,
    targets: Seq<Seq<char>>,
)
    ensures
        !catalog.enabling_changes(catalog.enabled_by(set, targets), targets),
{
    let full = catalog.enabled_by(set, targets);
    lemma_enabled_by(catalog, set, targets);
    lemma_enabling_again(catalog, full, targets);
}

proof fn lemma_enabling_again(catalog: Catalog, full: Set<Seq<char>>, targets: Seq<Seq<char>>)
    requires
        forall|j: int, k: int|
            0 <= j < targets.len() && 0 <= k < catalog.named_by(targets[j]).len()
                ==> full.contains(#[trigger] catalog.named_by(targets[j])[k]),
    ensures
        catalog.enabled_by(full, targets) == full,
    decreases targets.len(),
{
    if targets.len() > 0 {
        let rest = targets.drop_last();
        assert forall|j: int, k: int|
            0 <= j < rest.len() && 0 <= k < catalog.named_by(rest[j]).len() implies full.contains(
            #[trigger] catalog.named_by(rest[j])[k],
        ) by {
            assert(rest[j] == targets[j]);
            assert(full.contains(catalog.named_by(targets[j])[k]));
        }
        lemma_enabling_again(catalog, full, rest);
        let names = catalog.named_by(targets.last());
        assert forall|k: int| 0 <= k < names.len() implies full.contains(#[trigger] names[k]) by {
            assert(full.contains(catalog.named_by(targets[targets.len() - 1])[k]));
        }
        lemma_with_all_present(full, names);
    }
}

/// Requests to disable `core`, or the tool that enables tools, are refused.
pub proof fn law_refused_requests_change_nothing(
    catalog: Catalog,
    set: Set<Seq<char>>,
    targets: Seq<Seq<char>>,
)
    requires
        forall|k: int|
            0 <= k < targets.len() ==> #[trigger] targets[k] == "core"@ || targets[k]
                == catalog.meta_tool@,
    ensures
        catalog.disabled_by(set, targets) == set,
    decreases targets.len(),
{
    if targets.len() > 0 {
        let rest = targets.drop_last();
        assert forall|k: int| 0 <= k < rest.len() implies #[trigger] rest[k] == "core"@ || rest[k]
            == catalog.meta_tool@ by {
            assert(rest[k] == targets[k]);
        }
        law_refused_requests_change_nothing(catalog, set, rest);
        assert(targets[targets.len() - 1] == targets.last());
    }
}

proof fn lemma_others_stay(
    set: Set<Seq<char>>,
    names: Seq<Seq<char>>,
    stay: Seq<Seq<char>>,
    name: Seq<char>,
)
    requires
        stay.contains(name),
        set.contains(name),
    ensures
        without_all(set, others(names, stay)).contains(name),
    decreases names.len(),
{
    if names.len() > 0 {
        let rest = others(names.drop_last(), stay);
        lemma_others_stay(set, names.drop_last(), stay, name);
        if !stay.contains(names.last()) {
            assert(rest.push(names.last()).drop_last() == rest);
        }
    }
}

/// The tier `core` is always on: whatever is to be disabled, an enabled tool of
/// the tier stays enabled.
pub proof fn law_core_stays(
    catalog: Catalog,
    set: Set<Seq<char>>,
    targets: Seq<Seq<char>>,
    name: Seq<char>,
)
    requires
        catalog.core_tools().contains(name),
        set.contains(name),
    ensures
        catalog.disabled_by(set, targets).contains(name),
    decreases targets.len(),
{
    if targets.len() > 0 {
        let rest = targets.drop_last();
        law_core_stays(catalog, set, rest, name);
        let names = match tier_tools(catalog.tiers@, targets.last()) {
            Some(names) => names,
            None => seq![targets.last()],
        };
        lemma_others_stay(
            catalog.disabled_by(set, rest),
            names,
            catalog.core_tools(),
            name,
        );
    }
}

/// The tools that are enabled.
pub struct EnabledTools {
    names: StringHashSet,
}

impl View for EnabledTools {
    type V = Set<Seq<char>>;

    closed spec fn view(&self) -> Set<Seq<char>> {
        self.names@
    }
}

impl EnabledTools {
    /// No tool is enabled.
    pub fn new() -> (r: Self)
        ensures
            r@ == Set::<Seq<char>>::empty(),
    {
        EnabledTools { names: StringHashSet::new() }
    }

    /// Tells whether a tool is enabled.
    pub fn contains(&self, name: &str) -> (r: bool)
        ensures
            r == self@.contains(name@),
    {
        self.names.contains(name)
    }

    /// Counts the enabled tools.
    pub fn len(&self) -> (r: usize)
        ensures
            r == self@.len(),
    {
        self.names.len()
    }

    /// Enables a tool, and tells whether it was not enabled before.
    pub fn insert(&mut self, name: &str) -> (r: bool)
        ensures
            final(self)@ == old(self)@.insert(name@),
            r == !old(self)@.contains(name@),
    {
        self.names.insert(name.to_owned())
    }

    /// Disables a tool, and tells whether it was enabled before.
    pub fn remove(&mut self, name: &str) -> (r: bool)
        ensures
            final(self)@ == old(self)@.remove(name@),
            r == old(self)@.contains(name@),
    {
        self.names.remove(name)
    }
}

fn find_tier<'a>(tiers: &'a Vec<Tier>, name: &str) -> (r: Option<&'a Vec<String>>)
    ensures
        match r {
            Some(tools) => tier_tools(tiers@, name@) == Some(text::texts(tools@)),
            None => tier_tools(tiers@, name@) is None,
        },
{
    let n: usize = tiers.len();
    let mut i: usize = 0;
    assert(tiers@.skip(0) == tiers@);
    while i < n
        invariant
            n == tiers@.len(),
            i <= n,
            tier_tools(tiers@, name@) == tier_tools(tiers@.skip(i as int), name@),
        decreases n - i,
    {
        assert(tiers@.skip(i as int)[0] == tiers@[i as int]);
        assert(tiers@.skip(i as int).drop_first() == tiers@.skip(i + 1));
        if same(tiers[i].name.as_str(), name) {
            return Some(&tiers[i].tools);
        }
        i = i + 1;
    }
    None
}

fn find_tool<'a>(tools: &'a Vec<RegisteredTool>, name: &str) -> (r: Option<&'a RegisteredTool>)
    ensures
        match r {
            Some(tool) => tool_named(tools@, name@) == Some(*tool),
            None => tool_named(tools@, name@) is None,
        },
{
    let n: usize = tools.len();
    let mut i: usize = 0;
    assert(tools@.skip(0) == tools@);
    while i < n
        invariant
            n == tools@.len(),
            i <= n,
            tool_named(tools@, name@) == tool_named(tools@.skip(i as int), name@),
        decreases n - i,
    {
        assert(tools@.skip(i as int)[0] == tools@[i as int]);
        assert(tools@.skip(i as int).drop_first() == tools@.skip(i + 1));
        if same(tools[i].name.as_str(), name) {
            return Some(&tools[i]);
        }
        i = i + 1;
    }
    None
}

fn insert_all(set: &mut EnabledTools, names: &Vec<String>) -> (changed: bool)
    ensures
        final(set)@ == with_all(old(set)@, text::texts(names@)),
        changed == (final(set)@ != old(set)@),
{
    let n: usize = names.len();
    let mut changed = false;
    let ghost start = set@;
    let ghost all = text::texts(names@);
    let mut i: usize = 0;
    while i < n
        invariant
            n == names@.len(),
            all == text::texts(names@),
            i <= n,
            start.subset_of(set@),
            set@ == with_all(start, all.take(i as int)),
            changed == (set@ != start),
        decreases n - i,
    {
        let ghost before = set@;
        proof {
            assert(all.take(i + 1).drop_last() == all.take(i as int));
            assert(all.take(i + 1).last() == names@[i as int]@);
        }
        if set.insert(names[i].as_str()) {
            changed = true;
            assert(set@.contains(names@[i as int]@) && !start.contains(names@[i as int]@));
        } else {
            assert(set@ == before);
        }
        i = i + 1;
    }
    assert(all.take(n as int) == all);
    changed
}

fn insert_registered(set: &mut EnabledTools, tools: &Vec<RegisteredTool>) -> (changed: bool)
    ensures
        final(set)@ == with_all(old(set)@, tool_names(tools@)),
        changed == (final(set)@ != old(set)@),
{
    let n: usize = tools.len();
    let mut changed = false;
    let ghost start = set@;
    let ghost all = tool_names(tools@);
    let mut i: usize = 0;
    while i < n
        invariant
            n == tools@.len(),
            all == tool_names(tools@),
            i <= n,
            start.subset_of(set@),
            set@ == with_all(start, all.take(i as int)),
            changed == (set@ != start),
        decreases n - i,
    {
        let ghost before = set@;
        proof {
            assert(all.take(i + 1).drop_last() == all.take(i as int));
            assert(all.take(i + 1).last() == tools@[i as int].name@);
        }
        if set.insert(tools[i].name.as_str()) {
            changed = true;
            assert(set@.contains(tools@[i as int].name@));
            assert(!start.contains(tools@[i as int].name@));
        } else {
            assert(set@ == before);
        }
        i = i + 1;
    }
    assert(all.take(n as int) == all);
    changed
}

fn is_among(names: &Vec<String>, name: &str) -> (r: bool)
    ensures
        r == text::texts(names@).contains(name@),
{
    let ghost all = text::texts(names@);
    let n: usize = names.len();
    let mut i: usize = 0;
    while i < n
        invariant
            n == names@.len(),
            all == text::texts(names@),
            i <= n,
            forall|k: int| 0 <= k < i ==> #[trigger] all[k] != name@,
        decreases n - i,
    {
        if same(names[i].as_str(), name) {
            assert(all[i as int] == name@);
            return true;
        }
        i = i + 1;
    }
    false
}

fn is_core_tool(catalog: &Catalog, name: &str) -> (r: bool)
    ensures
        r == catalog.core_tools().contains(name@),
{
    match find_tier(&catalog.tiers, "core") {
        Some(names) => is_among(names, name),
        None => false,
    }
}

fn remove_all(catalog: &Catalog, set: &mut EnabledTools, names: &Vec<String>) -> (changed: bool)
    ensures
        final(set)@ == without_all(
            old(set)@,
            others(text::texts(names@), catalog.core_tools()),
        ),
        changed == (final(set)@ != old(set)@),
{
    let n: usize = names.len();
    let mut changed = false;
    let ghost start = set@;
    let ghost all = text::texts(names@);
    let ghost core = catalog.core_tools();
    let mut i: usize = 0;
    while i < n
        invariant
            n == names@.len(),
            all == text::texts(names@),
            core == catalog.core_tools(),
            i <= n,
            set@.subset_of(start),
            set@ == without_all(start, others(all.take(i as int), core)),
            changed == (set@ != start),
        decreases n - i,
    {
        let ghost before = set@;
        let name = names[i].as_str();
        proof {
            let taken = others(all.take(i as int), core);
            assert(all.take(i + 1).drop_last() == all.take(i as int));
            assert(all.take(i + 1).last() == name@);
            assert(taken.push(name@).drop_last() == taken);
        }
        if !is_core_tool(catalog, name) {
            if set.remove(name) {
                changed = true;
                assert(!set@.contains(name@) && start.contains(name@));
            } else {
                assert(set@ == before);
            }
        }
        i = i + 1;
    }
    assert(all.take(n as int) == all);
    changed
}

fn enable(catalog: &Catalog, set: &mut EnabledTools, target: &str) -> (changed: bool)
    ensures
        final(set)@ == with_all(old(set)@, catalog.named_by(target@)),
        changed == (final(set)@ != old(set)@),
{
    if same(target, "all") {
        return insert_registered(set, &catalog.tools);
    }
    match find_tier(&catalog.tiers, target) {
        Some(names) => insert_all(set, names),
        None => {
            let ghost start = set@;
            match find_tool(&catalog.tools, target) {
                Some(_) => {
                    let changed = set.insert(target);
                    proof {
                        assert(seq![target@].drop_last() == Seq::<Seq<char>>::empty());
                        reveal_with_fuel(with_all, 2);
                        if !changed {
                            assert(set@ == start);
                        } else {
                            assert(set@.contains(target@));
                        }
                    }
                    changed
                },
                None => false,
            }
        },
    }
}

fn disable(catalog: &Catalog, set: &mut EnabledTools, target: &str) -> (changed: bool)
    ensures
        final(set)@ == without_all(old(set)@, catalog.taken_by(target@)),
        changed == (final(set)@ != old(set)@),
{
    if same(target, "core") || same(target, catalog.meta_tool.as_str()) {
        return false;
    }
    match find_tier(&catalog.tiers, target) {
        Some(names) => remove_all(catalog, set, names),
        None => {
            let ghost start = set@;
            proof {
                assert(seq![target@].drop_last() == Seq::<Seq<char>>::empty());
                reveal_with_fuel(others, 2);
                reveal_with_fuel(without_all, 2);
            }
            if is_core_tool(catalog, target) {
                return false;
            }
            let changed = set.remove(target);
            proof {
                let taken = catalog.taken_by(target@);
                assert(taken == seq![target@]);
                if !changed {
                    assert(set@ == start);
                } else {
                    assert(!set@.contains(target@));
                }
            }
            changed
        },
    }
}

/// The texts of a request, none where it is left out.
pub open spec fn request(targets: Option<&Vec<String>>) -> Seq<Seq<char>> {
    match targets {
        Some(targets) => text::texts(targets@),
        None => Seq::empty(),
    }
}

fn enable_each(catalog: &Catalog, set: &mut EnabledTools, targets: &Vec<String>) -> (changed: bool)
    ensures
        final(set)@ == catalog.enabled_by(old(set)@, text::texts(targets@)),
        changed == catalog.enabling_changes(old(set)@, text::texts(targets@)),
{
    let n: usize = targets.len();
    let mut changed = false;
    let ghost start = set@;
    let ghost all = text::texts(targets@);
    let mut i: usize = 0;
    while i < n
        invariant
            n == targets@.len(),
            all == text::texts(targets@),
            i <= n,
            set@ == catalog.enabled_by(start, all.take(i as int)),
            changed == (set@ != start),
        decreases n - i,
    {
        let ghost before = set@;
        proof {
            assert(all.take(i + 1).drop_last() == all.take(i as int));
            assert(all.take(i + 1).last() == targets@[i as int]@);
            law_enabling_keeps(*catalog, start, all.take(i as int));
            lemma_with_all(before, catalog.named_by(targets@[i as int]@));
        }
        if enable(catalog, set, targets[i].as_str()) {
            changed = true;
        }
        proof {
            if set@ == start {
                assert(before.subset_of(set@) && start.subset_of(before));
                assert(before == start);
            }
        }
        i = i + 1;
    }
    assert(all.take(n as int) == all);
    changed
}

fn disable_each(catalog: &Catalog, set: &mut EnabledTools, targets: &Vec<String>) -> (changed: bool)
    ensures
        final(set)@ == catalog.disabled_by(old(set)@, text::texts(targets@)),
        changed == catalog.disabling_changes(old(set)@, text::texts(targets@)),
{
    let n: usize = targets.len();
    let mut changed = false;
    let ghost start = set@;
    let ghost all = text::texts(targets@);
    let mut i: usize = 0;
    while i < n
        invariant
            n == targets@.len(),
            all == text::texts(targets@),
            i <= n,
            set@ == catalog.disabled_by(start, all.take(i as int)),
            changed == (set@ != start),
        decreases n - i,
    {
        let ghost before = set@;
        proof {
            assert(all.take(i + 1).drop_last() == all.take(i as int));
            assert(all.take(i + 1).last() == targets@[i as int]@);
            law_disabling_adds_nothing(*catalog, start, all.take(i as int));
            lemma_without_all(before, catalog.taken_by(targets@[i as int]@));
        }
        if disable(catalog, set, targets[i].as_str()) {
            changed = true;
        }
        proof {
            if set@ == start {
                assert(set@.subset_of(before) && before.subset_of(start));
                assert(before == start);
            }
        }
        i = i + 1;
    }
    assert(all.take(n as int) == all);
    changed
}

/// Enables, then disables, and tells whether either changed anything.
pub fn update_tools(
    catalog: &Catalog,
    set: &mut EnabledTools,
    enable: Option<&Vec<String>>,
    disable: Option<&Vec<String>>,
) -> (changed: bool)
    ensures
        final(set)@ == catalog.disabled_by(
            catalog.enabled_by(old(set)@, request(enable)),
            request(disable),
        ),
        changed == (catalog.enabling_changes(old(set)@, request(enable))
            || catalog.disabling_changes(
            catalog.enabled_by(old(set)@, request(enable)),
            request(disable),
        )),
{
    let mut changed = false;
    match enable {
        Some(targets) => {
            if enable_each(catalog, set, targets) {
                changed = true;
            }
        },
        None => {},
    }
    match disable {
        Some(targets) => {
            if disable_each(catalog, set, targets) {
                changed = true;
            }
        },
        None => {},
    }
    changed
}

/// An update that reports no change leaves the enabled tools as they were.
pub proof fn law_no_change_keeps_tools(
    catalog: Catalog,
    set: Set<Seq<char>>,
    enable: Seq<Seq<char>>,
    disable: Seq<Seq<char>>,
)
    requires
        !catalog.enabling_changes(set, enable),
        !catalog.disabling_changes(catalog.enabled_by(set, enable), disable),
    ensures
        catalog.disabled_by(catalog.enabled_by(set, enable), disable) == set,
{
}

/// The answer to an update after which `count` tools are enabled.
pub open spec fn update_summary(changed: bool, count: nat) -> Seq<char> {
    if changed {
        "Tool list updated. "@ + text::decimal(count) + " tools now enabled."@
    } else {
        "No changes. "@ + text::decimal(count) + " tools currently enabled."@
    }
}

/// Answers an update after which the tools of `set` are enabled.
pub fn summarize_update(changed: bool, set: &EnabledTools) -> (r: String)
    ensures
        r@ == update_summary(changed, set@.len()),
{
    if changed {
        let mut out = "Tool list updated. ".to_owned();
        push_count(&mut out, set.len());
        out.append(" tools now enabled.");
        out
    } else {
        let mut out = "No changes. ".to_owned();
        push_count(&mut out, set.len());
        out.append(" tools currently enabled.");
        out
    }
}

/// The first sentence of the description of a tool.
pub open spec fn short_description(tools: Seq<RegisteredTool>, name: Seq<char>) -> Seq<char> {
    match tool_named(tools, name) {
        Some(tool) => match tool.description {
            Some(description) => text::before(description@, '.'),
            None => ""@,
        },
        None => ""@,
    }
}

/// The lines on the tools of a tier.
pub open spec fn tool_lines(
    catalog: Catalog,
    enabled: Set<Seq<char>>,
    names: Seq<Seq<char>>,
) -> Seq<char>
    decreases names.len(),
{
    if names.len() == 0 {
        Seq::empty()
    } else {
        tool_lines(catalog, enabled, names.drop_last()) + ("- ["@ + (if enabled.contains(
            names.last(),
        ) {
            "x"@
        } else {
            " "@
        }) + "] `"@ + names.last() + "` -- "@ + short_description(catalog.tools@, names.last())
            + "\n"@)
    }
}

/// Whether all of `names` are enabled.
pub open spec fn all_enabled(enabled: Set<Seq<char>>, names: Seq<Seq<char>>) -> bool {
    forall|k: int| 0 <= k < names.len() ==> enabled.contains(#[trigger] names[k])
}

/// The section on a tier.
pub open spec fn tier_section(catalog: Catalog, enabled: Set<Seq<char>>, tier: Tier) -> Seq<char> {
    let names = text::texts(tier.tools@);
    "## "@ + tier.name@ + " ("@ + (if all_enabled(enabled, names) {
        "enabled"@
    } else {
        "disabled"@
    }) + ")\n"@ + tool_lines(catalog, enabled, names) + "\n"@
}

/// The sections on the first `n` tiers.
pub open spec fn tier_sections(catalog: Catalog, enabled: Set<Seq<char>>, n: nat) -> Seq<char>
    decreases n,
{
    if n == 0 {
        Seq::empty()
    } else {
        tier_sections(catalog, enabled, (n - 1) as nat) + tier_section(
            catalog,
            enabled,
            catalog.tiers@[n - 1],
        )
    }
}

/// The answer that lists all tiers and their tools.
pub open spec fn listing(catalog: Catalog, enabled: Set<Seq<char>>) -> Seq<char> {
    "# Qartez Tool Tiers\n\n"@ + tier_sections(catalog, enabled, catalog.tiers@.len())
        + "Use `enable: [\"analysis\"]` or `enable: [\"all\"]` to unlock tiers.\nUse `disable: [\"refactor\"]` to hide tiers.\n"@
}

fn describe_tool<'a>(catalog: &'a Catalog, name: &str) -> (r: &'a str)
    ensures
        r@ == short_description(catalog.tools@, name@),
{
    match find_tool(&catalog.tools, name) {
        Some(tool) => match &tool.description {
            Some(description) => cut_before(description.as_str(), '.'),
            None => "",
        },
        None => "",
    }
}

fn render_tier(catalog: &Catalog, set: &EnabledTools, tier: &Tier) -> (r: String)
    ensures
        r@ == tier_section(*catalog, set@, *tier),
{
    let ghost names = text::texts(tier.tools@);
    let n: usize = tier.tools.len();
    let mut all = true;
    let mut i: usize = 0;
    while i < n
        invariant
            n == tier.tools@.len(),
            names == text::texts(tier.tools@),
            i <= n,
            all == all_enabled(set@, names.take(i as int)),
        decreases n - i,
    {
        let ghost rest = names.take(i as int);
        let ghost done = names.take(i + 1);
        let present = set.contains(tier.tools[i].as_str());
        proof {
            assert(done[i as int] == tier.tools@[i as int]@);
            assert(forall|k: int| 0 <= k < i ==> #[trigger] done[k] == rest[k]);
            if all && present {
                assert(all_enabled(set@, done));
            }
            if !all {
                let k = choose|k: int| 0 <= k < rest.len() && !set@.contains(#[trigger] rest[k]);
                assert(!set@.contains(done[k]));
            }
        }
        if !present {
            all = false;
        }
        i = i + 1;
    }
    assert(names.take(n as int) == names);
    let mut out = "## ".to_owned();
    out.append(tier.name.as_str());
    out.append(" (");
    if all {
        out.append("enabled");
    } else {
        out.append("disabled");
    }
    out.append(")\n");
    let ghost start = out@;
    let mut j: usize = 0;
    assert(start + Seq::<char>::empty() == start);
    while j < n
        invariant
            n == tier.tools@.len(),
            names == text::texts(tier.tools@),
            j <= n,
            out@ == start + tool_lines(*catalog, set@, names.take(j as int)),
        decreases n - j,
    {
        let name = tier.tools[j].as_str();
        let mut line = "- [".to_owned();
        if set.contains(name) {
            line.append("x");
        } else {
            line.append(" ");
        }
        line.append("] `");
        line.append(name);
        line.append("` -- ");
        line.append(describe_tool(catalog, name));
        line.append("\n");
        out.append(line.as_str());
        proof {
            assert(names.take(j + 1).drop_last() == names.take(j as int));
            assert(names.take(j + 1).last() == name@);
            assert(out@ == start + tool_lines(*catalog, set@, names.take(j + 1)));
        }
        j = j + 1;
    }
    assert(names.take(n as int) == names);
    out.append("\n");
    out
}

/// Lists all tiers and their tools.
pub fn list_tools(catalog: &Catalog, set: &EnabledTools) -> (r: String)
    ensures
        r@ == listing(*catalog, set@),
{
    let mut out = "# Qartez Tool Tiers\n\n".to_owned();
    let ghost start = out@;
    let n: usize = catalog.tiers.len();
    let mut i: usize = 0;
    assert(start + Seq::<char>::empty() == start);
    while i < n
        invariant
            n == catalog.tiers@.len(),
            i <= n,
            out@ == start + tier_sections(*catalog, set@, i as nat),
        decreases n - i,
    {
        let section = render_tier(catalog, set, &catalog.tiers[i]);
        out.append(section.as_str());
        assert(out@ == start + tier_sections(*catalog, set@, (i + 1) as nat));
        i = i + 1;
    }
    out.append(
        "Use `enable: [\"analysis\"]` or `enable: [\"all\"]` to unlock tiers.\nUse `disable: [\"refactor\"]` to hide tiers.\n",
    );
    out
}

/// What a request for the tools leads to.
#[derive(Debug)]
pub struct ToolsAnswer {
    pub text: String,
    /// Whether those who use the tools have to be told.
    pub changed: bool,
}

/// Answers a request: a list where nothing is to be enabled or disabled, else
/// an update. Enabled tools of the tier `core` stay enabled.
pub fn qartez_tools(
    catalog: &Catalog,
    set: &mut EnabledTools,
    enable: Option<&Vec<String>>,
    disable: Option<&Vec<String>>,
) -> (r: ToolsAnswer)
    ensures
        final(set)@ == catalog.disabled_by(
            catalog.enabled_by(old(set)@, request(enable)),
            request(disable),
        ),
        r.changed == (catalog.enabling_changes(old(set)@, request(enable))
            || catalog.disabling_changes(
            catalog.enabled_by(old(set)@, request(enable)),
            request(disable),
        )),
        r.text@ == if enable is None && disable is None {
            listing(*catalog, old(set)@)
        } else {
            update_summary(r.changed, final(set)@.len())
        },
        forall|name: Seq<char>|
            catalog.core_tools().contains(name) && old(set)@.contains(name)
                ==> #[trigger] final(set)@.contains(name),
{
    proof {
        let added = catalog.enabled_by(set@, request(enable));
        law_enabling_keeps(*catalog, set@, request(enable));
        assert forall|name: Seq<char>|
            catalog.core_tools().contains(name) && set@.contains(
                name,
            ) implies #[trigger] catalog.disabled_by(added, request(disable)).contains(name) by {
            law_core_stays(*catalog, added, request(disable), name);
        }
    }
    if enable.is_none() && disable.is_none() {
        return ToolsAnswer { text: list_tools(catalog, set), changed: false };
    }
    let changed = update_tools(catalog, set, enable, disable);
    ToolsAnswer { text: summarize_update(changed, set), changed }
}

/// A request names all tools under `all`, the tools of a tier under the name of the
/// tier, and a registered tool under its own name; any other name stands for none.
pub proof fn law_what_a_request_names(catalog: Catalog, target: Seq<char>, name: Seq<char>)
    ensures
        target == "all"@ ==> (catalog.named_by(target).contains(name) <==> exists|i: int|
            0 <= i < catalog.tools@.len() && (#[trigger] catalog.tools@[i]).name@ == name),
        target != "all"@ && tier_tools(catalog.tiers@, target) is Some ==> (catalog.named_by(
            target,
        ).contains(name) <==> tier_tools(catalog.tiers@, target)->0.contains(name)),
        target != "all"@ && tier_tools(catalog.tiers@, target) is None ==> (catalog.named_by(
            target,
        ).contains(name) <==> name == target && exists|i: int|
            0 <= i < catalog.tools@.len() && (#[trigger] catalog.tools@[i]).name@ == name),
{
    let tools = catalog.tools@;
    if target == "all"@ {
        let names = tool_names(tools);
        if names.contains(name) {
            let i = choose|i: int| 0 <= i < names.len() && names[i] == name;
            assert(tools[i].name@ == name);
        }
        if exists|i: int| 0 <= i < tools.len() && (#[trigger] tools[i]).name@ == name {
            let i = choose|i: int| 0 <= i < tools.len() && (#[trigger] tools[i]).name@ == name;
            assert(names[i] == name);
        }
    } else if tier_tools(catalog.tiers@, target) is None {
        lemma_tool_named(tools, target);
        assert(seq![target][0] == target);
    }
}

proof fn lemma_tool_named(tools: Seq<RegisteredTool>, name: Seq<char>)
    ensures
        tool_named(tools, name) is Some <==> exists|i: int|
            0 <= i < tools.len() && (#[trigger] tools[i]).name@ == name,
        tool_named(tools, name) matches Some(tool) ==> tool.name@ == name,
    decreases tools.len(),
{
    if tools.len() > 0 {
        let rest = tools.drop_first();
        lemma_tool_named(rest, name);
        if tools[0].name@ != name {
            if exists|i: int| 0 <= i < rest.len() && (#[trigger] rest[i]).name@ == name {
                let i = choose|i: int| 0 <= i < rest.len() && (#[trigger] rest[i]).name@ == name;
                assert(tools[i + 1] == rest[i]);
            }
            if exists|i: int| 0 <= i < tools.len() && (#[trigger] tools[i]).name@ == name {
                let i = choose|i: int| 0 <= i < tools.len() && (#[trigger] tools[i]).name@ == name;
                assert(rest[i - 1] == tools[i]);
            }
        }
    }
}

/// The tools of a tier are those of the first tier with the name.
pub proof fn law_tiers(tiers: Seq<Tier>, name: Seq<char>, k: int)
    requires
        0 <= k <= tiers.len(),
        forall|j: int| 0 <= j < k ==> (#[trigger] tiers[j]).name@ != name,
    ensures
        k < tiers.len() && tiers[k].name@ == name ==> tier_tools(tiers, name) == Some(
            text::texts(tiers[k].tools@),
        ),
        k == tiers.len() ==> tier_tools(tiers, name) is None,
    decreases k,
{
    if k > 0 {
        let rest = tiers.drop_first();
        assert(tiers[0].name@ != name);
        assert forall|j: int| 0 <= j < k - 1 implies (#[trigger] rest[j]).name@ != name by {
            assert(rest[j] == tiers[j + 1]);
        }
        law_tiers(rest, name, k - 1);
        if k < tiers.len() {
            assert(rest[k - 1] == tiers[k]);
        }
    }
}

proof fn lemma_with_all_holds(set: Set<Seq<char>>, names: Seq<Seq<char>>, name: Seq<char>)
    ensures
        with_all(set, names).contains(name) <==> set.contains(name) || names.contains(name),
    decreases names.len(),
{
    if names.len() > 0 {
        let rest = names.drop_last();
        lemma_with_all_holds(set, rest, name);
        assert(names == rest.push(names.last()));
        order::lemma_contains_push(rest, names.last(), name);
    }
}

proof fn lemma_without_all_holds(set: Set<Seq<char>>, names: Seq<Seq<char>>, name: Seq<char>)
    ensures
        without_all(set, names).contains(name) <==> set.contains(name) && !names.contains(name),
    decreases names.len(),
{
    if names.len() > 0 {
        let rest = names.drop_last();
        lemma_without_all_holds(set, rest, name);
        assert(names == rest.push(names.last()));
        order::lemma_contains_push(rest, names.last(), name);
    }
}

proof fn lemma_others_hold(names: Seq<Seq<char>>, stay: Seq<Seq<char>>, name: Seq<char>)
    ensures
        others(names, stay).contains(name) <==> names.contains(name) && !stay.contains(name),
    decreases names.len(),
{
    if names.len() > 0 {
        let rest = names.drop_last();
        lemma_others_hold(rest, stay, name);
        assert(names == rest.push(names.last()));
        order::lemma_contains_push(rest, names.last(), name);
        order::lemma_contains_push(others(rest, stay), names.last(), name);
    }
}

/// After a request to enable, a tool is enabled exactly when it was before or when one
/// of the targets names it.
pub proof fn law_enabled_tools(
    catalog: Catalog,
    set: Set<Seq<char>>,
    targets: Seq<Seq<char>>,
    name: Seq<char>,
)
    ensures
        catalog.enabled_by(set, targets).contains(name) <==> set.contains(name) || exists|k: int|
            0 <= k < targets.len() && catalog.named_by(#[trigger] targets[k]).contains(name),
    decreases targets.len(),
{
    if targets.len() > 0 {
        let rest = targets.drop_last();
        law_enabled_tools(catalog, set, rest, name);
        lemma_with_all_holds(
            catalog.enabled_by(set, rest),
            catalog.named_by(targets.last()),
            name,
        );
        assert(targets[targets.len() - 1] == targets.last());
        if exists|k: int|
            0 <= k < rest.len() && catalog.named_by(#[trigger] rest[k]).contains(name) {
            let k = choose|k: int|
                0 <= k < rest.len() && catalog.named_by(#[trigger] rest[k]).contains(name);
            assert(targets[k] == rest[k]);
        }
        if exists|k: int|
            0 <= k < targets.len() && catalog.named_by(#[trigger] targets[k]).contains(name) {
            let k = choose|k: int|
                0 <= k < targets.len() && catalog.named_by(#[trigger] targets[k]).contains(name);
            if k < rest.len() {
                assert(rest[k] == targets[k]);
            }
        }
    }
}

/// Whether a request to disable `target` is one for a tool: it stands for a tier that
/// has the tool, or is its name where no tier has that name. Requests for `core` and
/// for the tool that enables tools stand for none.
pub open spec fn asks_to_disable(catalog: Catalog, target: Seq<char>, name: Seq<char>) -> bool {
    &&& target != "core"@
    &&& target != catalog.meta_tool@
    &&& tier_tools(catalog.tiers@, target) is Some ==> tier_tools(
        catalog.tiers@,
        target,
    )->0.contains(name)
    &&& tier_tools(catalog.tiers@, target) is None ==> target == name
}

/// After a request to disable, a tool is enabled exactly when it was before and is of
/// the tier `core`, or is not asked for by any of the targets.
pub proof fn law_disabled_tools(
    catalog: Catalog,
    set: Set<Seq<char>>,
    targets: Seq<Seq<char>>,
    name: Seq<char>,
)
    ensures
        catalog.disabled_by(set, targets).contains(name) <==> set.contains(name) && ((tier_tools(
            catalog.tiers@,
            "core"@,
        ) is Some && tier_tools(catalog.tiers@, "core"@)->0.contains(name)) || forall|k: int|
            0 <= k < targets.len() ==> !asks_to_disable(catalog, #[trigger] targets[k], name)),
    decreases targets.len(),
{
    if targets.len() > 0 {
        let rest = targets.drop_last();
        let target = targets.last();
        law_disabled_tools(catalog, set, rest, name);
        let names = match tier_tools(catalog.tiers@, target) {
            Some(names) => names,
            None => seq![target],
        };
        lemma_others_hold(names, catalog.core_tools(), name);
        lemma_without_all_holds(catalog.disabled_by(set, rest), catalog.taken_by(target), name);
        assert(seq![target][0] == target);
        assert(targets[targets.len() - 1] == target);
        assert(forall|k: int| 0 <= k < rest.len() ==> #[trigger] rest[k] == targets[k]);
        assert(catalog.taken_by(target).contains(name) <==> asks_to_disable(catalog, target, name)
            && !catalog.core_tools().contains(name));
        if forall|k: int|
            0 <= k < rest.len() ==> !asks_to_disable(catalog, #[trigger] rest[k], name) {
            if !asks_to_disable(catalog, target, name) {
                assert forall|k: int| 0 <= k < targets.len() implies !asks_to_disable(
                    catalog,
                    #[trigger] targets[k],
                    name,
                ) by {
                    if k < rest.len() {
                        assert(rest[k] == targets[k]);
                    }
                }
            }
        }
    }
}

/// The list of tools has a line for each tool of each tier, checked exactly when the
/// tool is enabled, with the first sentence of its description.
#[verifier::rlimit(50)]
pub proof fn law_tools_are_listed(
    catalog: Catalog,
    enabled: Set<Seq<char>>,
    t: int,
    k: int,
)
    requires
        0 <= t < catalog.tiers@.len(),
        0 <= k < catalog.tiers@[t].tools@.len(),
    ensures
        ({
            let tier = catalog.tiers@[t];
            let name = tier.tools@[k]@;
            let whole = forall|j: int|
                0 <= j < tier.tools@.len() ==> enabled.contains((#[trigger] tier.tools@[j])@);
            let tail = "] `"@ + name + "` -- "@ + short_description(catalog.tools@, name) + "\n"@;
            &&& enabled.contains(name) ==> text::contains_text(
                listing(catalog, enabled),
                "- [x"@ + tail,
            )
            &&& !enabled.contains(name) ==> text::contains_text(
                listing(catalog, enabled),
                "- [ "@ + tail,
            )
            &&& whole ==> text::contains_text(
                listing(catalog, enabled),
                "## "@ + tier.name@ + " (enabled)\n"@,
            )
            &&& !whole ==> text::contains_text(
                listing(catalog, enabled),
                "## "@ + tier.name@ + " (disabled)\n"@,
            )
        }),
{
    let tier = catalog.tiers@[t];
    let names = text::texts(tier.tools@);
    let name = names[k];
    let whole = forall|j: int|
        0 <= j < tier.tools@.len() ==> enabled.contains((#[trigger] tier.tools@[j])@);
    let tail = "] `"@ + name + "` -- "@ + short_description(catalog.tools@, name) + "\n"@;
    let mark = if enabled.contains(name) {
        "- [x"@
    } else {
        "- [ "@
    };
    assert(whole == all_enabled(enabled, names)) by {
        if whole {
            assert forall|j: int| 0 <= j < names.len() implies enabled.contains(
                #[trigger] names[j],
            ) by {
                assert(names[j] == tier.tools@[j]@);
            }
        }
        if all_enabled(enabled, names) {
            assert forall|j: int| 0 <= j < tier.tools@.len() implies enabled.contains(
                (#[trigger] tier.tools@[j])@,
            ) by {
                assert(names[j] == tier.tools@[j]@);
            }
        }
    }
    lemma_tool_line(catalog, enabled, names, k);
    let section = tier_section(catalog, enabled, tier);
    let word = if whole {
        "enabled"@
    } else {
        "disabled"@
    };
    let head = "## "@ + tier.name@ + " ("@ + word + ")\n"@;
    let title = "## "@ + tier.name@ + (if whole {
        " (enabled)\n"@
    } else {
        " (disabled)\n"@
    });
    assert(head == title) by {
        reveal_strlit(" (enabled)\n");
        reveal_strlit(" (disabled)\n");
        reveal_strlit("enabled");
        reveal_strlit("disabled");
        reveal_strlit(" (");
        reveal_strlit(")\n");
        assert(" ("@ + "enabled"@ + ")\n"@ == " (enabled)\n"@);
        assert(" ("@ + "disabled"@ + ")\n"@ == " (disabled)\n"@);
        assert(head == "## "@ + tier.name@ + (" ("@ + word + ")\n"@));
    }
    let rows = tool_lines(catalog, enabled, names);
    text::lemma_grows(rows, head, mark + tail);
    text::lemma_grows(head + rows, "\n"@, mark + tail);
    text::lemma_holds(Seq::empty(), head, rows);
    assert(Seq::<char>::empty() + head == head);
    text::lemma_grows(head + rows, "\n"@, head);
    lemma_section_listed(catalog, enabled, catalog.tiers@.len(), t);
    let sections = tier_sections(catalog, enabled, catalog.tiers@.len());
    text::lemma_holds_within(sections, section, mark + tail);
    text::lemma_holds_within(sections, section, head);
    let opening = "# Qartez Tool Tiers\n\n"@;
    let closing =
        "Use `enable: [\"analysis\"]` or `enable: [\"all\"]` to unlock tiers.\nUse `disable: [\"refactor\"]` to hide tiers.\n"@;
    text::lemma_holds(opening, sections, closing);
    text::lemma_holds_within(listing(catalog, enabled), sections, mark + tail);
    text::lemma_holds_within(listing(catalog, enabled), sections, head);
}

proof fn lemma_section_listed(catalog: Catalog, enabled: Set<Seq<char>>, n: nat, t: int)
    requires
        0 <= t < n,
    ensures
        text::contains_text(
            tier_sections(catalog, enabled, n),
            tier_section(catalog, enabled, catalog.tiers@[t]),
        ),
    decreases n,
{
    let m = (n - 1) as nat;
    let rest = tier_sections(catalog, enabled, m);
    let own = tier_section(catalog, enabled, catalog.tiers@[m as int]);
    if t < m {
        lemma_section_listed(catalog, enabled, m, t);
        text::lemma_grows(rest, own, tier_section(catalog, enabled, catalog.tiers@[t]));
    } else {
        text::lemma_holds(rest, own, Seq::empty());
        assert(rest + own + Seq::<char>::empty() == rest + own);
    }
}

proof fn lemma_tool_line(
    catalog: Catalog,
    enabled: Set<Seq<char>>,
    names: Seq<Seq<char>>,
    k: int,
)
    requires
        0 <= k < names.len(),
    ensures
        text::contains_text(
            tool_lines(catalog, enabled, names),
            (if enabled.contains(names[k]) {
                "- [x"@
            } else {
                "- [ "@
            }) + ("] `"@ + names[k] + "` -- "@ + short_description(catalog.tools@, names[k])
                + "\n"@),
        ),
    decreases names.len(),
{
    let rest = names.drop_last();
    let last = names.last();
    let mark = if enabled.contains(last) {
        "x"@
    } else {
        " "@
    };
    let line = "- ["@ + mark + "] `"@ + last + "` -- "@ + short_description(catalog.tools@, last)
        + "\n"@;
    let wanted = (if enabled.contains(names[k]) {
        "- [x"@
    } else {
        "- [ "@
    }) + ("] `"@ + names[k] + "` -- "@ + short_description(catalog.tools@, names[k]) + "\n"@);
    if k < rest.len() {
        lemma_tool_line(catalog, enabled, rest, k);
        assert(rest[k] == names[k]);
        text::lemma_grows(tool_lines(catalog, enabled, rest), line, wanted);
    } else {
        assert("- ["@ + "x"@ == "- [x"@ && "- ["@ + " "@ == "- [ "@) by {
            reveal_strlit("- [");
            reveal_strlit("- [x");
            reveal_strlit("- [ ");
            reveal_strlit("x");
            reveal_strlit(" ");
            assert("- ["@ + "x"@ == "- [x"@);
            assert("- ["@ + " "@ == "- [ "@);
        }
        let d = short_description(catalog.tools@, last);
        assert(line == "- ["@ + mark + ("] `"@ + last + "` -- "@ + d + "\n"@));
        text::lemma_holds(tool_lines(catalog, enabled, rest), line, Seq::empty());
        assert(tool_lines(catalog, enabled, rest) + line + Seq::<char>::empty() == tool_lines(
            catalog,
            enabled,
            rest,
        ) + line);
    }
}

/// A tool is described by what stands before the first full stop of its description,
/// and by nothing where it has none or is not registered.
pub proof fn law_first_sentence(
    tools: Seq<RegisteredTool>,
    k: int,
    sentence: Seq<char>,
    rest: Seq<char>,
)
    requires
        0 <= k < tools.len(),
        forall|j: int| 0 <= j < k ==> (#[trigger] tools[j]).name@ != tools[k].name@,
        !sentence.contains('.'),
    ensures
        tools[k].description is None ==> short_description(tools, tools[k].name@).len() == 0,
        tools[k].description is Some && tools[k].description->0@ == sentence + seq!['.'] + rest
            ==> short_description(tools, tools[k].name@) == sentence,
        tools[k].description is Some && tools[k].description->0@ == sentence ==> short_description(
            tools,
            tools[k].name@,
        ) == sentence,
{
    lemma_first_tool(tools, k);
    reveal_strlit("");
    let whole = sentence + seq!['.'] + rest;
    let n = sentence.len() as int;
    assert forall|i: int| 0 <= i < n implies #[trigger] sentence[i] != '.' by {
        assert(sentence.contains(sentence[i]));
    }
    assert forall|i: int| 0 <= i < n implies #[trigger] whole[i] != '.' by {
        assert(whole[i] == sentence[i]);
    }
    text::lemma_position(whole, '.', n);
    text::lemma_position(sentence, '.', n);
    assert(whole.take(n) == sentence);
    assert(sentence.take(n) == sentence);
}

proof fn lemma_first_tool(tools: Seq<RegisteredTool>, k: int)
    requires
        0 <= k < tools.len(),
        forall|j: int| 0 <= j < k ==> (#[trigger] tools[j]).name@ != tools[k].name@,
    ensures
        tool_named(tools, tools[k].name@) == Some(tools[k]),
    decreases k,
{
    if k > 0 {
        let rest = tools.drop_first();
        assert(tools[0].name@ != tools[k].name@);
        assert(rest[k - 1] == tools[k]);
        assert forall|j: int| 0 <= j < k - 1 implies (#[trigger] rest[j]).name@
            != rest[k - 1].name@ by {
            assert(rest[j] == tools[j + 1]);
        }
        lemma_first_tool(rest, k - 1);
    }
}

}
