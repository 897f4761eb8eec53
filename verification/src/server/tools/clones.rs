//! Groups of symbols with the same structure.
use vstd::hash_map::StringHashMap;
use vstd::prelude::*;
use vstd::string::*;

use crate::order;
use crate::server::tools::unused;
use crate::server::tools::unused::letter_of;
use crate::storage::models::{FileRow, SymbolRow};
use crate::test_paths;
use crate::test_paths::is_test_path;
use crate::text;
use crate::text::{push_count, push_decimal, push_integer, same};

verus! {

/// Symbols with the same structure.
#[derive(Debug)]
pub struct CloneGroup {
    pub shape_hash: u64,
    pub symbols: Vec<(SymbolRow, FileRow)>,
}

/// A `CloneGroup` as plain values.
pub struct CloneGroupModel {
    pub shape_hash: u64,
    pub symbols: Seq<(SymbolRow, FileRow)>,
}

impl View for CloneGroup {
    type V = CloneGroupModel;

    open spec fn view(&self) -> CloneGroupModel {
        CloneGroupModel { shape_hash: self.shape_hash, symbols: self.symbols@ }
    }
}

/// The lines of the test modules of Rust files, by path, as far as the files
/// were scanned.
pub struct CfgTestBlockCache {
    inner: StringHashMap<Vec<(u32, u32)>>,
}

impl View for CfgTestBlockCache {
    type V = Map<Seq<char>, Seq<(u32, u32)>>;

    closed spec fn view(&self) -> Map<Seq<char>, Seq<(u32, u32)>> {
        self.inner@.map_values(|ranges: Vec<(u32, u32)>| ranges@)
    }
}

impl CfgTestBlockCache {
    /// No file was scanned yet.
    pub fn new() -> (r: Self)
        ensures
            r@ == Map::<Seq<char>, Seq<(u32, u32)>>::empty(),
    {
        let r = CfgTestBlockCache { inner: StringHashMap::new() };
        assert(r@ == Map::<Seq<char>, Seq<(u32, u32)>>::empty());
        r
    }

    /// Notes the lines of the test modules of a file.
    pub fn insert(&mut self, path: &str, ranges: Vec<(u32, u32)>)
        ensures
            final(self)@ == old(self)@.insert(path@, ranges@),
    {
        self.inner.insert(path.to_owned(), ranges);
        assert(self@ == old(self)@.insert(path@, ranges@));
    }

    /// Tells whether a file has to be scanned: only Rust files are, and each
    /// once.
    pub fn lacks(&self, path: &str, language: &str) -> (r: bool)
        ensures
            r == (language@ == "rust"@ && !self@.contains_key(path@)),
    {
        same(language, "rust") && !self.inner.contains_key(path)
    }

    /// The lines of the test modules of a file; none where it is no Rust file.
    pub fn ranges_for(&self, path: &str, language: &str) -> (r: Option<&Vec<(u32, u32)>>)
        ensures
            match r {
                Some(ranges) => ranges@ == test_ranges(self@, path@, language@),
                None => test_ranges(self@, path@, language@).len() == 0,
            },
    {
        if !same(language, "rust") {
            return None;
        }
        self.inner.get(path)
    }
}

/// The lines of the test modules of a file, as far as they are known.
pub open spec fn test_ranges(
    cache: Map<Seq<char>, Seq<(u32, u32)>>,
    path: Seq<char>,
    language: Seq<char>,
) -> Seq<(u32, u32)> {
    if language == "rust"@ && cache.contains_key(path) {
        cache[path]
    } else {
        Seq::empty()
    }
}

/// Whether a symbol lies inside one of some ranges of lines.
pub open spec fn lies_within(symbol: SymbolRow, ranges: Seq<(u32, u32)>) -> bool {
    exists|k: int|
        0 <= k < ranges.len() && (#[trigger] ranges[k]).0 <= symbol.line_start && symbol.line_end
            <= ranges[k].1
}

/// Whether a member of a group belongs to a test.
pub open spec fn test_member(
    cache: Map<Seq<char>, Seq<(u32, u32)>>,
    member: (SymbolRow, FileRow),
) -> bool {
    test_paths::test_path(member.1.path@) || lies_within(
        member.0,
        test_ranges(cache, member.1.path@, member.1.language@),
    )
}

/// The members that belong to no test, in order.
pub open spec fn kept(
    cache: Map<Seq<char>, Seq<(u32, u32)>>,
    members: Seq<(SymbolRow, FileRow)>,
) -> Seq<(SymbolRow, FileRow)>
    decreases members.len(),
{
    if members.len() == 0 {
        Seq::empty()
    } else {
        let rest = kept(cache, members.drop_last());
        if test_member(cache, members.last()) {
            rest
        } else {
            rest.push(members.last())
        }
    }
}

/// The place of a member: its file and its lines.
pub open spec fn span(member: (SymbolRow, FileRow)) -> (i64, u32, u32) {
    (member.0.file_id, member.0.line_start, member.0.line_end)
}

/// Whether members stand in two places at least.
pub open spec fn two_spans(members: Seq<(SymbolRow, FileRow)>) -> bool {
    exists|i: int, j: int|
        0 <= i < j < members.len() && span(#[trigger] members[i]) != span(#[trigger] members[j])
}

fn is_within(symbol: &SymbolRow, ranges: &Vec<(u32, u32)>) -> (r: bool)
    ensures
        r == lies_within(*symbol, ranges@),
{
    let n: usize = ranges.len();
    let mut i: usize = 0;
    while i < n
        invariant
            n == ranges@.len(),
            i <= n,
            forall|k: int|
                0 <= k < i ==> !((#[trigger] ranges@[k]).0 <= symbol.line_start && symbol.line_end
                    <= ranges@[k].1),
        decreases n - i,
    {
        if ranges[i].0 <= symbol.line_start && symbol.line_end <= ranges[i].1 {
            return true;
        }
        i = i + 1;
    }
    false
}

fn is_test_member(cache: &CfgTestBlockCache, symbol: &SymbolRow, file: &FileRow) -> (r: bool)
    ensures
        r == test_member(cache@, (*symbol, *file)),
{
    if is_test_path(file.path.as_str()) {
        return true;
    }
    match cache.ranges_for(file.path.as_str(), file.language.as_str()) {
        Some(ranges) => is_within(symbol, ranges),
        None => false,
    }
}

fn has_two_spans(members: &Vec<(SymbolRow, FileRow)>) -> (r: bool)
    ensures
        r == two_spans(members@),
{
    let n: usize = members.len();
    if n == 0 {
        return false;
    }
    let mut i: usize = 1;
    while i < n
        invariant
            n == members@.len(),
            1 <= i <= n,
            forall|k: int| 0 <= k < i ==> span(#[trigger] members@[k]) == span(members@[0]),
        decreases n - i,
    {
        let a = &members[0].0;
        let b = &members[i].0;
        if a.file_id != b.file_id || a.line_start != b.line_start || a.line_end != b.line_end {
            assert(span(members@[0]) != span(members@[i as int]));
            return true;
        }
        i = i + 1;
    }
    false
}

/// Whether every file that decides about the members of a group was scanned.
pub open spec fn scanned(
    cache: Map<Seq<char>, Seq<(u32, u32)>>,
    members: Seq<(SymbolRow, FileRow)>,
) -> bool {
    forall|k: int|
        0 <= k < members.len() && !test_paths::test_path((#[trigger] members[k]).1.path@)
            && members[k].1.language@ == "rust"@ ==> cache.contains_key(members[k].1.path@)
}

/// Drops the members of a group that belong to tests. Nothing is left of a
/// group whose other members do not stand in two places at least.
pub fn filter_test_members(group: CloneGroup, cache: &CfgTestBlockCache) -> (r: Option<CloneGroup>)
    requires
        scanned(cache@, group.symbols@),
    ensures
        match r {
            Some(left) => left.shape_hash == group.shape_hash && left.symbols@ == kept(
                cache@,
                group.symbols@,
            ) && two_spans(left.symbols@),
            None => !two_spans(kept(cache@, group.symbols@)),
        },
{
    let ghost all = group.symbols@;
    let mut rest = group.symbols;
    let mut symbols: Vec<(SymbolRow, FileRow)> = Vec::new();
    let n: usize = rest.len();
    let mut i: usize = 0;
    assert(all.skip(0) == all);
    while i < n
        invariant
            n == all.len(),
            i <= n,
            rest@ == all.skip(i as int),
            symbols@ == kept(cache@, all.take(i as int)),
        decreases n - i,
    {
        let (symbol, file) = rest.remove(0);
        assert(all.take(i + 1).drop_last() == all.take(i as int));
        if !is_test_member(cache, &symbol, &file) {
            symbols.push((symbol, file));
        }
        i = i + 1;
    }
    assert(all.take(n as int) == all);
    if has_two_spans(&symbols) {
        Some(CloneGroup { shape_hash: group.shape_hash, symbols })
    } else {
        None
    }
}

proof fn lemma_kept(
    cache: Map<Seq<char>, Seq<(u32, u32)>>,
    members: Seq<(SymbolRow, FileRow)>,
)
    ensures
        kept(cache, members).len() <= members.len(),
        forall|k: int|
            0 <= k < kept(cache, members).len() ==> !test_member(
                cache,
                #[trigger] kept(cache, members)[k],
            ),
    decreases members.len(),
{
    if members.len() > 0 {
        let rest = members.drop_last();
        lemma_kept(cache, rest);
        let all = kept(cache, members);
        assert forall|k: int| 0 <= k < all.len() implies !test_member(
            cache,
            #[trigger] all[k],
        ) by {
            if k < kept(cache, rest).len() {
                assert(all[k] == kept(cache, rest)[k]);
            }
        }
    }
}

proof fn lemma_kept_all(
    cache: Map<Seq<char>, Seq<(u32, u32)>>,
    members: Seq<(SymbolRow, FileRow)>,
)
    requires
        forall|k: int| 0 <= k < members.len() ==> !test_member(cache, #[trigger] members[k]),
    ensures
        kept(cache, members) == members,
    decreases members.len(),
{
    if members.len() > 0 {
        let rest = members.drop_last();
        assert forall|k: int| 0 <= k < rest.len() implies !test_member(
            cache,
            #[trigger] rest[k],
        ) by {
            assert(rest[k] == members[k]);
        }
        lemma_kept_all(cache, rest);
        assert(members[members.len() - 1] == members.last());
        assert(rest.push(members.last()) == members);
    }
}

/// What is left of a group holds no member of a test, and a second pass leaves
/// it as it is.
pub proof fn law_filtering_is_final(
    cache: Map<Seq<char>, Seq<(u32, u32)>>,
    members: Seq<(SymbolRow, FileRow)>,
)
    ensures
        forall|k: int|
            0 <= k < kept(cache, members).len() ==> !test_member(
                cache,
                #[trigger] kept(cache, members)[k],
            ),
        kept(cache, kept(cache, members)) == kept(cache, members),
{
    lemma_kept(cache, members);
    lemma_kept_all(cache, kept(cache, members));
}

/// The groups of a page that are shown: all, or what filtering leaves of each.
pub open spec fn shown_groups(
    cache: Map<Seq<char>, Seq<(u32, u32)>>,
    groups: Seq<CloneGroupModel>,
    include_tests: bool,
) -> Seq<CloneGroupModel>
    decreases groups.len(),
{
    if include_tests || groups.len() == 0 {
        groups
    } else {
        let rest = shown_groups(cache, groups.drop_last(), include_tests);
        let symbols = kept(cache, groups.last().symbols);
        if two_spans(symbols) {
            rest.push(CloneGroupModel { shape_hash: groups.last().shape_hash, symbols })
        } else {
            rest
        }
    }
}

/// The number of members of some groups.
pub open spec fn member_count(groups: Seq<CloneGroupModel>) -> nat
    decreases groups.len(),
{
    if groups.len() == 0 {
        0
    } else {
        member_count(groups.drop_last()) + groups.last().symbols.len()
    }
}

proof fn lemma_shown(
    cache: Map<Seq<char>, Seq<(u32, u32)>>,
    groups: Seq<CloneGroupModel>,
    include_tests: bool,
)
    ensures
        shown_groups(cache, groups, include_tests).len() <= groups.len(),
        member_count(shown_groups(cache, groups, include_tests)) <= member_count(groups),
    decreases groups.len(),
{
    if !include_tests && groups.len() > 0 {
        let rest = groups.drop_last();
        lemma_shown(cache, rest, include_tests);
        lemma_kept(cache, groups.last().symbols);
        let before = shown_groups(cache, rest, include_tests);
        let left = CloneGroupModel {
            shape_hash: groups.last().shape_hash,
            symbols: kept(cache, groups.last().symbols),
        };
        assert(before.push(left).drop_last() == before);
    }
}

/// Where tests are left out, every group that is shown stands in two places at
/// least, and none of its members belongs to a test.
pub proof fn law_shown_groups_are_clones(
    cache: Map<Seq<char>, Seq<(u32, u32)>>,
    groups: Seq<CloneGroupModel>,
    i: int,
)
    requires
        0 <= i < shown_groups(cache, groups, false).len(),
    ensures
        two_spans(shown_groups(cache, groups, false)[i].symbols),
        forall|k: int|
            0 <= k < shown_groups(cache, groups, false)[i].symbols.len() ==> !test_member(
                cache,
                #[trigger] shown_groups(cache, groups, false)[i].symbols[k],
            ),
    decreases groups.len(),
{
    if groups.len() > 0 {
        let rest = groups.drop_last();
        if i < shown_groups(cache, rest, false).len() {
            law_shown_groups_are_clones(cache, rest, i);
        } else {
            lemma_kept(cache, groups.last().symbols);
        }
    }
}

/// The approximate number of lines of a member of a group.
pub open spec fn group_lines(symbols: Seq<(SymbolRow, FileRow)>) -> nat {
    if symbols.len() == 0 {
        0
    } else if symbols[0].0.line_end >= symbols[0].0.line_start {
        (symbols[0].0.line_end - symbols[0].0.line_start + 1) as nat
    } else {
        1
    }
}

/// The members of a group in the short report.
pub open spec fn short_members(symbols: Seq<(SymbolRow, FileRow)>) -> Seq<char>
    decreases symbols.len(),
{
    if symbols.len() == 0 {
        Seq::empty()
    } else {
        let last = symbols.last();
        short_members(symbols.drop_last()) + (" "@ + last.1.path@ + ":"@ + text::decimal(
            last.0.line_start as nat,
        ))
    }
}

/// The members of a group in the long report.
pub open spec fn long_members(symbols: Seq<(SymbolRow, FileRow)>) -> Seq<char>
    decreases symbols.len(),
{
    if symbols.len() == 0 {
        Seq::empty()
    } else {
        let last = symbols.last();
        long_members(symbols.drop_last()) + ("  "@.push(unused::kind_letter(last.0.kind@)) + " "@
            + last.0.name@ + " @ "@ + last.1.path@ + " L"@ + text::decimal(
            last.0.line_start as nat,
        ) + "-"@ + text::decimal(last.0.line_end as nat) + "\n"@)
    }
}

/// The part of the report on group `number`.
pub open spec fn group_part(
    symbols: Seq<(SymbolRow, FileRow)>,
    number: nat,
    concise: bool,
) -> Seq<char> {
    if concise {
        "#"@ + text::decimal(number) + " ("@ + text::decimal(symbols.len()) + "x, ~"@
            + text::decimal(group_lines(symbols)) + "L):"@ + short_members(symbols) + "\n"@
    } else {
        "## Clone group #"@ + text::decimal(number) + " — "@ + text::decimal(symbols.len())
            + " duplicates, ~"@ + text::decimal(group_lines(symbols)) + " lines each\n"@
            + long_members(symbols) + "\n"@
    }
}

/// The parts of the report on the first `n` groups; the first has the number
/// behind `offset`.
pub open spec fn group_parts(
    groups: Seq<CloneGroupModel>,
    offset: nat,
    concise: bool,
    n: nat,
) -> Seq<char>
    decreases n,
{
    if n == 0 {
        Seq::empty()
    } else {
        group_parts(groups, offset, concise, (n - 1) as nat) + group_part(
            groups[n - 1].symbols,
            offset + n,
            concise,
        )
    }
}

/// The answer for a page that shows `groups` of `total` groups.
pub open spec fn clones_report(
    total: int,
    min_lines: nat,
    offset: nat,
    groups: Seq<CloneGroupModel>,
    concise: bool,
) -> Seq<char> {
    if total == 0 {
        "No code clones detected. All symbols have unique structural shapes."@
    } else if groups.len() == 0 {
        "No clones in page (total="@ + text::integer(total) + ", offset="@ + text::decimal(offset)
            + ")."@
    } else {
        text::integer(total) + " clone group(s) (min "@ + text::decimal(min_lines) + " lines)"@ + (
        if groups.len() < total {
            "; showing "@ + text::decimal(groups.len()) + " from offset "@ + text::decimal(offset)
                + " (next: offset="@ + text::decimal(offset + groups.len()) + ")"@
        } else {
            Seq::empty()
        }) + ".\n\n"@ + text::decimal(member_count(groups)) + " duplicate symbols across "@
            + text::decimal(groups.len()) + " group(s).\n\n"@ + group_parts(
            groups,
            offset,
            concise,
            groups.len(),
        )
    }
}

fn filter_groups(groups: Vec<CloneGroup>, cache: &CfgTestBlockCache) -> (r: Vec<CloneGroup>)
    requires
        forall|k: int|
            0 <= k < groups@.len() ==> scanned(cache@, (#[trigger] groups@[k]).symbols@),
    ensures
        order::views(r@) == shown_groups(cache@, order::views(groups@), false),
{
    let ghost all = groups@;
    let ghost models = order::views(groups@);
    let mut rest = groups;
    let mut out: Vec<CloneGroup> = Vec::new();
    let n: usize = rest.len();
    let mut i: usize = 0;
    assert(all.skip(0) == all);
    assert(order::views(out@) == models.take(0));
    while i < n
        invariant
            n == all.len(),
            models == order::views(all),
            i <= n,
            rest@ == all.skip(i as int),
            forall|k: int| 0 <= k < all.len() ==> scanned(cache@, (#[trigger] all[k]).symbols@),
            order::views(out@) == shown_groups(cache@, models.take(i as int), false),
        decreases n - i,
    {
        let group = rest.remove(0);
        let ghost before = out@;
        proof {
            assert(group == all[i as int]);
            assert(models.take(i + 1).drop_last() == models.take(i as int));
            assert(models.take(i + 1).last() == group@);
        }
        match filter_test_members(group, cache) {
            Some(left) => {
                out.push(left);
                assert(order::views(out@) == order::views(before).push(left@));
            },
            None => {},
        }
        i = i + 1;
    }
    assert(models.take(n as int) == models);
    out
}

fn count_members(groups: &Vec<CloneGroup>) -> (r: u64)
    requires
        member_count(order::views(groups@)) <= u64::MAX,
    ensures
        r == member_count(order::views(groups@)),
{
    let ghost models = order::views(groups@);
    let n: usize = groups.len();
    let mut count: u64 = 0;
    let mut i: usize = 0;
    while i < n
        invariant
            n == groups@.len(),
            models == order::views(groups@),
            i <= n,
            member_count(models) <= u64::MAX,
            count == member_count(models.take(i as int)),
        decreases n - i,
    {
        proof {
            lemma_member_count_take(models, i + 1);
            assert(models.take(i + 1).drop_last() == models.take(i as int));
            assert(models.take(i + 1).last() == groups@[i as int]@);
        }
        count = count + groups[i].symbols.len() as u64;
        i = i + 1;
    }
    assert(models.take(n as int) == models);
    count
}

proof fn lemma_member_count_take(groups: Seq<CloneGroupModel>, n: int)
    requires
        0 <= n <= groups.len(),
    ensures
        member_count(groups.take(n)) <= member_count(groups),
    decreases groups.len(),
{
    if n == groups.len() {
        assert(groups.take(n) == groups);
    } else {
        lemma_member_count_take(groups.drop_last(), n);
        assert(groups.drop_last().take(n) == groups.take(n));
    }
}

fn render_group(symbols: &Vec<(SymbolRow, FileRow)>, number: u64, concise: bool) -> (r: String)
    ensures
        r@ == group_part(symbols@, number as nat, concise),
{
    let n: usize = symbols.len();
    let lines: u64 = if n == 0 {
        0
    } else if symbols[0].0.line_end >= symbols[0].0.line_start {
        (symbols[0].0.line_end - symbols[0].0.line_start) as u64 + 1
    } else {
        1
    };
    let mut out: String;
    if concise {
        out = "#".to_owned();
        push_decimal(&mut out, number);
        out.append(" (");
        push_count(&mut out, n);
        out.append("x, ~");
        push_decimal(&mut out, lines);
        out.append("L):");
    } else {
        out = "## Clone group #".to_owned();
        push_decimal(&mut out, number);
        out.append(" — ");
        push_count(&mut out, n);
        out.append(" duplicates, ~");
        push_decimal(&mut out, lines);
        out.append(" lines each\n");
    }
    let ghost start = out@;
    let mut i: usize = 0;
    assert(start + Seq::<char>::empty() == start);
    while i < n
        invariant
            n == symbols@.len(),
            i <= n,
            concise ==> out@ == start + short_members(symbols@.take(i as int)),
            !concise ==> out@ == start + long_members(symbols@.take(i as int)),
        decreases n - i,
    {
        assert(symbols@.take(i + 1).drop_last() == symbols@.take(i as int));
        let symbol = &symbols[i].0;
        let file = &symbols[i].1;
        if concise {
            let mut item = " ".to_owned();
            item.append(file.path.as_str());
            item.append(":");
            push_count(&mut item, symbol.line_start as usize);
            out.append(item.as_str());
            assert(out@ == start + short_members(symbols@.take(i + 1)));
        } else {
            let mut line = "  ".to_owned();
            line.push(letter_of(symbol.kind.as_str()));
            line.append(" ");
            line.append(symbol.name.as_str());
            line.append(" @ ");
            line.append(file.path.as_str());
            line.append(" L");
            push_count(&mut line, symbol.line_start as usize);
            line.append("-");
            push_count(&mut line, symbol.line_end as usize);
            line.append("\n");
            out.append(line.as_str());
            assert(out@ == start + long_members(symbols@.take(i + 1)));
        }
        i = i + 1;
    }
    assert(symbols@.take(n as int) == symbols@);
    out.append("\n");
    out
}

/// The paths of the files that decide about `members` and were not scanned.
pub open spec fn unscanned(
    cache: Map<Seq<char>, Seq<(u32, u32)>>,
    members: Seq<(SymbolRow, FileRow)>,
) -> Seq<Seq<char>>
    decreases members.len(),
{
    if members.len() == 0 {
        Seq::empty()
    } else {
        let rest = unscanned(cache, members.drop_last());
        let file = members.last().1;
        if !test_paths::test_path(file.path@) && file.language@ == "rust"@ && !cache.contains_key(
            file.path@,
        ) {
            rest.push(file.path@)
        } else {
            rest
        }
    }
}

/// The paths of the files that decide about the members of the first `n`
/// groups and were not scanned.
pub open spec fn unscanned_in(
    cache: Map<Seq<char>, Seq<(u32, u32)>>,
    groups: Seq<CloneGroup>,
    n: nat,
) -> Seq<Seq<char>>
    decreases n,
{
    if n == 0 {
        Seq::empty()
    } else {
        unscanned_in(cache, groups, (n - 1) as nat) + unscanned(cache, groups[n - 1].symbols@)
    }
}

/// Lists the files that have to be scanned before the members of `groups` can be
/// judged. A path may come more than once.
pub fn paths_to_scan(groups: &Vec<CloneGroup>, cache: &CfgTestBlockCache) -> (r: Vec<String>)
    ensures
        text::texts(r@) == unscanned_in(cache@, groups@, groups@.len()),
{
    let n: usize = groups.len();
    let mut out: Vec<String> = Vec::new();
    let mut i: usize = 0;
    assert(text::texts(out@) == Seq::<Seq<char>>::empty());
    while i < n
        invariant
            n == groups@.len(),
            i <= n,
            text::texts(out@) == unscanned_in(cache@, groups@, i as nat),
        decreases n - i,
    {
        let members = &groups[i].symbols;
        let m: usize = members.len();
        let ghost start = text::texts(out@);
        let mut j: usize = 0;
        assert(start + unscanned(cache@, members@.take(0)) == start);
        while j < m
            invariant
                m == members@.len(),
                j <= m,
                text::texts(out@) == start + unscanned(cache@, members@.take(j as int)),
            decreases m - j,
        {
            let file = &members[j].1;
            let ghost before = out@;
            if !is_test_path(file.path.as_str()) && cache.lacks(
                file.path.as_str(),
                file.language.as_str(),
            ) {
                out.push(file.path.clone());
                proof {
                    text::lemma_texts_push(before, file.path);
                }
            }
            proof {
                assert(members@.take(j + 1).drop_last() == members@.take(j as int));
                assert(text::texts(out@) == start + unscanned(cache@, members@.take(j + 1)));
            }
            j = j + 1;
        }
        assert(members@.take(m as int) == members@);
        i = i + 1;
    }
    out
}

proof fn lemma_unscanned(
    cache: Map<Seq<char>, Seq<(u32, u32)>>,
    after: Map<Seq<char>, Seq<(u32, u32)>>,
    members: Seq<(SymbolRow, FileRow)>,
)
    requires
        forall|path: Seq<char>| #[trigger]
            cache.contains_key(path) ==> after.contains_key(path),
        forall|k: int|
            0 <= k < unscanned(cache, members).len() ==> after.contains_key(
                #[trigger] unscanned(cache, members)[k],
            ),
    ensures
        scanned(after, members),
    decreases members.len(),
{
    if members.len() > 0 {
        let rest = members.drop_last();
        let all = unscanned(cache, members);
        let some = unscanned(cache, rest);
        assert forall|k: int| 0 <= k < some.len() implies after.contains_key(
            #[trigger] some[k],
        ) by {
            assert(all[k] == some[k]);
        }
        lemma_unscanned(cache, after, rest);
        assert forall|k: int|
            0 <= k < members.len() && !test_paths::test_path((#[trigger] members[k]).1.path@)
                && members[k].1.language@ == "rust"@ implies after.contains_key(
            members[k].1.path@,
        ) by {
            if k < rest.len() {
                assert(rest[k] == members[k]);
            } else if !cache.contains_key(members[k].1.path@) {
                assert(all.last() == members[k].1.path@);
                assert(after.contains_key(all[all.len() - 1]));
            }
        }
    }
}

/// Once every listed file is scanned, the members of every group can be judged.
pub proof fn law_scanning_suffices(
    cache: Map<Seq<char>, Seq<(u32, u32)>>,
    after: Map<Seq<char>, Seq<(u32, u32)>>,
    groups: Seq<CloneGroup>,
    n: nat,
    i: int,
)
    requires
        0 <= i < n <= groups.len(),
        forall|path: Seq<char>| #[trigger]
            cache.contains_key(path) ==> after.contains_key(path),
        forall|k: int|
            0 <= k < unscanned_in(cache, groups, n).len() ==> after.contains_key(
                #[trigger] unscanned_in(cache, groups, n)[k],
            ),
    ensures
        scanned(after, groups[i].symbols@),
    decreases n,
{
    let m = (n - 1) as nat;
    let all = unscanned_in(cache, groups, n);
    let before = unscanned_in(cache, groups, m);
    let own = unscanned(cache, groups[m as int].symbols@);
    if i < m {
        assert forall|k: int| 0 <= k < before.len() implies after.contains_key(
            #[trigger] before[k],
        ) by {
            assert(all[k] == before[k]);
        }
        law_scanning_suffices(cache, after, groups, m, i);
    } else {
        assert forall|k: int| 0 <= k < own.len() implies after.contains_key(#[trigger] own[k]) by {
            assert(all[before.len() + k] == own[k]);
        }
        lemma_unscanned(cache, after, groups[i].symbols@);
    }
}

/// The number of groups to ask for: twenty by default, and never none.
pub fn page_limit(limit: Option<u32>) -> (r: i64)
    ensures
        r == match limit {
            Some(limit) => if limit == 0 {
                1
            } else {
                limit as int
            },
            None => 20,
        },
{
    match limit {
        Some(limit) => if limit == 0 {
            1
        } else {
            limit as i64
        },
        None => 20,
    }
}

/// The least number of lines to ask for: eight by default.
pub fn line_limit(min_lines: Option<u32>) -> (r: u32)
    ensures
        r == match min_lines {
            Some(min_lines) => min_lines as int,
            None => 8,
        },
{
    match min_lines {
        Some(min_lines) => min_lines,
        None => 8,
    }
}

/// Reports a page of the clone groups. Members that belong to tests are left
/// out unless they are asked for. A page holds no more groups than can be asked
/// for.
pub fn qartez_clones(
    total: i64,
    min_lines: u32,
    offset: u32,
    groups: Vec<CloneGroup>,
    include_tests: bool,
    cache: &CfgTestBlockCache,
    concise: bool,
) -> (r: String)
    requires
        groups@.len() <= u32::MAX,
        member_count(order::views(groups@)) <= u64::MAX,
        !include_tests ==> forall|k: int|
            0 <= k < groups@.len() ==> scanned(cache@, (#[trigger] groups@[k]).symbols@),
    ensures
        r@ == clones_report(
            total as int,
            min_lines as nat,
            offset as nat,
            shown_groups(cache@, order::views(groups@), include_tests),
            concise,
        ),
{
    if total == 0 {
        return "No code clones detected. All symbols have unique structural shapes.".to_owned();
    }
    proof {
        lemma_shown(cache@, order::views(groups@), include_tests);
    }
    let groups = if include_tests {
        groups
    } else {
        filter_groups(groups, cache)
    };
    let ghost models = order::views(groups@);
    let n: usize = groups.len();
    let shown: u64 = n as u64;
    let from: u64 = offset as u64;
    if n == 0 {
        let mut out = "No clones in page (total=".to_owned();
        push_integer(&mut out, total);
        out.append(", offset=");
        push_decimal(&mut out, from);
        out.append(").");
        return out;
    }
    let mut out = String::new();
    push_integer(&mut out, total);
    assert(out@ == text::integer(total as int));
    out.append(" clone group(s) (min ");
    push_decimal(&mut out, min_lines as u64);
    out.append(" lines)");
    let mut place = String::new();
    if (shown as i64) < total {
        place = "; showing ".to_owned();
        push_decimal(&mut place, shown);
        place.append(" from offset ");
        push_decimal(&mut place, from);
        place.append(" (next: offset=");
        push_decimal(&mut place, from + shown);
        place.append(")");
    }
    out.append(place.as_str());
    out.append(".\n\n");
    push_decimal(&mut out, count_members(&groups));
    out.append(" duplicate symbols across ");
    push_decimal(&mut out, shown);
    out.append(" group(s).\n\n");
    let ghost start = out@;
    let mut i: usize = 0;
    assert(start + Seq::<char>::empty() == start);
    while i < n
        invariant
            n == groups@.len(),
            n <= u32::MAX,
            from == offset,
            models == order::views(groups@),
            i <= n,
            out@ == start + group_parts(models, offset as nat, concise, i as nat),
        decreases n - i,
    {
        let part = render_group(&groups[i].symbols, from + i as u64 + 1, concise);
        out.append(part.as_str());
        assert(out@ == start + group_parts(models, offset as nat, concise, (i + 1) as nat));
        i = i + 1;
    }
    out
}

/// A member belongs to a test exactly when its path is one of a test, or when its
/// file is a Rust file and it lies inside the lines of a test module there.
pub proof fn law_test_members(
    cache: Map<Seq<char>, Seq<(u32, u32)>>,
    symbol: SymbolRow,
    file: FileRow,
)
    ensures
        test_member(cache, (symbol, file)) <==> test_paths::test_path(file.path@) || (
        file.language@ == "rust"@ && cache.contains_key(file.path@) && exists|k: int|
            0 <= k < cache[file.path@].len() && (#[trigger] cache[file.path@][k]).0
                <= symbol.line_start && symbol.line_end <= cache[file.path@][k].1),
{
}

proof fn lemma_kept_holds(
    cache: Map<Seq<char>, Seq<(u32, u32)>>,
    members: Seq<(SymbolRow, FileRow)>,
    member: (SymbolRow, FileRow),
)
    ensures
        kept(cache, members).contains(member) <==> members.contains(member) && !test_member(
            cache,
            member,
        ),
    decreases members.len(),
{
    if members.len() > 0 {
        let rest = members.drop_last();
        lemma_kept_holds(cache, rest, member);
        let before = kept(cache, rest);
        assert(members == rest.push(members.last()));
        order::lemma_contains_push(rest, members.last(), member);
        order::lemma_contains_push(before, members.last(), member);
    }
}

/// What is left of a group are exactly its members that belong to no test, in
/// their order: filtering the parts of a list gives the parts of the result.
pub proof fn law_only_tests_are_dropped(
    cache: Map<Seq<char>, Seq<(u32, u32)>>,
    a: Seq<(SymbolRow, FileRow)>,
    b: Seq<(SymbolRow, FileRow)>,
    member: (SymbolRow, FileRow),
)
    ensures
        kept(cache, a).contains(member) <==> a.contains(member) && !test_member(cache, member),
        kept(cache, a + b) == kept(cache, a) + kept(cache, b),
        kept(cache, seq![member]).len() == if test_member(cache, member) {
            0nat
        } else {
            1
        },
    decreases b.len(),
{
    lemma_kept_holds(cache, a, member);
    assert(seq![member].drop_last() == Seq::<(SymbolRow, FileRow)>::empty());
    reveal_with_fuel(kept, 2);
    if b.len() == 0 {
        assert(a + b == a);
        assert(kept(cache, a) + kept(cache, b) == kept(cache, a));
    } else {
        law_only_tests_are_dropped(cache, a, b.drop_last(), member);
        assert((a + b).drop_last() == a + b.drop_last());
        assert((a + b).last() == b.last());
        assert(kept(cache, a + b) == kept(cache, a) + kept(cache, b));
    }
}

/// Two members that belong to no test and differ in their files, or in their first
/// or last lines, make a group, which keeps its hash and all such members. Members
/// that all stand at one place make none.
pub proof fn law_members_at_two_places_make_a_group(
    group: CloneGroup,
    cache: &CfgTestBlockCache,
    r: Option<CloneGroup>,
)
    requires
        scanned(cache@, group.symbols@),
        call_ensures(filter_test_members, (group, cache), r),
    ensures
        forall|a: (SymbolRow, FileRow), b: (SymbolRow, FileRow)|
            #![trigger group.symbols@.contains(a), group.symbols@.contains(b)]
            group.symbols@.contains(a) && group.symbols@.contains(b) && !test_member(cache@, a)
                && !test_member(cache@, b) && (a.0.file_id != b.0.file_id || a.0.line_start
                != b.0.line_start || a.0.line_end != b.0.line_end) ==> r is Some,
        r matches Some(left) ==> left.shape_hash == group.shape_hash,
        r matches Some(left) ==> forall|member: (SymbolRow, FileRow)| #[trigger]
            left.symbols@.contains(member) <==> group.symbols@.contains(member) && !test_member(
                cache@,
                member,
            ),
        r matches Some(left) ==> exists|i: int, j: int|
            #![trigger left.symbols@[i], left.symbols@[j]]
            0 <= i < left.symbols@.len() && 0 <= j < left.symbols@.len() && (
            left.symbols@[i].0.file_id != left.symbols@[j].0.file_id
                || left.symbols@[i].0.line_start != left.symbols@[j].0.line_start
                || left.symbols@[i].0.line_end != left.symbols@[j].0.line_end),
{
    let members = group.symbols@;
    let left = kept(cache@, members);
    assert forall|member: (SymbolRow, FileRow)| #[trigger] left.contains(
        member,
    ) <==> members.contains(member) && !test_member(cache@, member) by {
        lemma_kept_holds(cache@, members, member);
    }
    assert forall|a: (SymbolRow, FileRow), b: (SymbolRow, FileRow)|
        #![trigger members.contains(a), members.contains(b)]
        members.contains(a) && members.contains(b) && !test_member(cache@, a) && !test_member(
            cache@,
            b,
        ) && (a.0.file_id != b.0.file_id || a.0.line_start != b.0.line_start || a.0.line_end
            != b.0.line_end) implies r is Some by {
        assert(left.contains(a) && left.contains(b));
        let i = choose|i: int| 0 <= i < left.len() && left[i] == a;
        let j = choose|j: int| 0 <= j < left.len() && left[j] == b;
        if i < j {
            assert(span(left[i]) != span(left[j]));
        } else {
            assert(span(left[j]) != span(left[i]));
        }
        assert(two_spans(left));
    }
    if r is Some {
        let (i, j) = choose|i: int, j: int|
            0 <= i < j < left.len() && span(#[trigger] left[i]) != span(#[trigger] left[j]);
        assert(left[i] == r->0.symbols@[i] && left[j] == r->0.symbols@[j]);
    }
}

/// A group that stays stands among the groups that are shown, and nothing else
/// does; all groups are shown where tests are asked for.
pub proof fn law_shown_groups(
    cache: Map<Seq<char>, Seq<(u32, u32)>>,
    groups: Seq<CloneGroupModel>,
    shown: CloneGroupModel,
)
    ensures
        shown_groups(cache, groups, true) == groups,
        shown_groups(cache, groups, false).contains(shown) <==> exists|k: int|
            0 <= k < groups.len() && shown == (CloneGroupModel {
                shape_hash: (#[trigger] groups[k]).shape_hash,
                symbols: kept(cache, groups[k].symbols),
            }) && two_spans(shown.symbols),
    decreases groups.len(),
{
    if groups.len() > 0 {
        let rest = groups.drop_last();
        law_shown_groups(cache, rest, shown);
        let before = shown_groups(cache, rest, false);
        let own = CloneGroupModel {
            shape_hash: groups.last().shape_hash,
            symbols: kept(cache, groups.last().symbols),
        };
        order::lemma_contains_push(before, own, shown);
        assert(groups[groups.len() - 1] == groups.last());
        if before.contains(shown) {
            let k = choose|k: int|
                0 <= k < rest.len() && shown == (CloneGroupModel {
                    shape_hash: (#[trigger] rest[k]).shape_hash,
                    symbols: kept(cache, rest[k].symbols),
                }) && two_spans(shown.symbols);
            assert(groups[k] == rest[k]);
        }
        if exists|k: int|
            0 <= k < groups.len() && shown == (CloneGroupModel {
                shape_hash: (#[trigger] groups[k]).shape_hash,
                symbols: kept(cache, groups[k].symbols),
            }) && two_spans(shown.symbols) {
            let k = choose|k: int|
                0 <= k < groups.len() && shown == (CloneGroupModel {
                    shape_hash: (#[trigger] groups[k]).shape_hash,
                    symbols: kept(cache, groups[k].symbols),
                }) && two_spans(shown.symbols);
            if k < rest.len() {
                assert(rest[k] == groups[k]);
            }
        }
    }
}

/// The words that the long report has on a member.
pub open spec fn member_words(member: (SymbolRow, FileRow)) -> Seq<char> {
    " "@ + member.0.name@ + " @ "@ + member.1.path@ + " L"@ + text::decimal(
        member.0.line_start as nat,
    ) + "-"@ + text::decimal(member.0.line_end as nat) + "\n"@
}

#[verifier::rlimit(50)]
proof fn lemma_member_shown(members: Seq<(SymbolRow, FileRow)>, k: int)
    requires
        0 <= k < members.len(),
    ensures
        text::contains_text(long_members(members), member_words(members[k])),
        text::contains_text(short_members(members), member_place(members[k])),
    decreases members.len(),
{
    let rest = members.drop_last();
    let last = members.last();
    let letter = "  "@.push(unused::kind_letter(last.0.kind@));
    let line = letter + " "@ + last.0.name@ + " @ "@ + last.1.path@ + " L"@ + text::decimal(
        last.0.line_start as nat,
    ) + "-"@ + text::decimal(last.0.line_end as nat) + "\n"@;
    let item = " "@ + last.1.path@ + ":"@ + text::decimal(last.0.line_start as nat);
    let empty = Seq::<char>::empty();
    if k < rest.len() {
        lemma_member_shown(rest, k);
        assert(rest[k] == members[k]);
        text::lemma_grows(long_members(rest), line, member_words(members[k]));
        text::lemma_grows(short_members(rest), item, member_place(members[k]));
    } else {
        assert(line == letter + member_words(last));
        text::lemma_holds(long_members(rest) + letter, member_words(last), empty);
        assert(long_members(rest) + letter + member_words(last) + empty == long_members(rest)
            + line);
        text::lemma_holds(short_members(rest), item, empty);
        assert(short_members(rest) + item + empty == short_members(rest) + item);
    }
}

proof fn lemma_group_shown(
    groups: Seq<CloneGroupModel>,
    offset: nat,
    concise: bool,
    n: nat,
    k: int,
)
    requires
        0 <= k < n <= groups.len(),
    ensures
        text::contains_text(
            group_parts(groups, offset, concise, n),
            group_part(groups[k].symbols, (offset + k + 1) as nat, concise),
        ),
    decreases n,
{
    let m = (n - 1) as nat;
    let rest = group_parts(groups, offset, concise, m);
    let part = group_part(groups[m as int].symbols, offset + n, concise);
    let empty = Seq::<char>::empty();
    if k < m {
        lemma_group_shown(groups, offset, concise, m, k);
        text::lemma_grows(
            rest,
            part,
            group_part(groups[k].symbols, (offset + k + 1) as nat, concise),
        );
    } else {
        text::lemma_holds(rest, part, empty);
        assert(rest + part + empty == rest + part);
    }
}

#[verifier::rlimit(50)]
proof fn lemma_long_part(symbols: Seq<(SymbolRow, FileRow)>, number: nat, j: int)
    requires
        0 <= j < symbols.len(),
    ensures
        text::contains_text(group_part(symbols, number, false), member_words(symbols[j])),
        text::contains_text(
            group_part(symbols, number, false),
            "## Clone group #"@ + text::decimal(number) + " — "@ + text::decimal(symbols.len())
                + " duplicates"@,
        ),
{
    let count = text::decimal(symbols.len());
    let lines = text::decimal(group_lines(symbols));
    let front = "## Clone group #"@ + text::decimal(number) + " — "@;
    let head = front + count + " duplicates, ~"@;
    let whole = head + lines + " lines each\n"@;
    let title = front + count + " duplicates"@;
    let part = group_part(symbols, number, false);
    let empty = Seq::<char>::empty();
    lemma_member_shown(symbols, j);
    text::lemma_holds(whole, long_members(symbols), "\n"@);
    text::lemma_holds_within(part, long_members(symbols), member_words(symbols[j]));
    assert(" duplicates"@.is_prefix_of(" duplicates, ~"@)) by {
        reveal_strlit(" duplicates, ~");
        reveal_strlit(" duplicates");
        assert(" duplicates"@ == " duplicates, ~"@.subrange(0, " duplicates"@.len() as int));
    }
    text::lemma_spans(empty, front, count, " duplicates, ~"@, " duplicates"@);
    assert(empty + front == front);
    text::lemma_grows(head, lines, title);
    text::lemma_grows(head + lines, " lines each\n"@, title);
    text::lemma_grows(whole, long_members(symbols), title);
    text::lemma_grows(whole + long_members(symbols), "\n"@, title);
}

/// The words that the short report has on a member.
pub open spec fn member_place(member: (SymbolRow, FileRow)) -> Seq<char> {
    " "@ + member.1.path@ + ":"@ + text::decimal(member.0.line_start as nat)
}

/// The report shows every member of every group of the page, and numbers the groups
/// behind the offset.
#[verifier::rlimit(50)]
pub proof fn law_report_shows_every_member(
    total: int,
    min_lines: nat,
    offset: nat,
    groups: Seq<CloneGroupModel>,
    k: int,
    j: int,
)
    requires
        total != 0,
        0 <= k < groups.len(),
        0 <= j < groups[k].symbols.len(),
    ensures
        text::contains_text(
            clones_report(total, min_lines, offset, groups, false),
            member_words(groups[k].symbols[j]),
        ),
        text::contains_text(
            clones_report(total, min_lines, offset, groups, false),
            "## Clone group #"@ + text::decimal((offset + k + 1) as nat) + " — "@ + text::decimal(
                groups[k].symbols.len(),
            ) + " duplicates"@,
        ),
        text::contains_text(
            clones_report(total, min_lines, offset, groups, true),
            member_place(groups[k].symbols[j]),
        ),
{
    let symbols = groups[k].symbols;
    let number = (offset + k + 1) as nat;
    lemma_member_shown(symbols, j);
    lemma_long_part(symbols, number, j);
    lemma_group_shown(groups, offset, false, groups.len(), k);
    lemma_group_shown(groups, offset, true, groups.len(), k);
    let short = group_part(symbols, number, true);
    let head = "#"@ + text::decimal(number) + " ("@ + text::decimal(symbols.len()) + "x, ~"@
        + text::decimal(group_lines(symbols)) + "L):"@;
    text::lemma_holds(head, short_members(symbols), "\n"@);
    text::lemma_holds_within(short, short_members(symbols), member_place(symbols[j]));
    lemma_parts_reported(total, min_lines, offset, groups, false);
    lemma_parts_reported(total, min_lines, offset, groups, true);
    let long = group_part(symbols, number, false);
    let parts = group_parts(groups, offset, false, groups.len());
    let report = clones_report(total, min_lines, offset, groups, false);
    let title = "## Clone group #"@ + text::decimal(number) + " — "@ + text::decimal(
        symbols.len(),
    ) + " duplicates"@;
    text::lemma_holds_within(parts, long, member_words(symbols[j]));
    text::lemma_holds_within(parts, long, title);
    text::lemma_holds_within(report, parts, member_words(symbols[j]));
    text::lemma_holds_within(report, parts, title);
    let parts = group_parts(groups, offset, true, groups.len());
    let report = clones_report(total, min_lines, offset, groups, true);
    text::lemma_holds_within(parts, short, member_place(symbols[j]));
    text::lemma_holds_within(report, parts, member_place(symbols[j]));
}

proof fn lemma_parts_reported(
    total: int,
    min_lines: nat,
    offset: nat,
    groups: Seq<CloneGroupModel>,
    concise: bool,
)
    requires
        total != 0,
        groups.len() > 0,
    ensures
        text::contains_text(
            clones_report(total, min_lines, offset, groups, concise),
            group_parts(groups, offset, concise, groups.len()),
        ),
{
    let parts = group_parts(groups, offset, concise, groups.len());
    let place = if groups.len() < total {
        "; showing "@ + text::decimal(groups.len()) + " from offset "@ + text::decimal(offset)
            + " (next: offset="@ + text::decimal(offset + groups.len()) + ")"@
    } else {
        Seq::empty()
    };
    let start = text::integer(total) + " clone group(s) (min "@ + text::decimal(min_lines)
        + " lines)"@ + place + ".\n\n"@ + text::decimal(member_count(groups))
        + " duplicate symbols across "@ + text::decimal(groups.len()) + " group(s).\n\n"@;
    text::lemma_holds(start, parts, Seq::empty());
    assert(start + parts + Seq::<char>::empty() == start + parts);
}

/// Twenty groups are asked for by default, and else as many as are wanted, but one at
/// least.
pub proof fn law_page_limit(limit: Option<u32>, r: i64)
    requires
        call_ensures(page_limit, (limit,), r),
    ensures
        limit is None ==> r == 20,
        limit is Some && limit->0 > 0 ==> r == limit->0,
        limit == Some(0u32) ==> r == 1,
{
}

/// Symbols of eight lines at least are asked for by default, and else of as many as
/// are wanted.
pub proof fn law_line_limit(min_lines: Option<u32>, r: u32)
    requires
        call_ensures(line_limit, (min_lines,), r),
    ensures
        min_lines is None ==> r == 8,
        min_lines is Some ==> r == min_lines->0,
{
}

/// The report counts the members of all groups, and the lines of the first member of
/// each group, one at least.
pub proof fn law_counts(
    a: Seq<CloneGroupModel>,
    b: Seq<CloneGroupModel>,
    symbols: Seq<(SymbolRow, FileRow)>,
)
    ensures
        member_count(a + b) == member_count(a) + member_count(b),
        a.len() == 1 ==> member_count(a) == a[0].symbols.len(),
        symbols.len() > 0 && symbols[0].0.line_start <= symbols[0].0.line_end ==> group_lines(
            symbols,
        ) == symbols[0].0.line_end - symbols[0].0.line_start + 1,
        symbols.len() > 0 && symbols[0].0.line_start > symbols[0].0.line_end ==> group_lines(
            symbols,
        ) == 1,
    decreases b.len(),
{
    if a.len() == 1 {
        assert(a.drop_last() == Seq::<CloneGroupModel>::empty());
        reveal_with_fuel(member_count, 2);
    }
    if b.len() == 0 {
        assert(a + b == a);
    } else {
        law_counts(a, b.drop_last(), symbols);
        assert((a + b).drop_last() == a + b.drop_last());
        assert((a + b).last() == b.last());
    }
}

/// The report starts with the number of all groups and the least number of lines, says
/// where to go on where it does not show all groups, and counts what it shows.
pub proof fn law_report_counts_groups(
    total: int,
    min_lines: nat,
    offset: nat,
    groups: Seq<CloneGroupModel>,
    concise: bool,
)
    requires
        total != 0,
        groups.len() > 0,
    ensures
        ({
            let start = text::integer(total) + " clone group(s) (min "@ + text::decimal(min_lines)
                + " lines)"@;
            let next = "; showing "@ + text::decimal(groups.len()) + " from offset "@
                + text::decimal(offset) + " (next: offset="@ + text::decimal(
                offset + groups.len(),
            ) + ")"@;
            let report = clones_report(total, min_lines, offset, groups, concise);
            &&& start.is_prefix_of(report)
            &&& groups.len() < total ==> (start + next).is_prefix_of(report)
            &&& groups.len() >= total ==> (start + ".\n\n"@).is_prefix_of(report)
        }),
{
    let parts = group_parts(groups, offset, concise, groups.len());
    let start = text::integer(total) + " clone group(s) (min "@ + text::decimal(min_lines)
        + " lines)"@;
    let place = if groups.len() < total {
        "; showing "@ + text::decimal(groups.len()) + " from offset "@ + text::decimal(offset)
            + " (next: offset="@ + text::decimal(offset + groups.len()) + ")"@
    } else {
        Seq::empty()
    };
    let tail = text::decimal(member_count(groups)) + " duplicate symbols across "@
        + text::decimal(groups.len()) + " group(s).\n\n"@ + parts;
    let report = clones_report(total, min_lines, offset, groups, concise);
    lemma_regroup(
        start + place,
        ".\n\n"@,
        text::decimal(member_count(groups)),
        " duplicate symbols across "@,
        text::decimal(groups.len()),
        " group(s).\n\n"@,
        parts,
    );
    assert(report == start + place + (".\n\n"@ + tail));
    text::lemma_starts(start + place, ".\n\n"@ + tail);
    text::lemma_starts(start, place + (".\n\n"@ + tail));
    assert(start + place + (".\n\n"@ + tail) == start + (place + (".\n\n"@ + tail)));
    if groups.len() >= total {
        assert(start + place == start);
        text::lemma_starts(start + ".\n\n"@, tail);
        assert(start + ".\n\n"@ + tail == start + (".\n\n"@ + tail));
    }
}

proof fn lemma_regroup(
    a: Seq<char>,
    b: Seq<char>,
    c: Seq<char>,
    d: Seq<char>,
    e: Seq<char>,
    f: Seq<char>,
    g: Seq<char>,
)
    ensures
        a + b + c + d + e + f + g == a + (b + (c + d + e + f + g)),
{
    assert(a + b + c + d + e + f + g == a + (b + (c + d + e + f + g)));
}

}
