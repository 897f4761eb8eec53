//! The map from source files to the tests that cover them.
use vstd::prelude::*;

use crate::group_map;
use crate::group_map::{Group, GroupMap};
use crate::order;
use crate::order::sort;
use crate::server::tools::test_gaps;
use crate::server::tools::test_gaps::{count_tests, push_more_than_five, TestGapsCtx};
use crate::storage::models::{FileRow, SymbolRow};
use crate::test_paths;
use crate::test_paths::is_test_path;
use crate::text;
use crate::text::{push_count, push_lines};

verus! {

/// The pairs of a source path and `test` that the imports `ids` of the test
/// file `test` give: imports of unknown files and of test files give none.
pub open spec fn links(files: Seq<FileRow>, test: Seq<char>, ids: Seq<i64>) -> Seq<
    (Seq<char>, Seq<char>),
>
    decreases ids.len(),
{
    if ids.len() == 0 {
        Seq::empty()
    } else {
        let rest = links(files, test, ids.drop_last());
        match test_gaps::file_by_id(files, ids.last()) {
            Some(file) => if test_paths::test_path(file.path@) {
                rest
            } else {
                rest.push((file.path@, test))
            },
            None => rest,
        }
    }
}

/// The pairs of a source path and the path of a test file that imports it, for
/// the test files among the first `n` files.
pub open spec fn coverage_of(files: Seq<FileRow>, edges: Seq<(i64, i64)>, n: nat) -> Seq<
    (Seq<char>, Seq<char>),
>
    decreases n,
{
    if n == 0 {
        Seq::empty()
    } else {
        let rest = coverage_of(files, edges, (n - 1) as nat);
        let file = files[n - 1];
        if test_paths::test_path(file.path@) {
            rest + links(files, file.path@, test_gaps::targets(edges, file.id))
        } else {
            rest
        }
    }
}

/// All pairs of a source path and the path of a test file that imports it.
pub open spec fn coverage(files: Seq<FileRow>, edges: Seq<(i64, i64)>) -> Seq<
    (Seq<char>, Seq<char>),
> {
    coverage_of(files, edges, files.len())
}

/// The pairs with their halves exchanged.
pub open spec fn swapped(pairs: Seq<(Seq<char>, Seq<char>)>) -> Seq<(Seq<char>, Seq<char>)> {
    Seq::new(pairs.len(), |i: int| (pairs[i].1, pairs[i].0))
}

proof fn lemma_coverage_sides(files: Seq<FileRow>, edges: Seq<(i64, i64)>, n: nat, i: int)
    requires
        n <= files.len(),
        0 <= i < coverage_of(files, edges, n).len(),
    ensures
        !test_paths::test_path(coverage_of(files, edges, n)[i].0),
        test_paths::test_path(coverage_of(files, edges, n)[i].1),
    decreases n,
{
    let rest = coverage_of(files, edges, (n - 1) as nat);
    let file = files[n - 1];
    if i < rest.len() {
        lemma_coverage_sides(files, edges, (n - 1) as nat, i);
    } else {
        lemma_links_sides(files, file.path@, test_gaps::targets(edges, file.id), i - rest.len());
    }
}

proof fn lemma_links_sides(files: Seq<FileRow>, test: Seq<char>, ids: Seq<i64>, i: int)
    requires
        0 <= i < links(files, test, ids).len(),
    ensures
        !test_paths::test_path(links(files, test, ids)[i].0),
        links(files, test, ids)[i].1 == test,
    decreases ids.len(),
{
    if i < links(files, test, ids.drop_last()).len() {
        lemma_links_sides(files, test, ids.drop_last(), i);
    }
}

/// Only test files cover, and only other files are covered.
pub proof fn law_tests_cover_sources(files: Seq<FileRow>, edges: Seq<(i64, i64)>, i: int)
    requires
        0 <= i < coverage(files, edges).len(),
    ensures
        !test_paths::test_path(coverage(files, edges)[i].0),
        test_paths::test_path(coverage(files, edges)[i].1),
{
    lemma_coverage_sides(files, edges, files.len(), i);
}

proof fn lemma_swapped_push(pairs: Seq<(Seq<char>, Seq<char>)>, pair: (Seq<char>, Seq<char>))
    ensures
        swapped(pairs.push(pair)) == swapped(pairs).push((pair.1, pair.0)),
{
}

fn collect_coverage(ctx: &TestGapsCtx<'_>) -> (r: (GroupMap<String>, GroupMap<String>))
    requires
        ctx.well_formed(),
    ensures
        r.0.well_formed(),
        r.1.well_formed(),
        r.0.groups() == group_map::grouped(coverage(ctx.files(), ctx.edges())),
        r.1.groups() == group_map::grouped(swapped(coverage(ctx.files(), ctx.edges()))),
{
    let mut by_source: GroupMap<String> = GroupMap::new();
    let mut by_test: GroupMap<String> = GroupMap::new();
    let ghost mut pairs = Seq::<(Seq<char>, Seq<char>)>::empty();
    let n: usize = ctx.all_files.len();
    let mut i: usize = 0;
    assert(swapped(pairs) == pairs);
    while i < n
        invariant
            ctx.well_formed(),
            n == ctx.files().len(),
            i <= n,
            by_source.well_formed(),
            by_test.well_formed(),
            pairs == coverage_of(ctx.files(), ctx.edges(), i as nat),
            by_source.groups() == group_map::grouped(pairs),
            by_test.groups() == group_map::grouped(swapped(pairs)),
        decreases n - i,
    {
        let file = &ctx.all_files[i];
        if is_test_path(file.path.as_str()) {
            let ids = ctx.imports(file.id);
            let m: usize = ids.len();
            let mut j: usize = 0;
            let ghost start = pairs;
            assert(start + links(ctx.files(), file.path@, ids@.take(0)) == start);
            while j < m
                invariant
                    ctx.well_formed(),
                    m == ids@.len(),
                    j <= m,
                    by_source.well_formed(),
                    by_test.well_formed(),
                    pairs == start + links(ctx.files(), file.path@, ids@.take(j as int)),
                    by_source.groups() == group_map::grouped(pairs),
                    by_test.groups() == group_map::grouped(swapped(pairs)),
                decreases m - j,
            {
                assert(ids@.take(j + 1).drop_last() == ids@.take(j as int));
                match ctx.file(ids[j]) {
                    Some(source) => {
                        if !is_test_path(source.path.as_str()) {
                            by_source.push(source.path.as_str(), file.path.clone());
                            by_test.push(file.path.as_str(), source.path.clone());
                            proof {
                                let pair = (source.path@, file.path@);
                                test_gaps::lemma_grouped_push(pairs, pair);
                                lemma_swapped_push(pairs, pair);
                                test_gaps::lemma_grouped_push(swapped(pairs), (pair.1, pair.0));
                                pairs = pairs.push(pair);
                            }
                        }
                    },
                    None => {},
                }
                assert(pairs == start + links(ctx.files(), file.path@, ids@.take(j + 1)));
                j = j + 1;
            }
            assert(ids@.take(m as int) == ids@);
        }
        i = i + 1;
    }
    (by_source, by_test)
}

/// The exported ones among `symbols`, each by its name and its kind.
pub open spec fn exported_labels(symbols: Seq<SymbolRow>) -> Seq<Seq<char>>
    decreases symbols.len(),
{
    if symbols.len() == 0 {
        Seq::empty()
    } else {
        let rest = exported_labels(symbols.drop_last());
        let symbol = symbols.last();
        if symbol.is_exported {
            rest.push(symbol.name@ + " ("@ + symbol.kind@ + ")"@)
        } else {
            rest
        }
    }
}

/// The section on exported symbols: none where there are none, else the first
/// twenty.
pub open spec fn exported_section(symbols: Seq<SymbolRow>) -> Seq<char> {
    let labels = exported_labels(symbols);
    if labels.len() == 0 {
        Seq::empty()
    } else {
        "\n"@ + text::decimal(labels.len()) + " exported symbols:\n"@ + text::lines(
            "  - "@,
            text::first(labels, 20),
        )
    }
}

fn push_exported_section(out: &mut String, symbols: &Vec<SymbolRow>)
    ensures
        final(out)@ == old(out)@ + exported_section(symbols@),
{
    let n: usize = symbols.len();
    let mut labels: Vec<String> = Vec::new();
    let mut i: usize = 0;
    assert(text::texts(labels@) == Seq::<Seq<char>>::empty());
    while i < n
        invariant
            n == symbols@.len(),
            i <= n,
            text::texts(labels@) == exported_labels(symbols@.take(i as int)),
        decreases n - i,
    {
        assert(symbols@.take(i + 1).drop_last() == symbols@.take(i as int));
        let symbol = &symbols[i];
        if symbol.is_exported {
            let ghost before = labels@;
            let mut label = symbol.name.clone();
            label.append(" (");
            label.append(symbol.kind.as_str());
            label.append(")");
            labels.push(label);
            assert(text::texts(labels@) == text::texts(before).push(label@));
        }
        i = i + 1;
    }
    assert(symbols@.take(n as int) == symbols@);
    let count: usize = labels.len();
    assert(text::texts(labels@).len() == count);
    if count > 0 {
        let mut section = "\n".to_owned();
        push_count(&mut section, count);
        section.append(" exported symbols:\n");
        push_lines(&mut section, "  - ", &labels, 20);
        out.append(section.as_str());
    } else {
        assert(out@ + Seq::<char>::empty() == out@);
    }
}

/// The answer for one file: what a test file imports, or which tests import a
/// source file and, where `symbols` is given, what the source file exports.
pub open spec fn file_report(
    files: Seq<FileRow>,
    edges: Seq<(i64, i64)>,
    rel: Seq<char>,
    symbols: Option<Seq<SymbolRow>>,
    limit: nat,
) -> Seq<char> {
    let pairs = coverage(files, edges);
    if test_paths::test_path(rel) {
        let covered = group_map::values_for(swapped(pairs), rel);
        if covered.len() == 0 {
            "Test file '"@ + rel + "' has no indexed source imports."@
        } else {
            "# Test coverage: "@ + rel + "\n\nImports "@ + text::decimal(covered.len())
                + " source file(s):\n"@ + text::lines("  - "@, text::first(covered, limit))
        }
    } else {
        let covering = group_map::values_for(pairs, rel);
        if covering.len() == 0 {
            "Source file '"@ + rel + "' has no test files importing it."@
        } else {
            "# Test coverage: "@ + rel + "\n\n"@ + text::decimal(covering.len())
                + " test file(s):\n"@ + text::lines("  - "@, text::first(covering, limit)) + (
            match symbols {
                Some(symbols) => exported_section(symbols),
                None => Seq::empty(),
            })
        }
    }
}

/// The file whose symbols an answer for one file shows: a source file that the
/// index knows and that some test imports, where symbols are asked for.
pub open spec fn symbols_wanted(
    files: Seq<FileRow>,
    edges: Seq<(i64, i64)>,
    rel: Seq<char>,
    include_symbols: bool,
) -> Option<i64> {
    if include_symbols && !test_paths::test_path(rel) && group_map::values_for(
        coverage(files, edges),
        rel,
    ).len() > 0 {
        test_gaps::id_by_path(files, rel)
    } else {
        None
    }
}

/// Tells of which file the symbols have to be read for `test_gaps_map`.
pub fn symbols_to_read(ctx: &TestGapsCtx<'_>, rel: &str, include_symbols: bool) -> (r: Option<i64>)
    requires
        ctx.well_formed(),
    ensures
        r == symbols_wanted(ctx.files(), ctx.edges(), rel@, include_symbols),
{
    if !include_symbols || is_test_path(rel) {
        return None;
    }
    let (by_source, _) = collect_coverage(ctx);
    proof {
        group_map::law_read_gives_back_what_was_added(coverage(ctx.files(), ctx.edges()), rel@);
    }
    match by_source.get(rel) {
        Some(tests) => {
            if tests.len() == 0 {
                None
            } else {
                ctx.id_of(rel)
            }
        },
        None => None,
    }
}

/// Tells which tests cover the file `rel`, or what it covers where it is a test.
fn map_file(
    ctx: &TestGapsCtx<'_>,
    rel: &str,
    symbols: Option<&Vec<SymbolRow>>,
    limit: usize,
) -> (r: String)
    requires
        ctx.well_formed(),
    ensures
        r@ == file_report(
            ctx.files(),
            ctx.edges(),
            rel@,
            match symbols {
                Some(symbols) => Some(symbols@),
                None => None,
            },
            limit as nat,
        ),
{
    let (by_source, by_test) = collect_coverage(ctx);
    let ghost pairs = coverage(ctx.files(), ctx.edges());
    proof {
        group_map::law_read_gives_back_what_was_added(pairs, rel@);
        group_map::law_read_gives_back_what_was_added(swapped(pairs), rel@);
    }
    let none: Vec<String> = Vec::new();
    if is_test_path(rel) {
        let covered = match by_test.get(rel) {
            Some(list) => list,
            None => &none,
        };
        assert(text::texts(covered@) == group_map::values_for(swapped(pairs), rel@));
        let count: usize = covered.len();
        if count == 0 {
            let mut out = "Test file '".to_owned();
            out.append(rel);
            out.append("' has no indexed source imports.");
            return out;
        }
        let mut out = "# Test coverage: ".to_owned();
        out.append(rel);
        out.append("\n\nImports ");
        push_count(&mut out, count);
        out.append(" source file(s):\n");
        push_lines(&mut out, "  - ", covered, limit);
        return out;
    }
    let covering = match by_source.get(rel) {
        Some(list) => list,
        None => &none,
    };
    assert(text::texts(covering@) == group_map::values_for(pairs, rel@));
    let count: usize = covering.len();
    if count == 0 {
        let mut out = "Source file '".to_owned();
        out.append(rel);
        out.append("' has no test files importing it.");
        return out;
    }
    let mut out = "# Test coverage: ".to_owned();
    out.append(rel);
    out.append("\n\n");
    push_count(&mut out, count);
    out.append(" test file(s):\n");
    push_lines(&mut out, "  - ", covering, limit);
    match symbols {
        Some(symbols) => {
            push_exported_section(&mut out, symbols);
        },
        None => {
            assert(out@ + Seq::<char>::empty() == out@);
        },
    }
    out
}

/// The rows of the short overview: each path with a number of tests.
pub open spec fn short_rows(entries: Seq<(Seq<char>, Seq<Seq<char>>)>) -> Seq<char>
    decreases entries.len(),
{
    if entries.len() == 0 {
        Seq::empty()
    } else {
        short_rows(entries.drop_last()) + ("  "@ + entries.last().0 + " ("@ + text::decimal(
            entries.last().1.len(),
        ) + ")\n"@)
    }
}

/// A row of the long overview: a path, and up to five of its tests.
pub open spec fn long_row(entry: (Seq<char>, Seq<Seq<char>>)) -> Seq<char> {
    "- "@ + entry.0 + " ("@ + text::decimal(entry.1.len()) + " tests)\n"@ + text::lines(
        "    - "@,
        text::first(entry.1, 5),
    ) + test_gaps::more_than_five(entry.1.len())
}

/// The rows of the long overview.
pub open spec fn long_rows(entries: Seq<(Seq<char>, Seq<Seq<char>>)>) -> Seq<char>
    decreases entries.len(),
{
    if entries.len() == 0 {
        Seq::empty()
    } else {
        long_rows(entries.drop_last()) + long_row(entries.last())
    }
}

/// The covered source files, those with most tests first.
pub open spec fn covered_files(files: Seq<FileRow>, edges: Seq<(i64, i64)>) -> Seq<
    (Seq<char>, Seq<Seq<char>>),
> {
    order::ranked::<Group<String>>(group_map::grouped(coverage(files, edges)))
}

/// The overview of all covered source files.
pub open spec fn map_report(
    files: Seq<FileRow>,
    edges: Seq<(i64, i64)>,
    limit: nat,
    concise: bool,
) -> Seq<char> {
    let entries = covered_files(files, edges);
    let shown = text::first(entries, limit);
    "# Test-to-source mapping\n\n"@ + text::decimal(entries.len()) + "/"@ + text::decimal(
        (files.len() - test_gaps::test_count(files)) as nat,
    ) + " source files covered by "@ + text::decimal(test_gaps::test_count(files)) + " test files\n\n"@ + (
    if concise {
        short_rows(shown)
    } else {
        long_rows(shown)
    }) + (if entries.len() > limit {
        "\n... and "@ + text::decimal((entries.len() - limit) as nat)
            + " more (use limit= to see more)\n"@
    } else {
        Seq::empty()
    })
}

fn push_map_rows(out: &mut String, entries: &Vec<Group<String>>, limit: usize, concise: bool)
    ensures
        final(out)@ == old(out)@ + (if concise {
            short_rows(text::first(order::views(entries@), limit as nat))
        } else {
            long_rows(text::first(order::views(entries@), limit as nat))
        }),
{
    let all: usize = entries.len();
    let n: usize = if limit < all {
        limit
    } else {
        all
    };
    let ghost start = out@;
    let ghost shown = order::views(entries@);
    let mut i: usize = 0;
    assert(start + Seq::<char>::empty() == start);
    while i < n
        invariant
            n <= entries@.len(),
            shown == order::views(entries@),
            i <= n,
            concise ==> out@ == start + short_rows(shown.take(i as int)),
            !concise ==> out@ == start + long_rows(shown.take(i as int)),
        decreases n - i,
    {
        let entry = &entries[i];
        let count: usize = entry.values.len();
        proof {
            assert(shown.take(i + 1).drop_last() == shown.take(i as int));
            assert(shown.take(i + 1).last() == (entry.key@, order::views(entry.values@)));
            assert(order::views(entry.values@) == text::texts(entry.values@));
        }
        if concise {
            let mut line = "  ".to_owned();
            line.append(entry.key.as_str());
            line.append(" (");
            push_count(&mut line, count);
            line.append(")\n");
            out.append(line.as_str());
            assert(out@ == start + short_rows(shown.take(i + 1)));
        } else {
            let mut row = "- ".to_owned();
            row.append(entry.key.as_str());
            row.append(" (");
            push_count(&mut row, count);
            row.append(" tests)\n");
            push_lines(&mut row, "    - ", &entry.values, 5);
            push_more_than_five(&mut row, count);
            out.append(row.as_str());
            assert(out@ == start + long_rows(shown.take(i + 1)));
        }
        i = i + 1;
    }
    assert(text::first(shown, limit as nat) == shown.take(n as int));
}

/// Tells which tests cover which source files.
fn map_all(ctx: &TestGapsCtx<'_>, limit: usize, concise: bool) -> (r: String)
    requires
        ctx.well_formed(),
    ensures
        r@ == map_report(ctx.files(), ctx.edges(), limit as nat, concise),
{
    let (by_source, _) = collect_coverage(ctx);
    let entries = sort(by_source.into_groups());
    let covered: usize = entries.len();
    let tests = count_tests(ctx.all_files);
    assert(order::views(entries@).len() == covered);
    let mut out = "# Test-to-source mapping\n\n".to_owned();
    push_count(&mut out, covered);
    out.append("/");
    push_count(&mut out, ctx.all_files.len() - tests);
    out.append(" source files covered by ");
    push_count(&mut out, tests);
    out.append(" test files\n\n");
    push_map_rows(&mut out, &entries, limit, concise);
    if covered > limit {
        let mut line = "\n... and ".to_owned();
        push_count(&mut line, covered - limit);
        line.append(" more (use limit= to see more)\n");
        out.append(line.as_str());
    } else {
        assert(out@ + Seq::<char>::empty() == out@);
    }
    out
}

/// Answers for the file `rel`, or for all files where none is given. `symbols`
/// are those of the file that `symbols_to_read` names, if it names one.
pub fn test_gaps_map(
    ctx: &TestGapsCtx<'_>,
    rel: Option<&str>,
    symbols: Option<&Vec<SymbolRow>>,
    limit: usize,
    concise: bool,
) -> (r: String)
    requires
        ctx.well_formed(),
    ensures
        r@ == match rel {
            Some(rel) => file_report(
                ctx.files(),
                ctx.edges(),
                rel@,
                match symbols {
                    Some(symbols) => Some(symbols@),
                    None => None,
                },
                limit as nat,
            ),
            None => map_report(ctx.files(), ctx.edges(), limit as nat, concise),
        },
{
    match rel {
        Some(rel) => map_file(ctx, rel, symbols, limit),
        None => map_all(ctx, limit, concise),
    }
}

proof fn lemma_links_hold(
    files: Seq<FileRow>,
    test: Seq<char>,
    ids: Seq<i64>,
    source: Seq<char>,
    other: Seq<char>,
)
    ensures
        links(files, test, ids).contains((source, other)) <==> other == test
            && !test_paths::test_path(source) && exists|k: int|
            0 <= k < ids.len() && test_gaps::file_by_id(files, #[trigger] ids[k]) is Some
                && test_gaps::file_by_id(files, ids[k])->0.path@ == source,
    decreases ids.len(),
{
    if ids.len() > 0 {
        let rest = ids.drop_last();
        lemma_links_hold(files, test, rest, source, other);
        assert(ids[ids.len() - 1] == ids.last());
        if let Some(file) = test_gaps::file_by_id(files, ids.last()) {
            order::lemma_contains_push(
                links(files, test, rest),
                (file.path@, test),
                (source, other),
            );
        }
        if exists|k: int|
            0 <= k < rest.len() && test_gaps::file_by_id(files, #[trigger] rest[k]) is Some
                && test_gaps::file_by_id(files, rest[k])->0.path@ == source {
            let k = choose|k: int|
                0 <= k < rest.len() && test_gaps::file_by_id(files, #[trigger] rest[k]) is Some
                    && test_gaps::file_by_id(files, rest[k])->0.path@ == source;
            assert(ids[k] == rest[k]);
        }
        if exists|k: int|
            0 <= k < ids.len() && test_gaps::file_by_id(files, #[trigger] ids[k]) is Some
                && test_gaps::file_by_id(files, ids[k])->0.path@ == source {
            let k = choose|k: int|
                0 <= k < ids.len() && test_gaps::file_by_id(files, #[trigger] ids[k]) is Some
                    && test_gaps::file_by_id(files, ids[k])->0.path@ == source;
            if k < rest.len() {
                assert(rest[k] == ids[k]);
            }
        }
    }
}

/// Whether the file at `i` is a test file at `test` from which an edge leads to a
/// source file at `source`.
pub open spec fn covers(
    files: Seq<FileRow>,
    edges: Seq<(i64, i64)>,
    i: int,
    test: Seq<char>,
    source: Seq<char>,
) -> bool {
    &&& files[i].path@ == test
    &&& test_paths::test_path(test)
    &&& !test_paths::test_path(source)
    &&& exists|to: i64| #[trigger]
        edges.contains((files[i].id, to)) && to != files[i].id && test_gaps::file_by_id(files, to)
            is Some && test_gaps::file_by_id(files, to)->0.path@ == source
}

proof fn lemma_coverage_holds(
    files: Seq<FileRow>,
    edges: Seq<(i64, i64)>,
    n: nat,
    source: Seq<char>,
    test: Seq<char>,
)
    requires
        n <= files.len(),
    ensures
        coverage_of(files, edges, n).contains((source, test)) <==> exists|i: int|
            0 <= i < n && #[trigger] covers(files, edges, i, test, source),
    decreases n,
{
    if n > 0 {
        let m = (n - 1) as nat;
        lemma_coverage_holds(files, edges, m, source, test);
        let rest = coverage_of(files, edges, m);
        let all = coverage_of(files, edges, n);
        let file = files[m as int];
        let ids = test_gaps::targets(edges, file.id);
        let own = links(files, file.path@, ids);
        lemma_links_hold(files, file.path@, ids, source, test);
        assert forall|to: i64| #[trigger]
            edges.contains((file.id, to)) && to != file.id <==> ids.contains(to) by {
            test_gaps::lemma_edges_hold(edges, file.id, to);
        }
        if test_paths::test_path(file.path@) {
            if own.contains((source, test)) {
                let k = choose|k: int|
                    0 <= k < ids.len() && test_gaps::file_by_id(files, #[trigger] ids[k]) is Some
                        && test_gaps::file_by_id(files, ids[k])->0.path@ == source;
                assert(ids.contains(ids[k]));
                assert(edges.contains((file.id, ids[k])));
                assert(covers(files, edges, m as int, test, source));
                let j = choose|j: int| 0 <= j < own.len() && own[j] == (source, test);
                assert(all[rest.len() + j] == (source, test));
            }
            if rest.contains((source, test)) {
                let j = choose|j: int| 0 <= j < rest.len() && rest[j] == (source, test);
                assert(all[j] == (source, test));
            }
            if all.contains((source, test)) && !rest.contains((source, test)) {
                let j = choose|j: int| 0 <= j < all.len() && all[j] == (source, test);
                if j < rest.len() {
                    assert(rest[j] == (source, test));
                }
                assert(own[j - rest.len()] == (source, test));
            }
        }
        if covers(files, edges, m as int, test, source) {
            let to = choose|to: i64| #[trigger]
                edges.contains((file.id, to)) && to != file.id && test_gaps::file_by_id(files, to)
                    is Some && test_gaps::file_by_id(files, to)->0.path@ == source;
            assert(ids.contains(to));
            let k = choose|k: int| 0 <= k < ids.len() && ids[k] == to;
            assert(test_gaps::file_by_id(files, ids[k]) is Some);
        }
        if exists|i: int| 0 <= i < n && #[trigger] covers(files, edges, i, test, source) {
            let i = choose|i: int| 0 <= i < n && #[trigger] covers(files, edges, i, test, source);
            if i < m {
                assert(rest.contains((source, test)));
            }
        }
    }
}

/// A test covers a source file exactly when an edge leads from a file at the path of
/// the test to a file at the path of the source. The map lists every such test for
/// the source file, and every such source file for the test.
pub proof fn law_coverage_is_imports(
    files: Seq<FileRow>,
    edges: Seq<(i64, i64)>,
    source: Seq<char>,
    test: Seq<char>,
)
    ensures
        group_map::values_for(coverage(files, edges), source).contains(test) <==> exists|i: int|
            0 <= i < files.len() && #[trigger] covers(files, edges, i, test, source),
        group_map::values_for(swapped(coverage(files, edges)), test).contains(source)
            <==> group_map::values_for(coverage(files, edges), source).contains(test),
{
    let pairs = coverage(files, edges);
    lemma_coverage_holds(files, edges, files.len(), source, test);
    group_map::law_values_for(pairs, Seq::empty(), source, test);
    group_map::law_values_for(swapped(pairs), Seq::empty(), test, source);
    if pairs.contains((source, test)) {
        let k = choose|k: int| 0 <= k < pairs.len() && pairs[k] == (source, test);
        assert(swapped(pairs)[k] == (test, source));
    }
    if swapped(pairs).contains((test, source)) {
        let k = choose|k: int| 0 <= k < pairs.len() && swapped(pairs)[k] == (test, source);
        assert(pairs[k] == (source, test));
    }
}

/// The overview has one entry for each covered source file, with all its tests.
pub proof fn law_every_covered_file_is_listed(
    files: Seq<FileRow>,
    edges: Seq<(i64, i64)>,
    source: Seq<char>,
    tests: Seq<Seq<char>>,
)
    ensures
        covered_files(files, edges).contains((source, tests)) <==> tests.len() > 0 && tests
            == group_map::values_for(coverage(files, edges), source),
{
    let pairs = coverage(files, edges);
    group_map::law_groups_are_complete(pairs, source, tests);
    group_map::lemma_ranked_holds::<String>(group_map::grouped(pairs), (source, tests));
}

/// The exported symbols of a file are labelled by their names and kinds, in order,
/// and no others are.
pub proof fn law_exported_labels(symbols: Seq<SymbolRow>, more: Seq<SymbolRow>, symbol: SymbolRow)
    ensures
        exported_labels(symbols + more) == exported_labels(symbols) + exported_labels(more),
        exported_labels(seq![symbol]) == if symbol.is_exported {
            seq![symbol.name@ + " ("@ + symbol.kind@ + ")"@]
        } else {
            Seq::empty()
        },
    decreases more.len(),
{
    assert(seq![symbol].drop_last() == Seq::<SymbolRow>::empty());
    assert(seq![symbol].last() == symbol);
    reveal_with_fuel(exported_labels, 2);
    if more.len() == 0 {
        assert(symbols + more == symbols);
        assert(exported_labels(symbols) + exported_labels(more) == exported_labels(symbols));
    } else {
        law_exported_labels(symbols, more.drop_last(), symbol);
        assert((symbols + more).drop_last() == symbols + more.drop_last());
        assert((symbols + more).last() == more.last());
        assert(exported_labels(symbols + more) == exported_labels(symbols) + exported_labels(more));
    }
}

/// The symbols of a file are read exactly where they are asked for, and where the
/// file is a source file that some test imports.
pub proof fn law_symbols_wanted(
    files: Seq<FileRow>,
    edges: Seq<(i64, i64)>,
    rel: Seq<char>,
    include_symbols: bool,
)
    ensures
        symbols_wanted(files, edges, rel, include_symbols) is Some <==> include_symbols
            && !test_paths::test_path(rel) && test_gaps::id_by_path(files, rel) is Some && exists|
            test: Seq<char>,
        | #[trigger]
            group_map::values_for(coverage(files, edges), rel).contains(test),
        symbols_wanted(files, edges, rel, include_symbols) matches Some(id) ==> Some(id)
            == test_gaps::id_by_path(files, rel),
{
    let tests = group_map::values_for(coverage(files, edges), rel);
    if tests.len() > 0 {
        assert(tests.contains(tests[0]));
    }
}

proof fn lemma_entry_shown(entries: Seq<(Seq<char>, Seq<Seq<char>>)>, k: int)
    requires
        0 <= k < entries.len(),
    ensures
        text::contains_text(
            short_rows(entries),
            "  "@ + entries[k].0 + " ("@ + text::decimal(entries[k].1.len()) + ")\n"@,
        ),
        text::contains_text(long_rows(entries), long_row(entries[k])),
    decreases entries.len(),
{
    let rest = entries.drop_last();
    let last = entries.last();
    let own = "  "@ + last.0 + " ("@ + text::decimal(last.1.len()) + ")\n"@;
    let empty = Seq::<char>::empty();
    if k < rest.len() {
        lemma_entry_shown(rest, k);
        assert(rest[k] == entries[k]);
        text::lemma_grows(
            short_rows(rest),
            own,
            "  "@ + entries[k].0 + " ("@ + text::decimal(entries[k].1.len()) + ")\n"@,
        );
        text::lemma_grows(long_rows(rest), long_row(last), long_row(entries[k]));
    } else {
        text::lemma_holds(short_rows(rest), own, empty);
        assert(short_rows(rest) + own + empty == short_rows(entries));
        text::lemma_holds(long_rows(rest), long_row(last), empty);
        assert(long_rows(rest) + long_row(last) + empty == long_rows(entries));
    }
}

/// The overview shows the first `limit` of the covered files, each with the number of
/// its tests, and says how many more there are.
#[verifier::rlimit(50)]
pub proof fn law_overview_shows_covered_files(
    files: Seq<FileRow>,
    edges: Seq<(i64, i64)>,
    limit: nat,
    k: int,
)
    requires
        0 <= k < covered_files(files, edges).len(),
        k < limit,
    ensures
        ({
            let (source, tests) = covered_files(files, edges)[k];
            let count = text::decimal(tests.len());
            &&& text::contains_text(
                map_report(files, edges, limit, true),
                "  "@ + source + " ("@ + count + ")\n"@,
            )
            &&& text::contains_text(
                map_report(files, edges, limit, false),
                "- "@ + source + " ("@ + count + " tests)\n"@,
            )
            &&& forall|j: int|
                0 <= j < tests.len() && j < 5 ==> text::contains_text(
                    map_report(files, edges, limit, false),
                    "    - "@ + #[trigger] tests[j] + "\n"@,
                )
        }),
{
    let entries = covered_files(files, edges);
    let (source, tests) = entries[k];
    let shown = text::first(entries, limit);
    assert(shown[k] == entries[k]);
    lemma_entry_shown(shown, k);
    let count = text::decimal(tests.len());
    let line = "  "@ + source + " ("@ + count + ")\n"@;
    let title = "- "@ + source + " ("@ + count + " tests)\n"@;
    let row = long_row(entries[k]);
    let listed = text::lines("    - "@, text::first(tests, 5));
    let more = test_gaps::more_than_five(tests.len());
    let empty = Seq::<char>::empty();
    text::lemma_holds(empty, title, listed);
    assert(empty + title == title);
    text::lemma_grows(title + listed, more, title);
    lemma_rows_in_overview(files, edges, limit, true);
    lemma_rows_in_overview(files, edges, limit, false);
    text::lemma_holds_within(map_report(files, edges, limit, true), short_rows(shown), line);
    text::lemma_holds_within(map_report(files, edges, limit, false), long_rows(shown), row);
    text::lemma_holds_within(map_report(files, edges, limit, false), row, title);
    assert forall|j: int| 0 <= j < tests.len() && j < 5 implies text::contains_text(
        map_report(files, edges, limit, false),
        "    - "@ + #[trigger] tests[j] + "\n"@,
    ) by {
        let item = "    - "@ + tests[j] + "\n"@;
        assert(text::first(tests, 5)[j] == tests[j]);
        text::law_every_text_has_a_line("    - "@, text::first(tests, 5), j);
        text::lemma_grows(listed, title, item);
        text::lemma_grows(title + listed, more, item);
        text::lemma_holds_within(map_report(files, edges, limit, false), row, item);
    }
}

proof fn lemma_rows_in_overview(
    files: Seq<FileRow>,
    edges: Seq<(i64, i64)>,
    limit: nat,
    concise: bool,
)
    ensures
        text::contains_text(
            map_report(files, edges, limit, concise),
            if concise {
                short_rows(text::first(covered_files(files, edges), limit))
            } else {
                long_rows(text::first(covered_files(files, edges), limit))
            },
        ),
{
    let entries = covered_files(files, edges);
    let shown = text::first(entries, limit);
    let rows = if concise {
        short_rows(shown)
    } else {
        long_rows(shown)
    };
    let head = "# Test-to-source mapping\n\n"@ + text::decimal(entries.len()) + "/"@
        + text::decimal((files.len() - test_gaps::test_count(files)) as nat)
        + " source files covered by "@ + text::decimal(test_gaps::test_count(files))
        + " test files\n\n"@;
    let tail = if entries.len() > limit {
        "\n... and "@ + text::decimal((entries.len() - limit) as nat)
            + " more (use limit= to see more)\n"@
    } else {
        Seq::empty()
    };
    text::lemma_holds(head, rows, tail);
}

/// The answer for a source file lists the first `limit` of its tests, and the answer
/// for a test file the first `limit` of the source files that it imports.
#[verifier::rlimit(50)]
pub proof fn law_file_answer_lists_the_other_side(
    files: Seq<FileRow>,
    edges: Seq<(i64, i64)>,
    rel: Seq<char>,
    symbols: Option<Seq<SymbolRow>>,
    limit: nat,
    k: int,
)
    ensures
        ({
            let tests = group_map::values_for(coverage(files, edges), rel);
            let sources = group_map::values_for(swapped(coverage(files, edges)), rel);
            let answer = file_report(files, edges, rel, symbols, limit);
            &&& !test_paths::test_path(rel) && 0 <= k < tests.len() && k < limit
                ==> text::contains_text(answer, "  - "@ + tests[k] + "\n"@)
            &&& test_paths::test_path(rel) && 0 <= k < sources.len() && k < limit
                ==> text::contains_text(answer, "  - "@ + sources[k] + "\n"@)
            &&& !test_paths::test_path(rel) && tests.len() == 0 ==> answer == "Source file '"@ + rel
                + "' has no test files importing it."@
            &&& test_paths::test_path(rel) && sources.len() == 0 ==> answer == "Test file '"@ + rel
                + "' has no indexed source imports."@
        }),
{
    let tests = group_map::values_for(coverage(files, edges), rel);
    let sources = group_map::values_for(swapped(coverage(files, edges)), rel);
    let empty = Seq::<char>::empty();
    if !test_paths::test_path(rel) && 0 <= k < tests.len() && k < limit {
        let shown = text::first(tests, limit);
        assert(shown[k] == tests[k]);
        text::law_every_text_has_a_line("  - "@, shown, k);
        let head = "# Test coverage: "@ + rel + "\n\n"@ + text::decimal(tests.len())
            + " test file(s):\n"@;
        let tail = match symbols {
            Some(symbols) => exported_section(symbols),
            None => Seq::empty(),
        };
        text::lemma_grows(text::lines("  - "@, shown), head, "  - "@ + tests[k] + "\n"@);
        text::lemma_grows(head + text::lines("  - "@, shown), tail, "  - "@ + tests[k] + "\n"@);
    }
    if test_paths::test_path(rel) && 0 <= k < sources.len() && k < limit {
        let shown = text::first(sources, limit);
        assert(shown[k] == sources[k]);
        text::law_every_text_has_a_line("  - "@, shown, k);
        let head = "# Test coverage: "@ + rel + "\n\nImports "@ + text::decimal(sources.len())
            + " source file(s):\n"@;
        text::lemma_grows(text::lines("  - "@, shown), head, "  - "@ + sources[k] + "\n"@);
    }
}

/// The section on exported symbols counts all of them and shows the first twenty; it
/// is left out where there are none.
pub proof fn law_exported_section(symbols: Seq<SymbolRow>, k: int)
    ensures
        ({
            let labels = exported_labels(symbols);
            &&& labels.len() == 0 ==> exported_section(symbols).len() == 0
            &&& labels.len() > 0 ==> ("\n"@ + text::decimal(labels.len())
                + " exported symbols:\n"@).is_prefix_of(exported_section(symbols))
            &&& 0 <= k < labels.len() && k < 20 ==> text::contains_text(
                exported_section(symbols),
                "  - "@ + labels[k] + "\n"@,
            )
        }),
{
    let labels = exported_labels(symbols);
    let shown = text::first(labels, 20);
    let head = "\n"@ + text::decimal(labels.len()) + " exported symbols:\n"@;
    text::lemma_starts(head, text::lines("  - "@, shown));
    if 0 <= k < labels.len() && k < 20 {
        assert(shown[k] == labels[k]);
        text::law_every_text_has_a_line("  - "@, shown, k);
        text::lemma_grows(text::lines("  - "@, shown), head, "  - "@ + labels[k] + "\n"@);
    }
}

/// The overview starts with the number of covered source files, the number of all of
/// them, and the number of test files.
pub proof fn law_overview_counts(
    files: Seq<FileRow>,
    edges: Seq<(i64, i64)>,
    limit: nat,
    concise: bool,
)
    ensures
        ("# Test-to-source mapping\n\n"@ + text::decimal(covered_files(files, edges).len())
            + "/"@ + text::decimal((files.len() - test_gaps::test_count(files)) as nat)
            + " source files covered by "@ + text::decimal(test_gaps::test_count(files))
            + " test files\n\n"@).is_prefix_of(map_report(files, edges, limit, concise)),
{
    let entries = covered_files(files, edges);
    let shown = text::first(entries, limit);
    let rows = if concise {
        short_rows(shown)
    } else {
        long_rows(shown)
    };
    let head = "# Test-to-source mapping\n\n"@ + text::decimal(entries.len()) + "/"@
        + text::decimal((files.len() - test_gaps::test_count(files)) as nat)
        + " source files covered by "@ + text::decimal(test_gaps::test_count(files))
        + " test files\n\n"@;
    let tail = if entries.len() > limit {
        "\n... and "@ + text::decimal((entries.len() - limit) as nat)
            + " more (use limit= to see more)\n"@
    } else {
        Seq::empty()
    };
    text::lemma_starts(head, rows + tail);
    assert(head + rows + tail == head + (rows + tail));
}

}
