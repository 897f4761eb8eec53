//! The tests to run for a change.
use vstd::prelude::*;

use crate::group_map;
use crate::group_map::{Group, GroupMap};
use crate::order;
use crate::order::sort;
use crate::server::tools::test_gaps;
use crate::server::tools::test_gaps::{push_more_than_five, TestGapsCtx};
use crate::storage::models::FileRow;
use crate::test_paths;
use crate::test_paths::is_test_path;
use crate::text;
use crate::text::{push_count, push_lines, same};

verus! {

/// What is known of a changed file besides its imports.
#[derive(Debug)]
pub struct Evidence {
    /// The paths of the files that change together with it.
    pub cochanges: Vec<String>,
    /// Whether it holds tests of its own.
    pub inline_tests: bool,
}

/// The paths of the test files among `ids`.
pub open spec fn importing_tests(files: Seq<FileRow>, ids: Seq<i64>) -> Seq<Seq<char>>
    decreases ids.len(),
{
    if ids.len() == 0 {
        Seq::empty()
    } else {
        let rest = importing_tests(files, ids.drop_last());
        match test_gaps::file_by_id(files, ids.last()) {
            Some(file) => if test_paths::test_path(file.path@) {
                rest.push(file.path@)
            } else {
                rest
            },
            None => rest,
        }
    }
}

/// `found` with the test files among `partners` that it lacks.
pub open spec fn with_partners(found: Seq<Seq<char>>, partners: Seq<Seq<char>>) -> Seq<Seq<char>>
    decreases partners.len(),
{
    if partners.len() == 0 {
        found
    } else {
        let rest = with_partners(found, partners.drop_last());
        if test_paths::test_path(partners.last()) && !rest.contains(partners.last()) {
            rest.push(partners.last())
        } else {
            rest
        }
    }
}

/// The tests of the file `id`: those that import it, then those that change
/// together with it.
pub open spec fn tests_for(
    files: Seq<FileRow>,
    edges: Seq<(i64, i64)>,
    id: i64,
    evidence: Evidence,
) -> Seq<Seq<char>> {
    with_partners(
        importing_tests(files, test_gaps::sources(edges, id)),
        text::texts(evidence.cochanges@),
    )
}

/// Each of `tests` paired with `source`.
pub open spec fn each_with(tests: Seq<Seq<char>>, source: Seq<char>) -> Seq<
    (Seq<char>, Seq<char>),
> {
    Seq::new(tests.len(), |i: int| (tests[i], source))
}

/// The pairs of a test and a source file that it covers, for the source files
/// among the first `n` changed files.
pub open spec fn run_pairs(
    files: Seq<FileRow>,
    edges: Seq<(i64, i64)>,
    changed: Seq<Seq<char>>,
    evidence: Seq<Evidence>,
    n: nat,
) -> Seq<(Seq<char>, Seq<char>)>
    decreases n,
{
    if n == 0 {
        Seq::empty()
    } else {
        let rest = run_pairs(files, edges, changed, evidence, (n - 1) as nat);
        let path = changed[n - 1];
        match test_gaps::id_by_path(files, path) {
            Some(id) => if test_paths::test_path(path) {
                rest
            } else {
                rest + each_with(tests_for(files, edges, id, evidence[n - 1]), path)
            },
            None => rest,
        }
    }
}

/// The source files among the first `n` changed files that need new tests: the
/// index does not know them, or they have no test and hold none.
pub open spec fn untested(
    files: Seq<FileRow>,
    edges: Seq<(i64, i64)>,
    changed: Seq<Seq<char>>,
    evidence: Seq<Evidence>,
    n: nat,
) -> Seq<Seq<char>>
    decreases n,
{
    if n == 0 {
        Seq::empty()
    } else {
        let rest = untested(files, edges, changed, evidence, (n - 1) as nat);
        let path = changed[n - 1];
        if test_paths::test_path(path) {
            rest
        } else {
            match test_gaps::id_by_path(files, path) {
                Some(id) => if tests_for(files, edges, id, evidence[n - 1]).len() == 0
                    && !evidence[n - 1].inline_tests {
                    rest.push(path)
                } else {
                    rest
                },
                None => rest.push(path),
            }
        }
    }
}

/// The source files among the first `n` changed files that the index knows.
pub open spec fn known_sources(files: Seq<FileRow>, changed: Seq<Seq<char>>, n: nat) -> Seq<
    Seq<char>,
>
    decreases n,
{
    if n == 0 {
        Seq::empty()
    } else {
        let rest = known_sources(files, changed, (n - 1) as nat);
        let path = changed[n - 1];
        if !test_paths::test_path(path) && test_gaps::id_by_path(files, path) is Some {
            rest.push(path)
        } else {
            rest
        }
    }
}

/// The test files among the first `n` changed files.
pub open spec fn changed_tests(changed: Seq<Seq<char>>, n: nat) -> Seq<Seq<char>>
    decreases n,
{
    if n == 0 {
        Seq::empty()
    } else {
        let rest = changed_tests(changed, (n - 1) as nat);
        if test_paths::test_path(changed[n - 1]) {
            rest.push(changed[n - 1])
        } else {
            rest
        }
    }
}

/// `pairs`, with a pair of its own for each of `tests` that has none yet.
pub open spec fn with_direct(
    pairs: Seq<(Seq<char>, Seq<char>)>,
    tests: Seq<Seq<char>>,
) -> Seq<(Seq<char>, Seq<char>)>
    decreases tests.len(),
{
    if tests.len() == 0 {
        pairs
    } else {
        let rest = with_direct(pairs, tests.drop_last());
        if group_map::values_for(rest, tests.last()).len() == 0 {
            rest.push((tests.last(), "(directly changed)"@))
        } else {
            rest
        }
    }
}

/// The tests to run for a change, those that cover most first.
pub open spec fn tests_to_run(
    files: Seq<FileRow>,
    edges: Seq<(i64, i64)>,
    changed: Seq<Seq<char>>,
    evidence: Seq<Evidence>,
) -> Seq<(Seq<char>, Seq<Seq<char>>)> {
    order::ranked::<Group<String>>(
        group_map::grouped(
            with_direct(
                run_pairs(files, edges, changed, evidence, changed.len()),
                changed_tests(changed, changed.len()),
            ),
        ),
    )
}

/// The rows of the short list of tests to run.
pub open spec fn short_run_rows(entries: Seq<(Seq<char>, Seq<Seq<char>>)>) -> Seq<char>
    decreases entries.len(),
{
    if entries.len() == 0 {
        Seq::empty()
    } else {
        short_run_rows(entries.drop_last()) + ("  "@ + entries.last().0 + " (covers "@
            + text::decimal(entries.last().1.len()) + ")\n"@)
    }
}

/// A row of the long list of tests to run.
pub open spec fn long_run_row(entry: (Seq<char>, Seq<Seq<char>>)) -> Seq<char> {
    "- "@ + entry.0 + "\n"@ + text::lines("    covers: "@, text::first(entry.1, 5))
        + test_gaps::more_than_five(entry.1.len())
}

/// The rows of the long list of tests to run.
pub open spec fn long_run_rows(entries: Seq<(Seq<char>, Seq<Seq<char>>)>) -> Seq<char>
    decreases entries.len(),
{
    if entries.len() == 0 {
        Seq::empty()
    } else {
        long_run_rows(entries.drop_last()) + long_run_row(entries.last())
    }
}

/// The section on the tests to run.
pub open spec fn run_section(
    entries: Seq<(Seq<char>, Seq<Seq<char>>)>,
    limit: nat,
    concise: bool,
) -> Seq<char> {
    if entries.len() == 0 {
        Seq::empty()
    } else {
        "## Tests to run ("@ + text::decimal(entries.len()) + " test files)\n"@ + (if concise {
            short_run_rows(text::first(entries, limit))
        } else {
            long_run_rows(text::first(entries, limit))
        }) + "\n"@
    }
}

/// The section on the changes without tests.
pub open spec fn untested_section(paths: Seq<Seq<char>>, limit: nat) -> Seq<char> {
    if paths.len() == 0 {
        Seq::empty()
    } else {
        "## Untested changes ("@ + text::decimal(paths.len())
            + " source files need new tests)\n"@ + text::lines("  - "@, text::first(paths, limit))
    }
}

/// The answer that says which tests to run for a change.
pub open spec fn suggest_report(
    files: Seq<FileRow>,
    edges: Seq<(i64, i64)>,
    base: Seq<char>,
    changed: Seq<Seq<char>>,
    evidence: Seq<Evidence>,
    limit: nat,
    concise: bool,
) -> Seq<char> {
    if changed.len() == 0 {
        "No files changed in range '"@ + base + "'."@
    } else {
        let tests = changed_tests(changed, changed.len()).len();
        let entries = tests_to_run(files, edges, changed, evidence);
        let open = untested(files, edges, changed, evidence, changed.len());
        "# Test suggestion for "@ + base + "\n\n"@ + text::decimal(changed.len())
            + " changed files ("@ + text::decimal((changed.len() - tests) as nat) + " source, "@
            + text::decimal(tests) + " test)\n\n"@ + (if entries.len() == 0 && open.len() == 0 {
            "No test files found for the changed source files.\n"@
        } else {
            run_section(entries, limit, concise) + untested_section(open, limit)
        })
    }
}

fn holds_text(list: &Vec<String>, item: &str) -> (r: bool)
    ensures
        r == text::texts(list@).contains(item@),
{
    let n: usize = list.len();
    let mut i: usize = 0;
    while i < n
        invariant
            n == list@.len(),
            i <= n,
            forall|k: int| 0 <= k < i ==> #[trigger] text::texts(list@)[k] != item@,
        decreases n - i,
    {
        if same(list[i].as_str(), item) {
            assert(text::texts(list@)[i as int] == item@);
            return true;
        }
        i = i + 1;
    }
    false
}

fn collect_tests(ctx: &TestGapsCtx<'_>, id: i64, evidence: &Evidence) -> (r: Vec<String>)
    requires
        ctx.well_formed(),
    ensures
        text::texts(r@) == tests_for(ctx.files(), ctx.edges(), id, *evidence),
{
    let mut found: Vec<String> = Vec::new();
    let ids = ctx.importers(id);
    let n: usize = ids.len();
    let mut i: usize = 0;
    assert(text::texts(found@) == Seq::<Seq<char>>::empty());
    while i < n
        invariant
            ctx.well_formed(),
            n == ids@.len(),
            i <= n,
            text::texts(found@) == importing_tests(ctx.files(), ids@.take(i as int)),
        decreases n - i,
    {
        assert(ids@.take(i + 1).drop_last() == ids@.take(i as int));
        match ctx.file(ids[i]) {
            Some(file) => {
                if is_test_path(file.path.as_str()) {
                    proof {
                        text::lemma_texts_push(found@, file.path);
                    }
                    found.push(file.path.clone());
                }
            },
            None => {},
        }
        i = i + 1;
    }
    assert(ids@.take(n as int) == ids@);
    let ghost start = text::texts(found@);
    let ghost partners = text::texts(evidence.cochanges@);
    let m: usize = evidence.cochanges.len();
    let mut j: usize = 0;
    assert(with_partners(start, partners.take(0)) == start);
    while j < m
        invariant
            m == evidence.cochanges@.len(),
            partners == text::texts(evidence.cochanges@),
            j <= m,
            text::texts(found@) == with_partners(start, partners.take(j as int)),
        decreases m - j,
    {
        let partner = &evidence.cochanges[j];
        proof {
            assert(partners.take(j + 1).drop_last() == partners.take(j as int));
            assert(partners.take(j + 1).last() == partner@);
        }
        if is_test_path(partner.as_str()) && !holds_text(&found, partner.as_str()) {
            proof {
                text::lemma_texts_push(found@, *partner);
            }
            found.push(partner.clone());
        }
        j = j + 1;
    }
    assert(partners.take(m as int) == partners);
    found
}

fn push_each_with(
    map: &mut GroupMap<String>,
    tests: &Vec<String>,
    source: &str,
    Ghost(pairs): Ghost<Seq<(Seq<char>, Seq<char>)>>,
)
    requires
        old(map).well_formed(),
        old(map).groups() == group_map::grouped(pairs),
    ensures
        final(map).well_formed(),
        final(map).groups() == group_map::grouped(
            pairs + each_with(text::texts(tests@), source@),
        ),
{
    let n: usize = tests.len();
    let mut i: usize = 0;
    let ghost added = each_with(text::texts(tests@), source@);
    assert(pairs + added.take(0) == pairs);
    while i < n
        invariant
            n == tests@.len(),
            added == each_with(text::texts(tests@), source@),
            i <= n,
            map.well_formed(),
            map.groups() == group_map::grouped(pairs + added.take(i as int)),
        decreases n - i,
    {
        map.push(tests[i].as_str(), source.to_owned());
        proof {
            test_gaps::lemma_grouped_push(
                pairs + added.take(i as int),
                (tests@[i as int]@, source@),
            );
            assert(pairs + added.take(i + 1) == (pairs + added.take(i as int)).push(
                (tests@[i as int]@, source@),
            ));
        }
        i = i + 1;
    }
    assert(added.take(n as int) == added);
}

struct ChangeSet {
    runs: GroupMap<String>,
    untested: Vec<String>,
    known: Vec<String>,
    tests: Vec<String>,
}

fn collect_changes(
    ctx: &TestGapsCtx<'_>,
    changed: &Vec<String>,
    evidence: &Vec<Evidence>,
) -> (r: ChangeSet)
    requires
        ctx.well_formed(),
        evidence@.len() == changed@.len(),
    ensures
        r.runs.well_formed(),
        r.runs.groups() == group_map::grouped(
            run_pairs(
                ctx.files(),
                ctx.edges(),
                text::texts(changed@),
                evidence@,
                changed@.len(),
            ),
        ),
        text::texts(r.untested@) == untested(
            ctx.files(),
            ctx.edges(),
            text::texts(changed@),
            evidence@,
            changed@.len(),
        ),
        text::texts(r.known@) == known_sources(
            ctx.files(),
            text::texts(changed@),
            changed@.len(),
        ),
        text::texts(r.tests@) == changed_tests(text::texts(changed@), changed@.len()),
        r.tests@.len() <= changed@.len(),
{
    let mut set = ChangeSet {
        runs: GroupMap::new(),
        untested: Vec::new(),
        known: Vec::new(),
        tests: Vec::new(),
    };
    let ghost paths = text::texts(changed@);
    let ghost mut pairs = Seq::<(Seq<char>, Seq<char>)>::empty();
    let n: usize = changed.len();
    let mut i: usize = 0;
    assert(text::texts(Seq::<String>::empty()) == Seq::<Seq<char>>::empty());
    while i < n
        invariant
            ctx.well_formed(),
            n == changed@.len(),
            evidence@.len() == n,
            paths == text::texts(changed@),
            i <= n,
            set.tests@.len() <= i,
            set.runs.well_formed(),
            pairs == run_pairs(ctx.files(), ctx.edges(), paths, evidence@, i as nat),
            set.runs.groups() == group_map::grouped(pairs),
            text::texts(set.untested@) == untested(
                ctx.files(),
                ctx.edges(),
                paths,
                evidence@,
                i as nat,
            ),
            text::texts(set.known@) == known_sources(ctx.files(), paths, i as nat),
            text::texts(set.tests@) == changed_tests(paths, i as nat),
        decreases n - i,
    {
        let path = &changed[i];
        assert(paths[i as int] == path@);
        proof {
            text::lemma_texts_push(set.tests@, *path);
            text::lemma_texts_push(set.known@, *path);
            text::lemma_texts_push(set.untested@, *path);
        }
        if is_test_path(path.as_str()) {
            set.tests.push(path.clone());
        } else {
            match ctx.id_of(path.as_str()) {
                Some(id) => {
                    set.known.push(path.clone());
                    let tests = collect_tests(ctx, id, &evidence[i]);
                    let count: usize = tests.len();
                    assert(text::texts(tests@).len() == count);
                    if count == 0 && !evidence[i].inline_tests {
                        set.untested.push(path.clone());
                    }
                    push_each_with(&mut set.runs, &tests, path.as_str(), Ghost(pairs));
                    proof {
                        pairs = pairs + each_with(text::texts(tests@), path@);
                    }
                },
                None => {
                    set.untested.push(path.clone());
                },
            }
        }
        i = i + 1;
    }
    set
}

fn push_direct(
    map: &mut GroupMap<String>,
    tests: &Vec<String>,
    Ghost(pairs): Ghost<Seq<(Seq<char>, Seq<char>)>>,
)
    requires
        old(map).well_formed(),
        old(map).groups() == group_map::grouped(pairs),
    ensures
        final(map).well_formed(),
        final(map).groups() == group_map::grouped(with_direct(pairs, text::texts(tests@))),
{
    let n: usize = tests.len();
    let mut i: usize = 0;
    let ghost paths = text::texts(tests@);
    assert(with_direct(pairs, paths.take(0)) == pairs);
    while i < n
        invariant
            n == tests@.len(),
            paths == text::texts(tests@),
            i <= n,
            map.well_formed(),
            map.groups() == group_map::grouped(with_direct(pairs, paths.take(i as int))),
        decreases n - i,
    {
        let test = tests[i].as_str();
        let ghost so_far = with_direct(pairs, paths.take(i as int));
        proof {
            assert(paths.take(i + 1).drop_last() == paths.take(i as int));
            assert(paths.take(i + 1).last() == test@);
            group_map::law_read_gives_back_what_was_added(so_far, test@);
            test_gaps::lemma_grouped_push(so_far, (test@, "(directly changed)"@));
        }
        let absent = match map.get(test) {
            Some(list) => list.len() == 0,
            None => true,
        };
        if absent {
            map.push(test, "(directly changed)".to_owned());
        }
        i = i + 1;
    }
    assert(paths.take(n as int) == paths);
}

fn push_run_section(
    out: &mut String,
    entries: &Vec<Group<String>>,
    limit: usize,
    concise: bool,
)
    ensures
        final(out)@ == old(out)@ + run_section(order::views(entries@), limit as nat, concise),
{
    let all: usize = entries.len();
    let ghost shown = order::views(entries@);
    if all == 0 {
        assert(out@ + Seq::<char>::empty() == out@);
        return;
    }
    let n: usize = if limit < all {
        limit
    } else {
        all
    };
    let mut section = "## Tests to run (".to_owned();
    push_count(&mut section, all);
    section.append(" test files)\n");
    let ghost start = section@;
    let mut i: usize = 0;
    assert(start + Seq::<char>::empty() == start);
    while i < n
        invariant
            n <= entries@.len(),
            shown == order::views(entries@),
            i <= n,
            concise ==> section@ == start + short_run_rows(shown.take(i as int)),
            !concise ==> section@ == start + long_run_rows(shown.take(i as int)),
        decreases n - i,
    {
        let entry = &entries[i];
        let count: usize = entry.values.len();
        proof {
            assert(shown.take(i + 1).drop_last() == shown.take(i as int));
            assert(shown.take(i + 1).last() == (entry.key@, order::views(entry.values@)));
            assert(order::views(entry.values@) == text::texts(entry.values@));
        }
        if concise {
            let mut line = "  ".to_owned();
            line.append(entry.key.as_str());
            line.append(" (covers ");
            push_count(&mut line, count);
            line.append(")\n");
            section.append(line.as_str());
            assert(section@ == start + short_run_rows(shown.take(i + 1)));
        } else {
            let mut row = "- ".to_owned();
            row.append(entry.key.as_str());
            row.append("\n");
            push_lines(&mut row, "    covers: ", &entry.values, 5);
            push_more_than_five(&mut row, count);
            section.append(row.as_str());
            assert(section@ == start + long_run_rows(shown.take(i + 1)));
        }
        i = i + 1;
    }
    assert(text::first(shown, limit as nat) == shown.take(n as int));
    section.append("\n");
    out.append(section.as_str());
}

fn push_untested_section(out: &mut String, paths: &Vec<String>, limit: usize)
    ensures
        final(out)@ == old(out)@ + untested_section(text::texts(paths@), limit as nat),
{
    let count: usize = paths.len();
    if count == 0 {
        assert(out@ + Seq::<char>::empty() == out@);
        return;
    }
    let mut section = "## Untested changes (".to_owned();
    push_count(&mut section, count);
    section.append(" source files need new tests)\n");
    push_lines(&mut section, "  - ", paths, limit);
    out.append(section.as_str());
}

/// Which tests to run for a change, and which files were looked at.
#[derive(Debug)]
pub struct Suggestion {
    pub report: String,
    /// The files whose edits are acknowledged by the answer.
    pub acknowledged: Vec<String>,
}

/// Says which tests to run for the files `changed` in the range `base`.
/// `evidence[k]` is about `changed[k]`.
pub fn test_gaps_suggest(
    ctx: &TestGapsCtx<'_>,
    base: &str,
    changed: &Vec<String>,
    evidence: &Vec<Evidence>,
    limit: usize,
    concise: bool,
) -> (r: Suggestion)
    requires
        ctx.well_formed(),
        evidence@.len() == changed@.len(),
    ensures
        r.report@ == suggest_report(
            ctx.files(),
            ctx.edges(),
            base@,
            text::texts(changed@),
            evidence@,
            limit as nat,
            concise,
        ),
        text::texts(r.acknowledged@) == known_sources(
            ctx.files(),
            text::texts(changed@),
            changed@.len(),
        ) + changed_tests(text::texts(changed@), changed@.len()),
{
    let count: usize = changed.len();
    let ghost paths = text::texts(changed@);
    let mut set = collect_changes(ctx, changed, evidence);
    let ghost pairs = run_pairs(ctx.files(), ctx.edges(), paths, evidence@, count as nat);
    push_direct(&mut set.runs, &set.tests, Ghost(pairs));
    let entries = sort(set.runs.into_groups());
    let tests: usize = set.tests.len();
    proof {
        assert(order::views(entries@) == tests_to_run(ctx.files(), ctx.edges(), paths, evidence@));
        assert(text::texts(set.tests@).len() == tests);
        assert(text::texts(set.untested@).len() == set.untested@.len());
    }
    let mut out: String;
    if count == 0 {
        out = "No files changed in range '".to_owned();
        out.append(base);
        out.append("'.");
    } else {
        out = "# Test suggestion for ".to_owned();
        out.append(base);
        out.append("\n\n");
        push_count(&mut out, count);
        out.append(" changed files (");
        push_count(&mut out, count - tests);
        out.append(" source, ");
        push_count(&mut out, tests);
        out.append(" test)\n\n");
        if entries.len() == 0 && set.untested.len() == 0 {
            out.append("No test files found for the changed source files.\n");
        } else {
            let ghost head = out@;
            push_run_section(&mut out, &entries, limit, concise);
            push_untested_section(&mut out, &set.untested, limit);
            proof {
                let first = run_section(order::views(entries@), limit as nat, concise);
                let second = untested_section(text::texts(set.untested@), limit as nat);
                assert(head + first + second == head + (first + second));
            }
        }
    }
    let mut acknowledged = set.known;
    let mut tested = set.tests;
    let ghost known = text::texts(acknowledged@);
    let ghost listed_tests = text::texts(tested@);
    acknowledged.append(&mut tested);
    assert(text::texts(acknowledged@) == known + listed_tests);
    Suggestion { report: out, acknowledged }
}

/// Every changed source file is settled: it is listed as untested, it holds
/// tests of its own, or some test to run covers it.
pub proof fn law_changed_source_is_settled(
    files: Seq<FileRow>,
    edges: Seq<(i64, i64)>,
    changed: Seq<Seq<char>>,
    evidence: Seq<Evidence>,
    n: nat,
    k: int,
)
    requires
        0 <= k < n <= changed.len(),
        evidence.len() == changed.len(),
        !test_paths::test_path(changed[k]),
    ensures
        untested(files, edges, changed, evidence, n).contains(changed[k])
            || evidence[k].inline_tests || exists|i: int|
            0 <= i < run_pairs(files, edges, changed, evidence, n).len() && (
            #[trigger] run_pairs(files, edges, changed, evidence, n)[i]).1 == changed[k],
    decreases n,
{
    let open = untested(files, edges, changed, evidence, n);
    let runs = run_pairs(files, edges, changed, evidence, n);
    let m = (n - 1) as nat;
    let open_before = untested(files, edges, changed, evidence, m);
    let runs_before = run_pairs(files, edges, changed, evidence, m);
    if k == n - 1 {
        match test_gaps::id_by_path(files, changed[k]) {
            Some(id) => {
                let tests = tests_for(files, edges, id, evidence[k]);
                if tests.len() > 0 {
                    assert(runs[runs_before.len() as int].1 == changed[k]);
                } else if !evidence[k].inline_tests {
                    assert(open.last() == changed[k]);
                }
            },
            None => {
                assert(open.last() == changed[k]);
            },
        }
    } else {
        law_changed_source_is_settled(files, edges, changed, evidence, m, k);
        if open_before.contains(changed[k]) {
            let i = choose|i: int| 0 <= i < open_before.len() && open_before[i] == changed[k];
            assert(open[i] == changed[k]);
        } else if !evidence[k].inline_tests {
            let i = choose|i: int|
                0 <= i < runs_before.len() && (#[trigger] runs_before[i]).1 == changed[k];
            assert(runs[i] == runs_before[i]);
        }
    }
}

/// Every changed test file is among the tests to run, once at most for its own
/// sake.
pub proof fn law_changed_tests_are_run(
    pairs: Seq<(Seq<char>, Seq<char>)>,
    tests: Seq<Seq<char>>,
    k: int,
)
    requires
        0 <= k < tests.len(),
    ensures
        group_map::values_for(with_direct(pairs, tests), tests[k]).len() > 0,
        group_map::values_for(pairs, tests[k]).len() > 0 ==> group_map::values_for(
            with_direct(pairs, tests),
            tests[k],
        ) == group_map::values_for(pairs, tests[k]),
        group_map::values_for(pairs, tests[k]).len() == 0 ==> group_map::values_for(
            with_direct(pairs, tests),
            tests[k],
        ) == seq!["(directly changed)"@],
    decreases tests.len(),
{
    let rest = tests.drop_last();
    let so_far = with_direct(pairs, rest);
    let pair = (tests.last(), "(directly changed)"@);
    assert(so_far.push(pair).drop_last() == so_far);
    if rest.contains(tests[k]) {
        let j = choose|j: int| 0 <= j < rest.len() && rest[j] == tests[k];
        law_changed_tests_are_run(pairs, rest, j);
    } else {
        assert(k == rest.len()) by {
            if k < rest.len() {
                assert(rest[k] == tests[k]);
            }
        }
        lemma_direct_elsewhere(pairs, rest, tests[k]);
        let own = group_map::values_for(so_far, tests[k]);
        if own.len() == 0 {
            assert(own.push("(directly changed)"@) == seq!["(directly changed)"@]);
        }
    }
}

proof fn lemma_direct_elsewhere(
    pairs: Seq<(Seq<char>, Seq<char>)>,
    tests: Seq<Seq<char>>,
    other: Seq<char>,
)
    requires
        !tests.contains(other),
    ensures
        group_map::values_for(with_direct(pairs, tests), other) == group_map::values_for(
            pairs,
            other,
        ),
    decreases tests.len(),
{
    if tests.len() > 0 {
        let rest = tests.drop_last();
        let so_far = with_direct(pairs, rest);
        let pair = (tests.last(), "(directly changed)"@);
        assert(so_far.push(pair).drop_last() == so_far);
        assert(tests[tests.len() - 1] == tests.last());
        assert forall|k: int| 0 <= k < rest.len() implies rest[k] != other by {
            assert(tests[k] == rest[k]);
        }
        lemma_direct_elsewhere(pairs, rest, other);
    }
}

proof fn lemma_importing_tests(files: Seq<FileRow>, ids: Seq<i64>, test: Seq<char>)
    ensures
        importing_tests(files, ids).contains(test) <==> test_paths::test_path(test) && exists|
            k: int,
        |
            0 <= k < ids.len() && test_gaps::file_by_id(files, #[trigger] ids[k]) is Some
                && test_gaps::file_by_id(files, ids[k])->0.path@ == test,
    decreases ids.len(),
{
    if ids.len() > 0 {
        let rest = ids.drop_last();
        lemma_importing_tests(files, rest, test);
        assert(ids[ids.len() - 1] == ids.last());
        if let Some(file) = test_gaps::file_by_id(files, ids.last()) {
            order::lemma_contains_push(importing_tests(files, rest), file.path@, test);
        }
        if importing_tests(files, rest).contains(test) {
            let k = choose|k: int|
                0 <= k < rest.len() && test_gaps::file_by_id(files, #[trigger] rest[k]) is Some
                    && test_gaps::file_by_id(files, rest[k])->0.path@ == test;
            assert(ids[k] == rest[k]);
        }
        if exists|k: int|
            0 <= k < ids.len() && test_gaps::file_by_id(files, #[trigger] ids[k]) is Some
                && test_gaps::file_by_id(files, ids[k])->0.path@ == test {
            let k = choose|k: int|
                0 <= k < ids.len() && test_gaps::file_by_id(files, #[trigger] ids[k]) is Some
                    && test_gaps::file_by_id(files, ids[k])->0.path@ == test;
            if k < rest.len() {
                assert(rest[k] == ids[k]);
            }
        }
    }
}

proof fn lemma_with_partners(found: Seq<Seq<char>>, partners: Seq<Seq<char>>, test: Seq<char>)
    ensures
        with_partners(found, partners).contains(test) <==> found.contains(test)
            || test_paths::test_path(test) && partners.contains(test),
    decreases partners.len(),
{
    if partners.len() > 0 {
        let rest = partners.drop_last();
        lemma_with_partners(found, rest, test);
        assert(partners == rest.push(partners.last()));
        order::lemma_contains_push(rest, partners.last(), test);
        order::lemma_contains_push(with_partners(found, rest), partners.last(), test);
    }
}

/// The tests of a file are exactly the test files that import it, along an edge, and
/// the test files that change together with it.
pub proof fn law_tests_of_a_file(
    files: Seq<FileRow>,
    edges: Seq<(i64, i64)>,
    id: i64,
    evidence: Evidence,
    test: Seq<char>,
)
    ensures
        tests_for(files, edges, id, evidence).contains(test) <==> test_gaps::test_imports(
            files,
            edges,
            test,
            id,
        ) || test_paths::test_path(test) && text::texts(evidence.cochanges@).contains(test),
{
    let ids = test_gaps::sources(edges, id);
    lemma_importing_tests(files, ids, test);
    lemma_with_partners(importing_tests(files, ids), text::texts(evidence.cochanges@), test);
    assert forall|from: i64| #[trigger]
        edges.contains((from, id)) && from != id <==> ids.contains(from) by {
        test_gaps::lemma_edges_hold(edges, from, id);
    }
    if test_gaps::test_imports(files, edges, test, id) {
        let from = choose|from: i64| #[trigger]
            edges.contains((from, id)) && from != id && test_gaps::file_by_id(files, from) is Some
                && test_gaps::file_by_id(files, from)->0.path@ == test && test_paths::test_path(
                test,
            );
        assert(ids.contains(from));
        let k = choose|k: int| 0 <= k < ids.len() && ids[k] == from;
        assert(test_gaps::file_by_id(files, ids[k]) is Some);
    }
    if importing_tests(files, ids).contains(test) {
        let k = choose|k: int|
            0 <= k < ids.len() && test_gaps::file_by_id(files, #[trigger] ids[k]) is Some
                && test_gaps::file_by_id(files, ids[k])->0.path@ == test;
        assert(ids.contains(ids[k]));
        assert(edges.contains((ids[k], id)));
    }
}

/// Whether the changed source file at `k` has a test: a test file imports it, a test
/// file changes together with it, or it holds tests of its own.
pub open spec fn has_test(
    files: Seq<FileRow>,
    edges: Seq<(i64, i64)>,
    id: i64,
    evidence: Evidence,
) -> bool {
    ||| evidence.inline_tests
    ||| exists|test: Seq<char>| #[trigger]
        test_paths::test_path(test) && (test_gaps::test_imports(files, edges, test, id)
            || text::texts(evidence.cochanges@).contains(test))
}

proof fn lemma_has_test(
    files: Seq<FileRow>,
    edges: Seq<(i64, i64)>,
    id: i64,
    evidence: Evidence,
)
    ensures
        has_test(files, edges, id, evidence) <==> evidence.inline_tests || tests_for(
            files,
            edges,
            id,
            evidence,
        ).len() > 0,
{
    let tests = tests_for(files, edges, id, evidence);
    if tests.len() > 0 {
        law_tests_of_a_file(files, edges, id, evidence, tests[0]);
        assert(tests.contains(tests[0]));
        assert(test_paths::test_path(tests[0]));
    }
    if has_test(files, edges, id, evidence) && !evidence.inline_tests {
        let test = choose|test: Seq<char>| #[trigger]
            test_paths::test_path(test) && (test_gaps::test_imports(files, edges, test, id)
                || text::texts(evidence.cochanges@).contains(test));
        law_tests_of_a_file(files, edges, id, evidence, test);
    }
}

/// Whether the file changed at `k` is a source file that needs new tests: the index
/// does not know it, or it has no test.
pub open spec fn needs_tests(
    files: Seq<FileRow>,
    edges: Seq<(i64, i64)>,
    changed: Seq<Seq<char>>,
    evidence: Seq<Evidence>,
    k: int,
) -> bool {
    &&& !test_paths::test_path(changed[k])
    &&& test_gaps::id_by_path(files, changed[k]) matches Some(id) ==> !has_test(
        files,
        edges,
        id,
        evidence[k],
    )
}

/// A path is listed as untested exactly when it was changed and needs new tests: the
/// index does not know it, or no test file imports it, none changes together with it
/// and it holds no tests of its own.
pub proof fn law_untested_sources(
    files: Seq<FileRow>,
    edges: Seq<(i64, i64)>,
    changed: Seq<Seq<char>>,
    evidence: Seq<Evidence>,
    n: nat,
    path: Seq<char>,
)
    requires
        n <= changed.len(),
        evidence.len() == changed.len(),
    ensures
        untested(files, edges, changed, evidence, n).contains(path) <==> exists|k: int|
            0 <= k < n && #[trigger] changed[k] == path && needs_tests(
                files,
                edges,
                changed,
                evidence,
                k,
            ),
    decreases n,
{
    if n > 0 {
        let m = (n - 1) as nat;
        law_untested_sources(files, edges, changed, evidence, m, path);
        let rest = untested(files, edges, changed, evidence, m);
        let all = untested(files, edges, changed, evidence, n);
        order::lemma_contains_push(rest, changed[m as int], path);
        if let Some(id) = test_gaps::id_by_path(files, changed[m as int]) {
            lemma_has_test(files, edges, id, evidence[m as int]);
        }
        assert(all == if needs_tests(files, edges, changed, evidence, m as int) {
            rest.push(changed[m as int])
        } else {
            rest
        });
        if exists|k: int|
            0 <= k < n && #[trigger] changed[k] == path && needs_tests(
                files,
                edges,
                changed,
                evidence,
                k,
            ) {
            let k = choose|k: int|
                0 <= k < n && #[trigger] changed[k] == path && needs_tests(
                    files,
                    edges,
                    changed,
                    evidence,
                    k,
                );
            if k < m {
                assert(rest.contains(path));
            }
        }
    }
}

/// A test is to be run for a source file exactly when the source file was changed,
/// the index knows it, and the test is one of its tests.
pub proof fn law_tests_run_for_a_change(
    files: Seq<FileRow>,
    edges: Seq<(i64, i64)>,
    changed: Seq<Seq<char>>,
    evidence: Seq<Evidence>,
    n: nat,
    test: Seq<char>,
    source: Seq<char>,
)
    requires
        n <= changed.len(),
        evidence.len() == changed.len(),
    ensures
        run_pairs(files, edges, changed, evidence, n).contains((test, source)) <==> exists|k: int|
            0 <= k < n && #[trigger] changed[k] == source && !test_paths::test_path(source)
                && test_gaps::id_by_path(files, source) is Some && (test_gaps::test_imports(
                files,
                edges,
                test,
                test_gaps::id_by_path(files, source)->0,
            ) || test_paths::test_path(test) && text::texts(evidence[k].cochanges@).contains(test)),
    decreases n,
{
    if n > 0 {
        let m = (n - 1) as nat;
        law_tests_run_for_a_change(files, edges, changed, evidence, m, test, source);
        let rest = run_pairs(files, edges, changed, evidence, m);
        let all = run_pairs(files, edges, changed, evidence, n);
        let path = changed[m as int];
        let ghost_id = test_gaps::id_by_path(files, path);
        if ghost_id is Some && !test_paths::test_path(path) {
            let tests = tests_for(files, edges, ghost_id->0, evidence[m as int]);
            let added = each_with(tests, path);
            law_tests_of_a_file(files, edges, ghost_id->0, evidence[m as int], test);
            assert(all == rest + added);
            if rest.contains((test, source)) {
                let j = choose|j: int| 0 <= j < rest.len() && rest[j] == (test, source);
                assert(all[j] == (test, source));
            }
            if path == source && tests.contains(test) {
                let j = choose|j: int| 0 <= j < tests.len() && tests[j] == test;
                assert(all[rest.len() + j] == (test, source));
            }
            if all.contains((test, source)) && !rest.contains((test, source)) {
                let j = choose|j: int| 0 <= j < all.len() && all[j] == (test, source);
                if j < rest.len() {
                    assert(rest[j] == (test, source));
                }
                assert(added[j - rest.len()] == (test, source));
                assert(tests[j - rest.len()] == test);
                assert(changed[m as int] == source);
            }
        }
    }
}

/// Where no file was changed twice, no path is listed as untested and covered by a
/// test to run as well.
pub proof fn law_untested_are_not_covered(
    files: Seq<FileRow>,
    edges: Seq<(i64, i64)>,
    changed: Seq<Seq<char>>,
    evidence: Seq<Evidence>,
    test: Seq<char>,
    path: Seq<char>,
)
    requires
        evidence.len() == changed.len(),
        changed.no_duplicates(),
    ensures
        !(untested(files, edges, changed, evidence, changed.len()).contains(path) && run_pairs(
            files,
            edges,
            changed,
            evidence,
            changed.len(),
        ).contains((test, path))),
{
    let n = changed.len();
    law_untested_sources(files, edges, changed, evidence, n, path);
    law_tests_run_for_a_change(files, edges, changed, evidence, n, test, path);
    if untested(files, edges, changed, evidence, n).contains(path) && run_pairs(
        files,
        edges,
        changed,
        evidence,
        n,
    ).contains((test, path)) {
        let k = choose|k: int|
            0 <= k < n && #[trigger] changed[k] == path && needs_tests(
                files,
                edges,
                changed,
                evidence,
                k,
            );
        let id = test_gaps::id_by_path(files, path)->0;
        let j = choose|j: int|
            0 <= j < n && #[trigger] changed[j] == path && !test_paths::test_path(path)
                && test_gaps::id_by_path(files, path) is Some && (test_gaps::test_imports(
                files,
                edges,
                test,
                id,
            ) || test_paths::test_path(test) && text::texts(evidence[j].cochanges@).contains(test));
        assert(j == k);
        assert(test_paths::test_path(test));
    }
}

/// The changed tests are the changed files with the path of a test, and the known
/// sources the other changed files that the index knows.
pub proof fn law_changed_files(
    files: Seq<FileRow>,
    changed: Seq<Seq<char>>,
    n: nat,
    path: Seq<char>,
)
    requires
        n <= changed.len(),
    ensures
        changed_tests(changed, n).contains(path) <==> test_paths::test_path(path) && exists|k: int|
            0 <= k < n && #[trigger] changed[k] == path,
        known_sources(files, changed, n).contains(path) <==> !test_paths::test_path(path)
            && test_gaps::id_by_path(files, path) is Some && exists|k: int|
            0 <= k < n && #[trigger] changed[k] == path,
    decreases n,
{
    if n > 0 {
        let m = (n - 1) as nat;
        law_changed_files(files, changed, m, path);
        order::lemma_contains_push(changed_tests(changed, m), changed[m as int], path);
        order::lemma_contains_push(known_sources(files, changed, m), changed[m as int], path);
        if exists|k: int| 0 <= k < n && #[trigger] changed[k] == path {
            let k = choose|k: int| 0 <= k < n && #[trigger] changed[k] == path;
            if k < m {
                assert(exists|k: int| 0 <= k < m && #[trigger] changed[k] == path);
            }
        }
    }
}

/// A test is suggested exactly when it is to be run for a changed source file or was
/// changed itself, and it is suggested once, with all the source files that it is to
/// be run for.
pub proof fn law_suggested_tests(
    files: Seq<FileRow>,
    edges: Seq<(i64, i64)>,
    changed: Seq<Seq<char>>,
    evidence: Seq<Evidence>,
    test: Seq<char>,
    source: Seq<char>,
)
    requires
        evidence.len() == changed.len(),
        run_pairs(files, edges, changed, evidence, changed.len()).contains((test, source)),
    ensures
        ({
            let covered = group_map::values_for(
                run_pairs(files, edges, changed, evidence, changed.len()),
                test,
            );
            covered.contains(source) && tests_to_run(files, edges, changed, evidence).contains(
                (test, covered),
            )
        }),
{
    let pairs = run_pairs(files, edges, changed, evidence, changed.len());
    let tests = changed_tests(changed, changed.len());
    let all = with_direct(pairs, tests);
    let covered = group_map::values_for(pairs, test);
    group_map::law_values_for(pairs, Seq::empty(), test, source);
    assert(covered.len() > 0) by {
        let j = choose|j: int| 0 <= j < covered.len() && covered[j] == source;
    }
    if tests.contains(test) {
        let k = choose|k: int| 0 <= k < tests.len() && tests[k] == test;
        law_changed_tests_are_run(pairs, tests, k);
    } else {
        lemma_direct_elsewhere(pairs, tests, test);
    }
    group_map::law_groups_are_complete(all, test, covered);
    group_map::lemma_ranked_holds::<String>(group_map::grouped(all), (test, covered));
}

/// A changed test that is to be run for no changed source file is suggested for its
/// own sake.
pub proof fn law_changed_tests_are_suggested(
    files: Seq<FileRow>,
    edges: Seq<(i64, i64)>,
    changed: Seq<Seq<char>>,
    evidence: Seq<Evidence>,
    k: int,
)
    requires
        evidence.len() == changed.len(),
        0 <= k < changed.len(),
        test_paths::test_path(changed[k]),
        forall|source: Seq<char>|
            !(#[trigger] run_pairs(files, edges, changed, evidence, changed.len()).contains(
                (changed[k], source),
            )),
    ensures
        tests_to_run(files, edges, changed, evidence).contains(
            (changed[k], seq!["(directly changed)"@]),
        ),
{
    let test = changed[k];
    let pairs = run_pairs(files, edges, changed, evidence, changed.len());
    let tests = changed_tests(changed, changed.len());
    law_changed_files(files, changed, changed.len(), test);
    let i = choose|i: int| 0 <= i < tests.len() && tests[i] == test;
    law_changed_tests_are_run(pairs, tests, i);
    let own = group_map::values_for(pairs, test);
    if own.len() > 0 {
        group_map::law_values_for(pairs, Seq::empty(), test, own[0]);
        assert(own.contains(own[0]));
        assert(pairs.contains((test, own[0])));
    }
    let all = with_direct(pairs, tests);
    group_map::law_groups_are_complete(all, test, seq!["(directly changed)"@]);
    group_map::lemma_ranked_holds::<String>(
        group_map::grouped(all),
        (test, seq!["(directly changed)"@]),
    );
}

proof fn lemma_run_row(entries: Seq<(Seq<char>, Seq<Seq<char>>)>, k: int)
    requires
        0 <= k < entries.len(),
    ensures
        text::contains_text(
            short_run_rows(entries),
            "  "@ + entries[k].0 + " (covers "@ + text::decimal(entries[k].1.len()) + ")\n"@,
        ),
        text::contains_text(long_run_rows(entries), long_run_row(entries[k])),
    decreases entries.len(),
{
    let rest = entries.drop_last();
    let last = entries.last();
    let own = "  "@ + last.0 + " (covers "@ + text::decimal(last.1.len()) + ")\n"@;
    let empty = Seq::<char>::empty();
    if k < rest.len() {
        lemma_run_row(rest, k);
        assert(rest[k] == entries[k]);
        text::lemma_grows(
            short_run_rows(rest),
            own,
            "  "@ + entries[k].0 + " (covers "@ + text::decimal(entries[k].1.len()) + ")\n"@,
        );
        text::lemma_grows(long_run_rows(rest), long_run_row(last), long_run_row(entries[k]));
    } else {
        text::lemma_holds(short_run_rows(rest), own, empty);
        assert(short_run_rows(rest) + own + empty == short_run_rows(entries));
        text::lemma_holds(long_run_rows(rest), long_run_row(last), empty);
        assert(long_run_rows(rest) + long_run_row(last) + empty == long_run_rows(entries));
    }
}

/// The report shows the first `limit` of the tests to run, and the first `limit` of
/// the changes without tests; it has no section where there is nothing to show.
#[verifier::rlimit(50)]
pub proof fn law_report_shows_the_suggestion(
    files: Seq<FileRow>,
    edges: Seq<(i64, i64)>,
    base: Seq<char>,
    changed: Seq<Seq<char>>,
    evidence: Seq<Evidence>,
    limit: nat,
    concise: bool,
    k: int,
)
    requires
        changed.len() > 0,
        0 <= k < limit,
    ensures
        ({
            let report = suggest_report(files, edges, base, changed, evidence, limit, concise);
            let runs = tests_to_run(files, edges, changed, evidence);
            let open = untested(files, edges, changed, evidence, changed.len());
            &&& k < runs.len() && concise ==> text::contains_text(
                report,
                "  "@ + runs[k].0 + " (covers "@ + text::decimal(runs[k].1.len()) + ")\n"@,
            )
            &&& k < runs.len() && !concise ==> text::contains_text(
                report,
                "- "@ + runs[k].0 + "\n"@,
            )
            &&& k < open.len() ==> text::contains_text(report, "  - "@ + open[k] + "\n"@)
        }),
{
    let report = suggest_report(files, edges, base, changed, evidence, limit, concise);
    let runs = tests_to_run(files, edges, changed, evidence);
    let open = untested(files, edges, changed, evidence, changed.len());
    let tests = changed_tests(changed, changed.len()).len();
    let head = "# Test suggestion for "@ + base + "\n\n"@ + text::decimal(changed.len())
        + " changed files ("@ + text::decimal((changed.len() - tests) as nat) + " source, "@
        + text::decimal(tests) + " test)\n\n"@;
    let first = run_section(runs, limit, concise);
    let second = untested_section(open, limit);
    if runs.len() > 0 || open.len() > 0 {
        assert(report == head + (first + second));
        if k < runs.len() {
            let shown = text::first(runs, limit);
            assert(shown[k] == runs[k]);
            lemma_run_row(shown, k);
            let title = "## Tests to run ("@ + text::decimal(runs.len()) + " test files)\n"@;
            let rows = if concise {
                short_run_rows(shown)
            } else {
                long_run_rows(shown)
            };
            let line = if concise {
                "  "@ + runs[k].0 + " (covers "@ + text::decimal(runs[k].1.len()) + ")\n"@
            } else {
                "- "@ + runs[k].0 + "\n"@
            };
            if !concise {
                let listed = text::lines("    covers: "@, text::first(runs[k].1, 5));
                let more = test_gaps::more_than_five(runs[k].1.len());
                let empty = Seq::<char>::empty();
                text::lemma_holds(empty, line, listed);
                assert(empty + line == line);
                text::lemma_grows(line + listed, more, line);
                text::lemma_holds_within(rows, long_run_row(runs[k]), line);
            }
            text::lemma_grows(rows, title, line);
            text::lemma_grows(title + rows, "\n"@, line);
            text::lemma_grows(first, second, line);
            text::lemma_grows(first + second, head, line);
        }
        if k < open.len() {
            let shown = text::first(open, limit);
            assert(shown[k] == open[k]);
            text::law_every_text_has_a_line("  - "@, shown, k);
            let line = "  - "@ + open[k] + "\n"@;
            let title = "## Untested changes ("@ + text::decimal(open.len())
                + " source files need new tests)\n"@;
            text::lemma_grows(text::lines("  - "@, shown), title, line);
            text::lemma_grows(second, first, line);
            text::lemma_grows(first + second, head, line);
        }
    }
}

/// The report starts with the number of changed files, and with how many of them are
/// source files and how many test files.
pub proof fn law_report_counts_changes(
    files: Seq<FileRow>,
    edges: Seq<(i64, i64)>,
    base: Seq<char>,
    changed: Seq<Seq<char>>,
    evidence: Seq<Evidence>,
    limit: nat,
    concise: bool,
)
    requires
        changed.len() > 0,
    ensures
        ({
            let tests = changed.filter(|path: Seq<char>| test_paths::test_path(path)).len();
            ("# Test suggestion for "@ + base + "\n\n"@ + text::decimal(changed.len())
                + " changed files ("@ + text::decimal((changed.len() - tests) as nat)
                + " source, "@ + text::decimal(tests) + " test)\n\n"@).is_prefix_of(
                suggest_report(files, edges, base, changed, evidence, limit, concise),
            )
        }),
{
    lemma_changed_test_count(changed, changed.len());
    assert(changed.take(changed.len() as int) == changed);
    let tests = changed_tests(changed, changed.len()).len();
    let entries = tests_to_run(files, edges, changed, evidence);
    let open = untested(files, edges, changed, evidence, changed.len());
    let head = "# Test suggestion for "@ + base + "\n\n"@ + text::decimal(changed.len())
        + " changed files ("@ + text::decimal((changed.len() - tests) as nat) + " source, "@
        + text::decimal(tests) + " test)\n\n"@;
    text::lemma_starts(
        head,
        if entries.len() == 0 && open.len() == 0 {
            "No test files found for the changed source files.\n"@
        } else {
            run_section(entries, limit, concise) + untested_section(open, limit)
        },
    );
}

proof fn lemma_changed_test_count(changed: Seq<Seq<char>>, n: nat)
    requires
        n <= changed.len(),
    ensures
        changed_tests(changed, n).len() == changed.take(n as int).filter(
            |path: Seq<char>| test_paths::test_path(path),
        ).len(),
    decreases n,
{
    reveal(Seq::filter);
    if n > 0 {
        lemma_changed_test_count(changed, (n - 1) as nat);
        assert(changed.take(n as int).drop_last() == changed.take(n - 1));
    }
}

/// A test to run is shown with the first five of the source files that it covers.
pub proof fn law_covered_files_are_shown(entry: (Seq<char>, Seq<Seq<char>>), j: int)
    requires
        0 <= j < entry.1.len(),
        j < 5,
    ensures
        text::contains_text(long_run_row(entry), "    covers: "@ + entry.1[j] + "\n"@),
        ("- "@ + entry.0 + "\n"@).is_prefix_of(long_run_row(entry)),
{
    let shown = text::first(entry.1, 5);
    assert(shown[j] == entry.1[j]);
    text::law_every_text_has_a_line("    covers: "@, shown, j);
    let line = "    covers: "@ + entry.1[j] + "\n"@;
    let listed = text::lines("    covers: "@, shown);
    let title = "- "@ + entry.0 + "\n"@;
    let more = test_gaps::more_than_five(entry.1.len());
    text::lemma_grows(listed, title, line);
    text::lemma_grows(title + listed, more, line);
    text::lemma_starts(title, listed + more);
    assert(title + listed + more == title + (listed + more));
}

}
