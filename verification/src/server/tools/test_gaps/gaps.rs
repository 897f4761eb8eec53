//! The source files that no test covers, the riskiest first.
use vstd::hash_map::StringHashMap;
use vstd::prelude::*;

use crate::group_map;
use crate::order;
use crate::order::{sort, Ranked};
use crate::server::tools::test_gaps;
use crate::server::tools::test_gaps::mapping;
use crate::server::tools::test_gaps::{count_tests, TestGapsCtx};
use crate::storage::models::{FileRow, SymbolRow};
use crate::test_paths;
use crate::test_paths::is_test_path;
use crate::text;
use crate::text::{push_count, push_integer};

verus! {

/// Whether a test file imports the file `id`.
pub open spec fn has_test_importer(files: Seq<FileRow>, edges: Seq<(i64, i64)>, id: i64) -> bool {
    exists|k: int|
        0 <= k < test_gaps::sources(edges, id).len() && test_gaps::is_test_id(
            files,
            #[trigger] test_gaps::sources(edges, id)[k],
        )
}

/// The source files among the first `n` that are not skipped and that no test
/// file imports, each by its place.
pub open spec fn candidates(
    files: Seq<FileRow>,
    edges: Seq<(i64, i64)>,
    skipped: Seq<bool>,
    n: nat,
) -> Seq<usize>
    decreases n,
{
    if n == 0 {
        Seq::empty()
    } else {
        let rest = candidates(files, edges, skipped, (n - 1) as nat);
        let file = files[n - 1];
        if test_paths::test_path(file.path@) || skipped[n - 1] || has_test_importer(
            files,
            edges,
            file.id,
        ) {
            rest
        } else {
            rest.push((n - 1) as usize)
        }
    }
}

fn imported_by_test(ctx: &TestGapsCtx<'_>, id: i64) -> (r: bool)
    requires
        ctx.well_formed(),
    ensures
        r == has_test_importer(ctx.files(), ctx.edges(), id),
{
    let ids = ctx.importers(id);
    let n: usize = ids.len();
    let mut i: usize = 0;
    while i < n
        invariant
            ctx.well_formed(),
            n == ids@.len(),
            ids@ == test_gaps::sources(ctx.edges(), id),
            i <= n,
            forall|k: int| 0 <= k < i ==> !test_gaps::is_test_id(ctx.files(), #[trigger] ids@[k]),
        decreases n - i,
    {
        match ctx.file(ids[i]) {
            Some(file) => {
                if is_test_path(file.path.as_str()) {
                    assert(test_gaps::is_test_id(
                        ctx.files(),
                        test_gaps::sources(ctx.edges(), id)[i as int],
                    ));
                    return true;
                }
            },
            None => {},
        }
        i = i + 1;
    }
    false
}

/// Lists the files that may lack tests: source files that no test file imports.
/// `below_min[i]` tells that file `i` ranks too low to be looked at. Whether a
/// listed file holds tests of its own is left to see.
pub fn untested_candidates(ctx: &TestGapsCtx<'_>, below_min: &Vec<bool>) -> (r: Vec<usize>)
    requires
        ctx.well_formed(),
        below_min@.len() == ctx.files().len(),
    ensures
        r@ == candidates(ctx.files(), ctx.edges(), below_min@, ctx.files().len()),
        forall|k: int| 0 <= k < r@.len() ==> #[trigger] r@[k] < ctx.files().len(),
{
    let n: usize = ctx.all_files.len();
    let mut out: Vec<usize> = Vec::new();
    let mut i: usize = 0;
    while i < n
        invariant
            ctx.well_formed(),
            n == ctx.files().len(),
            below_min@.len() == n,
            i <= n,
            out@ == candidates(ctx.files(), ctx.edges(), below_min@, i as nat),
            forall|k: int| 0 <= k < out@.len() ==> #[trigger] out@[k] < n,
        decreases n - i,
    {
        let file = &ctx.all_files[i];
        if !(is_test_path(file.path.as_str()) || below_min[i] || imported_by_test(ctx, file.id)) {
            out.push(i);
        }
        i = i + 1;
    }
    out
}

/// The largest complexity of a symbol of the file at `path`; zero where none
/// has one.
pub open spec fn max_complexity(symbols: Seq<(SymbolRow, String)>, path: Seq<char>) -> u32
    decreases symbols.len(),
{
    if symbols.len() == 0 {
        0
    } else {
        let rest = max_complexity(symbols.drop_last(), path);
        match symbols.last().0.complexity {
            Some(cc) => if symbols.last().1@ == path && cc > rest {
                cc
            } else {
                rest
            },
            None => rest,
        }
    }
}

spec fn noted(map: Map<Seq<char>, u32>, path: Seq<char>) -> u32 {
    if map.contains_key(path) {
        map[path]
    } else {
        0
    }
}

fn collect_complexity(symbols: &Vec<(SymbolRow, String)>) -> (r: StringHashMap<u32>)
    ensures
        forall|path: Seq<char>| #[trigger] noted(r@, path) == max_complexity(symbols@, path),
{
    let mut map: StringHashMap<u32> = StringHashMap::new();
    let n: usize = symbols.len();
    let mut i: usize = 0;
    while i < n
        invariant
            n == symbols@.len(),
            i <= n,
            forall|path: Seq<char>| #[trigger]
                noted(map@, path) == max_complexity(symbols@.take(i as int), path),
        decreases n - i,
    {
        let ghost before = map@;
        match symbols[i].0.complexity {
            Some(cc) => {
                let path = symbols[i].1.as_str();
                let known: u32 = match map.get(path) {
                    Some(known) => *known,
                    None => 0,
                };
                if cc > known {
                    map.insert(symbols[i].1.clone(), cc);
                }
                assert(known == noted(before, path@));
            },
            None => {},
        }
        proof {
            assert(symbols@.take(i + 1).drop_last() == symbols@.take(i as int));
            assert forall|path: Seq<char>| #[trigger]
                noted(map@, path) == max_complexity(symbols@.take(i + 1), path) by {
                assert(noted(before, path) == max_complexity(symbols@.take(i as int), path));
            }
        }
        i = i + 1;
    }
    assert(symbols@.take(n as int) == symbols@);
    map
}

/// A source file without tests, and what its risk is computed from.
#[derive(Clone, Copy, Debug, PartialEq, Eq, Structural)]
pub struct Gap {
    /// The place of the file among the files of the index.
    pub file: usize,
    pub max_complexity: u32,
    /// The number of imports of the file.
    pub blast: usize,
}

/// The gaps among `places`: those files that hold no tests of their own.
pub open spec fn gaps_of(
    files: Seq<FileRow>,
    edges: Seq<(i64, i64)>,
    symbols: Seq<(SymbolRow, String)>,
    places: Seq<usize>,
    inline: Seq<bool>,
) -> Seq<Gap>
    decreases places.len(),
{
    if places.len() == 0 {
        Seq::empty()
    } else {
        let rest = gaps_of(files, edges, symbols, places.drop_last(), inline);
        let file = files[places.last() as int];
        if inline[places.len() - 1] {
            rest
        } else {
            rest.push(
                Gap {
                    file: places.last(),
                    max_complexity: max_complexity(symbols, file.path@),
                    blast: test_gaps::sources(edges, file.id).len() as usize,
                },
            )
        }
    }
}

/// Lists the gaps among the files at `places`. `inline[k]` tells that the file
/// at `places[k]` holds tests of its own.
pub fn find_gaps(
    ctx: &TestGapsCtx<'_>,
    places: &Vec<usize>,
    inline: &Vec<bool>,
    symbols: &Vec<(SymbolRow, String)>,
) -> (r: Vec<Gap>)
    requires
        ctx.well_formed(),
        inline@.len() == places@.len(),
        forall|k: int| 0 <= k < places@.len() ==> #[trigger] places@[k] < ctx.files().len(),
    ensures
        r@ == gaps_of(ctx.files(), ctx.edges(), symbols@, places@, inline@),
        forall|k: int| 0 <= k < r@.len() ==> (#[trigger] r@[k]).file < ctx.files().len(),
        forall|k: int|
            0 <= k < r@.len() ==> (#[trigger] r@[k]).blast == test_gaps::sources(
                ctx.edges(),
                ctx.files()[r@[k].file as int].id,
            ).len(),
{
    let complexity = collect_complexity(symbols);
    let n: usize = places.len();
    let mut out: Vec<Gap> = Vec::new();
    let mut i: usize = 0;
    while i < n
        invariant
            ctx.well_formed(),
            n == places@.len(),
            inline@.len() == n,
            i <= n,
            forall|k: int| 0 <= k < n ==> #[trigger] places@[k] < ctx.files().len(),
            forall|path: Seq<char>| #[trigger]
                noted(complexity@, path) == max_complexity(symbols@, path),
            out@ == gaps_of(ctx.files(), ctx.edges(), symbols@, places@.take(i as int), inline@),
            forall|k: int| 0 <= k < out@.len() ==> (#[trigger] out@[k]).file < ctx.files().len(),
            forall|k: int|
                0 <= k < out@.len() ==> (#[trigger] out@[k]).blast == test_gaps::sources(
                    ctx.edges(),
                    ctx.files()[out@[k].file as int].id,
                ).len(),
        decreases n - i,
    {
        assert(places@.take(i + 1).drop_last() == places@.take(i as int));
        if !inline[i] {
            let file = &ctx.all_files[places[i]];
            let blast: usize = ctx.importers(file.id).len();
            let cc: u32 = match complexity.get(file.path.as_str()) {
                Some(cc) => *cc,
                None => 0,
            };
            assert(cc == noted(complexity@, file.path@));
            out.push(Gap { file: places[i], max_complexity: cc, blast });
        }
        i = i + 1;
    }
    assert(places@.take(n as int) == places@);
    out
}

/// A gap with its risk score.
#[derive(Debug)]
pub struct ScoredGap {
    pub gap: Gap,
    /// Orders gaps as their scores do; the largest is the riskiest.
    pub rank: i64,
    /// The score and the rank of the file, as they are shown.
    pub score: String,
    pub pagerank: String,
    /// The path of the file, as it is shown in a table.
    pub shown_path: String,
}

impl View for ScoredGap {
    type V = ScoredGap;

    open spec fn view(&self) -> ScoredGap {
        *self
    }
}

/// The riskiest gaps come first.
impl Ranked for ScoredGap {
    open spec fn ahead(a: ScoredGap, b: ScoredGap) -> bool {
        a.rank > b.rank
    }

    fn is_ahead(&self, other: &Self) -> bool {
        self.rank > other.rank
    }

    proof fn ahead_is_asymmetric(a: ScoredGap, b: ScoredGap) {
    }

    proof fn ahead_is_weak(a: ScoredGap, b: ScoredGap, c: ScoredGap) {
    }
}

/// The rows of the short list of gaps.
pub open spec fn short_gap_rows(files: Seq<FileRow>, gaps: Seq<ScoredGap>) -> Seq<char>
    decreases gaps.len(),
{
    if gaps.len() == 0 {
        Seq::empty()
    } else {
        let last = gaps.last();
        short_gap_rows(files, gaps.drop_last()) + ("  "@ + files[last.gap.file as int].path@
            + " PR="@ + last.pagerank@ + " blast="@ + text::decimal(last.gap.blast as nat)
            + " score="@ + last.score@ + "\n"@)
    }
}

/// The rows of the table of gaps.
pub open spec fn long_gap_rows(files: Seq<FileRow>, gaps: Seq<ScoredGap>) -> Seq<char>
    decreases gaps.len(),
{
    if gaps.len() == 0 {
        Seq::empty()
    } else {
        let last = gaps.last();
        long_gap_rows(files, gaps.drop_last()) + ("| "@ + last.shown_path@ + " | "@
            + last.pagerank@ + " | "@ + text::decimal(last.gap.blast as nat) + " | "@
            + text::integer(files[last.gap.file as int].change_count as int) + " | "@
            + last.score@ + " |\n"@)
    }
}

/// The answer that lists the gaps, the riskiest first.
pub open spec fn gaps_report(
    files: Seq<FileRow>,
    gaps: Seq<ScoredGap>,
    limit: nat,
    concise: bool,
) -> Seq<char> {
    if gaps.len() == 0 {
        "No untested source files found. All source files are covered by an external test file import or inline Rust tests (`#[cfg(test)]` / `#[test]`)."@
    } else {
        let shown = text::first(order::ranked::<ScoredGap>(gaps), limit);
        "# Test coverage gaps ("@ + text::decimal(gaps.len()) + "/"@ + text::decimal(
            (files.len() - test_gaps::test_count(files)) as nat,
        ) + " source files untested)\n\n"@ + (if limit < gaps.len() {
            "Showing "@ + text::decimal(limit) + " of "@ + text::decimal(gaps.len())
                + " (use limit= to see more).\n\n"@
        } else {
            Seq::empty()
        }) + (if concise {
            short_gap_rows(files, shown)
        } else {
            "| File | PageRank | Blast | Churn | Score |\n|------|----------|-------|-------|-------|\n"@
                + long_gap_rows(files, shown)
        })
    }
}

fn push_gap_rows(
    out: &mut String,
    files: &Vec<FileRow>,
    gaps: &Vec<ScoredGap>,
    limit: usize,
    concise: bool,
)
    requires
        forall|k: int| 0 <= k < gaps@.len() ==> (#[trigger] gaps@[k]).gap.file < files@.len(),
    ensures
        final(out)@ == old(out)@ + (if concise {
            short_gap_rows(files@, text::first(gaps@, limit as nat))
        } else {
            long_gap_rows(files@, text::first(gaps@, limit as nat))
        }),
{
    let all: usize = gaps.len();
    let n: usize = if limit < all {
        limit
    } else {
        all
    };
    let ghost start = out@;
    let mut i: usize = 0;
    assert(start + Seq::<char>::empty() == start);
    while i < n
        invariant
            n <= gaps@.len(),
            i <= n,
            forall|k: int| 0 <= k < gaps@.len() ==> (#[trigger] gaps@[k]).gap.file < files@.len(),
            concise ==> out@ == start + short_gap_rows(files@, gaps@.take(i as int)),
            !concise ==> out@ == start + long_gap_rows(files@, gaps@.take(i as int)),
        decreases n - i,
    {
        assert(gaps@.take(i + 1).drop_last() == gaps@.take(i as int));
        let scored = &gaps[i];
        let file = &files[scored.gap.file];
        if concise {
            let mut line = "  ".to_owned();
            line.append(file.path.as_str());
            line.append(" PR=");
            line.append(scored.pagerank.as_str());
            line.append(" blast=");
            push_count(&mut line, scored.gap.blast);
            line.append(" score=");
            line.append(scored.score.as_str());
            line.append("\n");
            out.append(line.as_str());
            assert(out@ == start + short_gap_rows(files@, gaps@.take(i + 1)));
        } else {
            let mut line = "| ".to_owned();
            line.append(scored.shown_path.as_str());
            line.append(" | ");
            line.append(scored.pagerank.as_str());
            line.append(" | ");
            push_count(&mut line, scored.gap.blast);
            line.append(" | ");
            push_integer(&mut line, file.change_count);
            line.append(" | ");
            line.append(scored.score.as_str());
            line.append(" |\n");
            out.append(line.as_str());
            assert(out@ == start + long_gap_rows(files@, gaps@.take(i + 1)));
        }
        i = i + 1;
    }
    assert(text::first(gaps@, limit as nat) == gaps@.take(n as int));
}

proof fn lemma_ranked_keeps_files(gaps: Seq<ScoredGap>, n: int)
    requires
        forall|k: int| 0 <= k < gaps.len() ==> (#[trigger] gaps[k]).gap.file < n,
    ensures
        forall|k: int|
            0 <= k < order::ranked::<ScoredGap>(gaps).len() ==> (#[trigger] order::ranked::<
                ScoredGap,
            >(gaps)[k]).gap.file < n,
{
    broadcast use vstd::seq_lib::group_to_multiset_ensures;

    order::law_ranked_is_ordered_permutation::<ScoredGap>(gaps);
    let out = order::ranked::<ScoredGap>(gaps);
    assert forall|k: int| 0 <= k < out.len() implies (#[trigger] out[k]).gap.file < n by {
        assert(out.to_multiset().count(out[k]) > 0);
        assert(gaps.contains(out[k]));
    }
}

/// Lists the gaps, the riskiest first.
pub fn test_gaps_find(
    ctx: &TestGapsCtx<'_>,
    gaps: Vec<ScoredGap>,
    limit: usize,
    concise: bool,
) -> (r: String)
    requires
        ctx.well_formed(),
        forall|k: int| 0 <= k < gaps@.len() ==> (#[trigger] gaps@[k]).gap.file < ctx.files().len(),
    ensures
        r@ == gaps_report(ctx.files(), gaps@, limit as nat, concise),
{
    let count: usize = gaps.len();
    let ghost all = gaps@;
    assert(order::views(all) == all);
    if count == 0 {
        return "No untested source files found. All source files are covered by an external test file import or inline Rust tests (`#[cfg(test)]` / `#[test]`).".to_owned();
    }
    let sorted = sort(gaps);
    proof {
        assert(order::views(sorted@) == sorted@);
        lemma_ranked_keeps_files(all, ctx.files().len() as int);
    }
    let mut out = "# Test coverage gaps (".to_owned();
    push_count(&mut out, count);
    out.append("/");
    push_count(&mut out, ctx.all_files.len() - count_tests(ctx.all_files));
    out.append(" source files untested)\n\n");
    if limit < count {
        let mut line = "Showing ".to_owned();
        push_count(&mut line, limit);
        line.append(" of ");
        push_count(&mut line, count);
        line.append(" (use limit= to see more).\n\n");
        out.append(line.as_str());
    } else {
        assert(out@ + Seq::<char>::empty() == out@);
    }
    if concise {
        push_gap_rows(&mut out, ctx.all_files, &sorted, limit, true);
    } else {
        let mut table = "| File | PageRank | Blast | Churn | Score |\n|------|----------|-------|-------|-------|\n".to_owned();
        push_gap_rows(&mut table, ctx.all_files, &sorted, limit, false);
        out.append(table.as_str());
    }
    out
}

/// A file is among the candidates exactly when it is a source file that is not
/// skipped and that no test file imports.
pub proof fn law_candidates_are_untested(
    files: Seq<FileRow>,
    edges: Seq<(i64, i64)>,
    skipped: Seq<bool>,
    n: nat,
    i: usize,
)
    requires
        n <= files.len(),
        files.len() <= usize::MAX,
        skipped.len() == files.len(),
        i < files.len(),
    ensures
        candidates(files, edges, skipped, n).contains(i) <==> (i < n && !test_paths::test_path(
            files[i as int].path@,
        ) && !skipped[i as int] && !has_test_importer(files, edges, files[i as int].id)),
    decreases n,
{
    if n > 0 {
        let rest = candidates(files, edges, skipped, (n - 1) as nat);
        let all = candidates(files, edges, skipped, n);
        law_candidates_are_untested(files, edges, skipped, (n - 1) as nat, i);
        if all != rest {
            assert(all.last() == n - 1);
            if rest.contains(i) {
                let k = choose|k: int| 0 <= k < rest.len() && rest[k] == i;
                assert(all[k] == i);
            }
            if all.contains(i) && i != n - 1 {
                let k = choose|k: int| 0 <= k < all.len() && all[k] == i;
                assert(rest[k] == i);
            }
        }
    }
}

spec fn leads_to(files: Seq<FileRow>, id: i64, source: Seq<char>) -> bool {
    match test_gaps::file_by_id(files, id) {
        Some(file) => file.path@ == source && !test_paths::test_path(source),
        None => false,
    }
}

proof fn lemma_links_key(files: Seq<FileRow>, test: Seq<char>, ids: Seq<i64>, source: Seq<char>)
    ensures
        group_map::values_for(mapping::links(files, test, ids), source).len() > 0
            <==> exists|k: int|
            0 <= k < ids.len() && leads_to(files, #[trigger] ids[k], source),
    decreases ids.len(),
{
    if ids.len() > 0 {
        let rest = ids.drop_last();
        lemma_links_key(files, test, rest, source);
        let pairs = mapping::links(files, test, rest);
        let all = mapping::links(files, test, ids);
        if all != pairs {
            assert(all.drop_last() == pairs);
        }
        if exists|k: int| 0 <= k < rest.len() && leads_to(files, #[trigger] rest[k], source) {
            let k = choose|k: int|
                0 <= k < rest.len() && leads_to(files, #[trigger] rest[k], source);
            assert(ids[k] == rest[k]);
        }
        if exists|k: int| 0 <= k < ids.len() && leads_to(files, #[trigger] ids[k], source) {
            let k = choose|k: int| 0 <= k < ids.len() && leads_to(files, #[trigger] ids[k], source);
            if k < rest.len() {
                assert(rest[k] == ids[k]);
            }
        }
        if leads_to(files, ids.last(), source) {
            assert(leads_to(files, ids[ids.len() - 1], source));
        }
    }
}

proof fn lemma_values_for_add(
    a: Seq<(Seq<char>, Seq<char>)>,
    b: Seq<(Seq<char>, Seq<char>)>,
    key: Seq<char>,
)
    ensures
        group_map::values_for(a + b, key) == group_map::values_for(a, key) + group_map::values_for(
            b,
            key,
        ),
    decreases b.len(),
{
    if b.len() == 0 {
        assert(a + b == a);
        assert(group_map::values_for(a, key) + group_map::values_for(b, key)
            == group_map::values_for(a, key));
    } else {
        lemma_values_for_add(a, b.drop_last(), key);
        assert((a + b).drop_last() == a + b.drop_last());
        assert((a + b).last() == b.last());
        assert(group_map::values_for(a + b, key) == group_map::values_for(a, key)
            + group_map::values_for(b, key));
    }
}

proof fn lemma_coverage_key(
    files: Seq<FileRow>,
    edges: Seq<(i64, i64)>,
    n: nat,
    source: FileRow,
)
    requires
        n <= files.len(),
        !test_paths::test_path(source.path@),
        forall|id: i64|
            leads_to(files, id, source.path@) <==> #[trigger] test_gaps::file_by_id(files, id)
                is Some && id == source.id,
    ensures
        group_map::values_for(mapping::coverage_of(files, edges, n), source.path@).len() > 0
            <==> exists|j: int|
            0 <= j < n && test_paths::test_path((#[trigger] files[j]).path@) && test_gaps::sources(
                edges,
                source.id,
            ).contains(files[j].id) && test_gaps::file_by_id(files, source.id) is Some,
    decreases n,
{
    if n > 0 {
        let m = (n - 1) as nat;
        lemma_coverage_key(files, edges, m, source);
        let file = files[n - 1];
        if test_paths::test_path(file.path@) {
            let ids = test_gaps::targets(edges, file.id);
            lemma_values_for_add(
                mapping::coverage_of(files, edges, m),
                mapping::links(files, file.path@, ids),
                source.path@,
            );
            lemma_links_key(files, file.path@, ids, source.path@);
            test_gaps::law_imports_are_mutual(edges, file.id, source.id);
            if exists|k: int|
                0 <= k < ids.len() && leads_to(files, #[trigger] ids[k], source.path@) {
                let k = choose|k: int|
                    0 <= k < ids.len() && leads_to(files, #[trigger] ids[k], source.path@);
                assert(test_gaps::file_by_id(files, ids[k]) is Some);
                assert(ids.contains(source.id));
            }
            if ids.contains(source.id) && test_gaps::file_by_id(files, source.id) is Some {
                let k = choose|k: int| 0 <= k < ids.len() && ids[k] == source.id;
                assert(leads_to(files, ids[k], source.path@));
            }
        }
    }
}

/// The two views of coverage agree: in an index whose files differ in id and in
/// path, the map lists tests for a source file exactly when a test imports it,
/// which is when the file is no candidate for a gap.
pub proof fn law_map_and_gaps_agree(files: Seq<FileRow>, edges: Seq<(i64, i64)>, i: int)
    requires
        test_gaps::ids_distinct(files),
        test_gaps::paths_distinct(files),
        0 <= i < files.len(),
        !test_paths::test_path(files[i].path@),
    ensures
        group_map::values_for(mapping::coverage(files, edges), files[i].path@).len() > 0
            <==> has_test_importer(files, edges, files[i].id),
{
    let source = files[i];
    test_gaps::lemma_file_by_id(files, i);
    assert forall|id: i64|
        leads_to(files, id, source.path@) <==> #[trigger] test_gaps::file_by_id(files, id) is Some
            && id == source.id by {
        if test_gaps::file_by_id(files, id) is Some {
            let k = test_gaps::lemma_file_by_id_member(files, id);
            if files[k].path@ == source.path@ {
                assert(k == i);
            }
        }
    }
    lemma_coverage_key(files, edges, files.len(), source);
    let ids = test_gaps::sources(edges, source.id);
    if has_test_importer(files, edges, source.id) {
        let k = choose|k: int|
            0 <= k < ids.len() && test_gaps::is_test_id(files, #[trigger] ids[k]);
        let j = test_gaps::lemma_file_by_id_member(files, ids[k]);
        assert(ids.contains(files[j].id));
    }
    if exists|j: int|
        0 <= j < files.len() && test_paths::test_path((#[trigger] files[j]).path@) && ids.contains(
            files[j].id,
        ) {
        let j = choose|j: int|
            0 <= j < files.len() && test_paths::test_path((#[trigger] files[j]).path@)
                && ids.contains(files[j].id);
        test_gaps::lemma_file_by_id(files, j);
        let k = choose|k: int| 0 <= k < ids.len() && ids[k] == files[j].id;
        assert(test_gaps::is_test_id(files, ids[k]));
    }
}

/// A test imports a file exactly when an edge leads to the file from another one that
/// the index knows under the path of a test.
pub proof fn law_test_importers(files: Seq<FileRow>, edges: Seq<(i64, i64)>, id: i64)
    ensures
        has_test_importer(files, edges, id) <==> exists|from: i64| #[trigger]
            edges.contains((from, id)) && from != id && test_gaps::file_by_id(files, from) is Some
                && test_paths::test_path(test_gaps::file_by_id(files, from)->0.path@),
{
    let ids = test_gaps::sources(edges, id);
    assert forall|from: i64| #[trigger]
        edges.contains((from, id)) && from != id <==> ids.contains(from) by {
        test_gaps::lemma_edges_hold(edges, from, id);
    }
    if has_test_importer(files, edges, id) {
        let k = choose|k: int|
            0 <= k < ids.len() && test_gaps::is_test_id(files, #[trigger] ids[k]);
        assert(ids.contains(ids[k]));
        assert(edges.contains((ids[k], id)));
    }
    if exists|from: i64| #[trigger]
        edges.contains((from, id)) && from != id && test_gaps::file_by_id(files, from) is Some
            && test_paths::test_path(test_gaps::file_by_id(files, from)->0.path@) {
        let from = choose|from: i64| #[trigger]
            edges.contains((from, id)) && from != id && test_gaps::file_by_id(files, from) is Some
                && test_paths::test_path(test_gaps::file_by_id(files, from)->0.path@);
        assert(ids.contains(from));
        let k = choose|k: int| 0 <= k < ids.len() && ids[k] == from;
        assert(test_gaps::is_test_id(files, ids[k]));
    }
}

/// The complexity of a file is the largest of its symbols: none exceeds it, and one
/// has it unless it is zero.
pub proof fn law_max_complexity(symbols: Seq<(SymbolRow, String)>, path: Seq<char>)
    ensures
        forall|k: int|
            0 <= k < symbols.len() && (#[trigger] symbols[k]).1@ == path
                && symbols[k].0.complexity is Some ==> symbols[k].0.complexity->0
                <= max_complexity(symbols, path),
        max_complexity(symbols, path) > 0 ==> exists|k: int|
            0 <= k < symbols.len() && (#[trigger] symbols[k]).1@ == path
                && symbols[k].0.complexity == Some(max_complexity(symbols, path)),
    decreases symbols.len(),
{
    if symbols.len() > 0 {
        let rest = symbols.drop_last();
        law_max_complexity(rest, path);
        assert(symbols[symbols.len() - 1] == symbols.last());
        let top = max_complexity(symbols, path);
        assert forall|k: int|
            0 <= k < symbols.len() && (#[trigger] symbols[k]).1@ == path
                && symbols[k].0.complexity is Some implies symbols[k].0.complexity->0 <= top by {
            if k < rest.len() {
                assert(rest[k] == symbols[k]);
            }
        }
        if top > 0 && top == max_complexity(rest, path) {
            let k = choose|k: int|
                0 <= k < rest.len() && (#[trigger] rest[k]).1@ == path
                    && rest[k].0.complexity == Some(top);
            assert(symbols[k] == rest[k]);
        }
    }
}

/// A place is a gap exactly when its file holds no tests of its own. A gap keeps the
/// place, the largest complexity of the file, and the number of edges that lead to it
/// from other files; gaps stand in the order of the places.
pub proof fn law_gaps(
    files: Seq<FileRow>,
    edges: Seq<(i64, i64)>,
    symbols: Seq<(SymbolRow, String)>,
    places: Seq<usize>,
    inline: Seq<bool>,
    k: int,
)
    requires
        inline.len() == places.len(),
        0 <= k < places.len(),
    ensures
        ({
            let before = gaps_of(files, edges, symbols, places.take(k), inline);
            let after = gaps_of(files, edges, symbols, places.take(k + 1), inline);
            let all = gaps_of(files, edges, symbols, places, inline);
            let file = files[places[k] as int];
            &&& after.is_prefix_of(all)
            &&& inline[k] ==> after == before
            &&& !inline[k] ==> after == before.push(
                Gap {
                    file: places[k],
                    max_complexity: max_complexity(symbols, file.path@),
                    blast: edges.filter(
                        |edge: (i64, i64)| edge.1 == file.id && edge.0 != edge.1,
                    ).len() as usize,
                },
            )
        }),
    decreases places.len(),
{
    let next = places.take(k + 1);
    assert(next.drop_last() == places.take(k));
    assert(next.last() == places[k]);
    lemma_gaps_prefix(files, edges, symbols, places, inline, k + 1);
    lemma_importer_count(edges, files[places[k] as int].id);
}

proof fn lemma_gaps_prefix(
    files: Seq<FileRow>,
    edges: Seq<(i64, i64)>,
    symbols: Seq<(SymbolRow, String)>,
    places: Seq<usize>,
    inline: Seq<bool>,
    n: int,
)
    requires
        0 <= n <= places.len(),
    ensures
        gaps_of(files, edges, symbols, places.take(n), inline).is_prefix_of(
            gaps_of(files, edges, symbols, places, inline),
        ),
    decreases places.len(),
{
    if n == places.len() {
        assert(places.take(n) == places);
    } else {
        lemma_gaps_prefix(files, edges, symbols, places.drop_last(), inline, n);
        assert(places.drop_last().take(n) == places.take(n));
    }
}

proof fn lemma_importer_count(edges: Seq<(i64, i64)>, id: i64)
    ensures
        test_gaps::sources(edges, id).len() == edges.filter(
            |edge: (i64, i64)| edge.1 == id && edge.0 != edge.1,
        ).len(),
    decreases edges.len(),
{
    reveal(Seq::filter);
    if edges.len() > 0 {
        lemma_importer_count(edges.drop_last(), id);
    }
}

/// The gaps are listed by falling rank; those of equal rank keep their order, and
/// none is lost.
pub proof fn law_riskiest_first(gaps: Seq<ScoredGap>, i: int, j: int)
    requires
        0 <= i < j < order::ranked::<ScoredGap>(gaps).len(),
    ensures
        order::ranked::<ScoredGap>(gaps)[i].rank >= order::ranked::<ScoredGap>(gaps)[j].rank,
        order::ranked::<ScoredGap>(gaps).to_multiset() == gaps.to_multiset(),
        order::ranked::<ScoredGap>(gaps).len() == gaps.len(),
{
    order::law_ranked_is_ordered_permutation::<ScoredGap>(gaps);
    let sorted = order::ranked::<ScoredGap>(gaps);
    assert(!<ScoredGap as Ranked>::ahead(sorted[j], sorted[i]));
}

/// The short report has the row of every gap among the first `limit`.
#[verifier::rlimit(50)]
pub proof fn law_report_shows_gaps(
    files: Seq<FileRow>,
    gaps: Seq<ScoredGap>,
    limit: nat,
    k: int,
)
    requires
        0 <= k < gaps.len(),
        k < limit,
    ensures
        ({
            let gap = order::ranked::<ScoredGap>(gaps)[k];
            text::contains_text(
                gaps_report(files, gaps, limit, true),
                "  "@ + files[gap.gap.file as int].path@ + " PR="@ + gap.pagerank@ + " blast="@
                    + text::decimal(gap.gap.blast as nat) + " score="@ + gap.score@ + "\n"@,
            )
        }),
{
    order::law_ranked_is_ordered_permutation::<ScoredGap>(gaps);
    let sorted = order::ranked::<ScoredGap>(gaps);
    let shown = text::first(sorted, limit);
    assert(shown[k] == sorted[k]);
    lemma_gap_row(files, shown, k);
    let gap = sorted[k];
    let row = "  "@ + files[gap.gap.file as int].path@ + " PR="@ + gap.pagerank@ + " blast="@
        + text::decimal(gap.gap.blast as nat) + " score="@ + gap.score@ + "\n"@;
    let head = "# Test coverage gaps ("@ + text::decimal(gaps.len()) + "/"@ + text::decimal(
        (files.len() - test_gaps::test_count(files)) as nat,
    ) + " source files untested)\n\n"@ + (if limit < gaps.len() {
        "Showing "@ + text::decimal(limit) + " of "@ + text::decimal(gaps.len())
            + " (use limit= to see more).\n\n"@
    } else {
        Seq::empty()
    });
    text::lemma_grows(short_gap_rows(files, shown), head, row);
}

#[verifier::rlimit(50)]
proof fn lemma_gap_row(files: Seq<FileRow>, gaps: Seq<ScoredGap>, k: int)
    requires
        0 <= k < gaps.len(),
    ensures
        text::contains_text(
            short_gap_rows(files, gaps),
            "  "@ + files[gaps[k].gap.file as int].path@ + " PR="@ + gaps[k].pagerank@ + " blast="@
                + text::decimal(gaps[k].gap.blast as nat) + " score="@ + gaps[k].score@ + "\n"@,
        ),
    decreases gaps.len(),
{
    let rest = gaps.drop_last();
    let last = gaps.last();
    let own = "  "@ + files[last.gap.file as int].path@ + " PR="@ + last.pagerank@ + " blast="@
        + text::decimal(last.gap.blast as nat) + " score="@ + last.score@ + "\n"@;
    let row = "  "@ + files[gaps[k].gap.file as int].path@ + " PR="@ + gaps[k].pagerank@
        + " blast="@ + text::decimal(gaps[k].gap.blast as nat) + " score="@ + gaps[k].score@
        + "\n"@;
    if k < rest.len() {
        lemma_gap_row(files, rest, k);
        assert(rest[k] == gaps[k]);
        text::lemma_grows(short_gap_rows(files, rest), own, row);
    } else {
        text::lemma_holds(short_gap_rows(files, rest), own, Seq::empty());
        assert(short_gap_rows(files, rest) + own + Seq::<char>::empty() == short_gap_rows(
            files,
            rest,
        ) + own);
    }
}

/// The report starts with the number of gaps and the number of source files, and says
/// how many gaps it shows where it does not show all.
pub proof fn law_report_counts_gaps(
    files: Seq<FileRow>,
    gaps: Seq<ScoredGap>,
    limit: nat,
    concise: bool,
)
    requires
        gaps.len() > 0,
    ensures
        ({
            let head = "# Test coverage gaps ("@ + text::decimal(gaps.len()) + "/"@
                + text::decimal((files.len() - test_gaps::test_count(files)) as nat)
                + " source files untested)\n\n"@;
            &&& head.is_prefix_of(gaps_report(files, gaps, limit, concise))
            &&& limit < gaps.len() ==> (head + ("Showing "@ + text::decimal(limit) + " of "@
                + text::decimal(gaps.len()) + " (use limit= to see more).\n\n"@)).is_prefix_of(
                gaps_report(files, gaps, limit, concise),
            )
        }),
{
    let shown = text::first(order::ranked::<ScoredGap>(gaps), limit);
    let head = "# Test coverage gaps ("@ + text::decimal(gaps.len()) + "/"@ + text::decimal(
        (files.len() - test_gaps::test_count(files)) as nat,
    ) + " source files untested)\n\n"@;
    let place = if limit < gaps.len() {
        "Showing "@ + text::decimal(limit) + " of "@ + text::decimal(gaps.len())
            + " (use limit= to see more).\n\n"@
    } else {
        Seq::empty()
    };
    let rows = if concise {
        short_gap_rows(files, shown)
    } else {
        "| File | PageRank | Blast | Churn | Score |\n|------|----------|-------|-------|-------|\n"@
            + long_gap_rows(files, shown)
    };
    text::lemma_starts(head + place, rows);
    text::lemma_starts(head, place + rows);
    assert(head + place + rows == head + (place + rows));
}

/// The table has the row of every gap among the first `limit`.
pub proof fn law_table_shows_gaps(files: Seq<FileRow>, gaps: Seq<ScoredGap>, limit: nat, k: int)
    requires
        0 <= k < gaps.len(),
        k < limit,
    ensures
        text::contains_text(
            gaps_report(files, gaps, limit, false),
            gap_row(files, order::ranked::<ScoredGap>(gaps)[k]),
        ),
{
    order::law_ranked_is_ordered_permutation::<ScoredGap>(gaps);
    let sorted = order::ranked::<ScoredGap>(gaps);
    let shown = text::first(sorted, limit);
    assert(shown[k] == sorted[k]);
    lemma_table_row(files, shown, k);
    let row = gap_row(files, sorted[k]);
    let title =
        "| File | PageRank | Blast | Churn | Score |\n|------|----------|-------|-------|-------|\n"@;
    let head = "# Test coverage gaps ("@ + text::decimal(gaps.len()) + "/"@ + text::decimal(
        (files.len() - test_gaps::test_count(files)) as nat,
    ) + " source files untested)\n\n"@ + (if limit < gaps.len() {
        "Showing "@ + text::decimal(limit) + " of "@ + text::decimal(gaps.len())
            + " (use limit= to see more).\n\n"@
    } else {
        Seq::empty()
    });
    text::lemma_grows(long_gap_rows(files, shown), title, row);
    text::lemma_grows(title + long_gap_rows(files, shown), head, row);
}

/// The row of a gap in the table.
pub open spec fn gap_row(files: Seq<FileRow>, gap: ScoredGap) -> Seq<char> {
    "| "@ + gap.shown_path@ + " | "@ + gap.pagerank@ + " | "@ + text::decimal(gap.gap.blast as nat)
        + " | "@ + text::integer(files[gap.gap.file as int].change_count as int) + " | "@
        + gap.score@ + " |\n"@
}

proof fn lemma_table_row(files: Seq<FileRow>, gaps: Seq<ScoredGap>, k: int)
    requires
        0 <= k < gaps.len(),
    ensures
        text::contains_text(long_gap_rows(files, gaps), gap_row(files, gaps[k])),
    decreases gaps.len(),
{
    let rest = gaps.drop_last();
    let own = gap_row(files, gaps.last());
    if k < rest.len() {
        lemma_table_row(files, rest, k);
        assert(rest[k] == gaps[k]);
        text::lemma_grows(long_gap_rows(files, rest), own, gap_row(files, gaps[k]));
    } else {
        text::lemma_holds(long_gap_rows(files, rest), own, Seq::empty());
        assert(long_gap_rows(files, rest) + own + Seq::<char>::empty() == long_gap_rows(
            files,
            rest,
        ) + own);
    }
}

}
