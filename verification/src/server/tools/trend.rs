//! How the complexity of functions changed over recent commits.
use vstd::prelude::*;
use vstd::string::*;

use crate::text;
use crate::text::{push_aligned_count, push_aligned_left, push_count, push_integer};

verus! {

/// The state of a function after a commit.
#[derive(Debug)]
pub struct TrendPoint {
    pub commit_sha: String,
    pub commit_summary: String,
    pub complexity: u32,
    pub line_count: u32,
}

/// The history of a function, the oldest commit first.
#[derive(Debug)]
pub struct SymbolTrend {
    pub symbol_name: String,
    pub file_path: String,
    pub points: Vec<TrendPoint>,
}

/// The relative change over a history, in percent: cut to a whole number, and
/// as it is shown with its sign.
#[derive(Debug)]
pub struct Delta {
    pub percent: i64,
    pub shown: String,
}

/// The complexity at the start of a history.
pub open spec fn first_complexity(points: Seq<TrendPoint>) -> u32 {
    if points.len() == 0 {
        0
    } else {
        points[0].complexity
    }
}

/// The complexity at the end of a history.
pub open spec fn last_complexity(points: Seq<TrendPoint>) -> u32 {
    if points.len() == 0 {
        0
    } else {
        points.last().complexity
    }
}

/// Where a history leads: a change of more than a tenth is growth or shrinkage.
pub open spec fn direction(first: u32, last: u32) -> Seq<char> {
    if first > 0 && 10 * (last - first) > first {
        "GROWING"@
    } else if first > 0 && 10 * (first - last) > first {
        "SHRINKING"@
    } else {
        "STABLE"@
    }
}

/// Growth means more complexity at the end, shrinkage less. A function that keeps
/// its complexity, or has none at the start, is stable.
pub proof fn law_direction(first: u32, last: u32)
    ensures
        direction(first, last) == "GROWING"@ ==> last > first,
        direction(first, last) == "SHRINKING"@ ==> last < first,
        direction(first, first) == "STABLE"@,
        direction(0, last) == "STABLE"@,
{
    reveal_strlit("GROWING");
    reveal_strlit("SHRINKING");
    reveal_strlit("STABLE");
    assert("GROWING"@[0] != "SHRINKING"@[0]);
    assert("GROWING"@[0] != "STABLE"@[0]);
    assert("SHRINKING"@.len() != "STABLE"@.len());
}

fn name_direction(first: u32, last: u32) -> (r: &'static str)
    ensures
        r@ == direction(first, last),
{
    let a: u64 = first as u64;
    let b: u64 = last as u64;
    if a > 0 && b > a && 10 * (b - a) > a {
        "GROWING"
    } else if a > 0 && a > b && 10 * (a - b) > a {
        "SHRINKING"
    } else {
        "STABLE"
    }
}

/// The mark of a commit: whether it raised or lowered the complexity.
pub open spec fn mark(points: Seq<TrendPoint>, i: int) -> Seq<char> {
    if i > 0 && points[i].complexity > points[i - 1].complexity {
        " (+)"@
    } else if i > 0 && points[i].complexity < points[i - 1].complexity {
        " (-)"@
    } else {
        ""@
    }
}

/// The row of a commit.
pub open spec fn point_row(points: Seq<TrendPoint>, i: int) -> Seq<char> {
    let complexity = text::decimal(points[i].complexity as nat);
    let lines = text::decimal(points[i].line_count as nat);
    "  "@ + points[i].commit_sha@ + " | "@ + (text::filling(complexity, 2) + complexity) + (mark(
        points,
        i,
    ) + text::filling(mark(points, i), 4)) + " | "@ + (text::filling(lines, 5) + lines) + " | "@
        + points[i].commit_summary@ + "\n"@
}

/// The rows of the first `n` commits.
pub open spec fn point_rows(points: Seq<TrendPoint>, n: nat) -> Seq<char>
    decreases n,
{
    if n == 0 {
        Seq::empty()
    } else {
        point_rows(points, (n - 1) as nat) + point_row(points, n - 1)
    }
}

/// The section on a function.
pub open spec fn long_section(trend: SymbolTrend, delta: Delta) -> Seq<char> {
    let first = first_complexity(trend.points@);
    let last = last_complexity(trend.points@);
    "## "@ + trend.symbol_name@ + " ("@ + text::decimal(trend.points@.len()) + ") CC "@
        + text::decimal(first as nat) + " -> "@ + text::decimal(last as nat) + " ("@ + delta.shown@
        + "% "@ + direction(first, last)
        + ")\n\n  Commit  | CC | Lines | Summary\n  --------+----+-------+--------\n"@ + point_rows(
        trend.points@,
        trend.points@.len(),
    ) + "\n"@
}

/// The line on a function.
pub open spec fn short_line(trend: SymbolTrend, delta: Delta) -> Seq<char> {
    trend.symbol_name@ + " "@ + text::decimal(trend.points@.len()) + " "@ + text::decimal(
        first_complexity(trend.points@) as nat,
    ) + " "@ + text::decimal(last_complexity(trend.points@) as nat) + " "@ + text::integer(
        delta.percent as int,
    ) + "% "@ + trend.file_path@ + "\n"@
}

/// What the first `n` functions contribute to a report.
pub open spec fn trend_body(
    trends: Seq<SymbolTrend>,
    deltas: Seq<Delta>,
    concise: bool,
    n: nat,
) -> Seq<char>
    decreases n,
{
    if n == 0 {
        Seq::empty()
    } else {
        trend_body(trends, deltas, concise, (n - 1) as nat) + (if concise {
            short_line(trends[n - 1], deltas[n - 1])
        } else {
            long_section(trends[n - 1], deltas[n - 1])
        })
    }
}

/// The report on the functions of a file.
pub open spec fn trend_report(
    file_path: Seq<char>,
    trends: Seq<SymbolTrend>,
    deltas: Seq<Delta>,
    concise: bool,
) -> Seq<char> {
    if trends.len() == 0 {
        "No complexity trend data for `"@ + file_path
            + "`. Possible reasons: file has fewer than 2 commits, no functions with measurable complexity, or symbol not found."@
    } else if concise {
        "# symbol commits first_cc last_cc delta% file\n"@ + trend_body(
            trends,
            deltas,
            true,
            trends.len(),
        )
    } else {
        "# Complexity Trend: "@ + file_path + "\n\n"@ + trend_body(
            trends,
            deltas,
            false,
            trends.len(),
        )
    }
}

fn ends_of(points: &Vec<TrendPoint>) -> (r: (u32, u32))
    ensures
        r.0 == first_complexity(points@),
        r.1 == last_complexity(points@),
{
    let n: usize = points.len();
    if n == 0 {
        (0, 0)
    } else {
        (points[0].complexity, points[n - 1].complexity)
    }
}

fn name_mark(points: &Vec<TrendPoint>, i: usize) -> (r: &'static str)
    requires
        i < points@.len(),
    ensures
        r@ == mark(points@, i as int),
{
    if i > 0 && points[i].complexity > points[i - 1].complexity {
        " (+)"
    } else if i > 0 && points[i].complexity < points[i - 1].complexity {
        " (-)"
    } else {
        ""
    }
}

fn push_point_rows(out: &mut String, points: &Vec<TrendPoint>)
    ensures
        final(out)@ == old(out)@ + point_rows(points@, points@.len()),
{
    let n: usize = points.len();
    let ghost start = out@;
    let mut i: usize = 0;
    assert(start + Seq::<char>::empty() == start);
    while i < n
        invariant
            n == points@.len(),
            i <= n,
            out@ == start + point_rows(points@, i as nat),
        decreases n - i,
    {
        let point = &points[i];
        let mut row = "  ".to_owned();
        row.append(point.commit_sha.as_str());
        row.append(" | ");
        push_aligned_count(&mut row, point.complexity as usize, 2);
        push_aligned_left(&mut row, name_mark(points, i), 4);
        row.append(" | ");
        push_aligned_count(&mut row, point.line_count as usize, 5);
        row.append(" | ");
        row.append(point.commit_summary.as_str());
        row.append("\n");
        out.append(row.as_str());
        assert(row@ == point_row(points@, i as int));
        assert(out@ == start + point_rows(points@, (i + 1) as nat));
        i = i + 1;
    }
}

fn render_long(trend: &SymbolTrend, delta: &Delta) -> (r: String)
    ensures
        r@ == long_section(*trend, *delta),
{
    let (first, last) = ends_of(&trend.points);
    let mut out = "## ".to_owned();
    out.append(trend.symbol_name.as_str());
    out.append(" (");
    push_count(&mut out, trend.points.len());
    out.append(") CC ");
    push_count(&mut out, first as usize);
    out.append(" -> ");
    push_count(&mut out, last as usize);
    out.append(" (");
    out.append(delta.shown.as_str());
    out.append("% ");
    out.append(name_direction(first, last));
    out.append(")\n\n  Commit  | CC | Lines | Summary\n  --------+----+-------+--------\n");
    push_point_rows(&mut out, &trend.points);
    out.append("\n");
    out
}

fn render_short(trend: &SymbolTrend, delta: &Delta) -> (r: String)
    ensures
        r@ == short_line(*trend, *delta),
{
    let (first, last) = ends_of(&trend.points);
    let mut out = trend.symbol_name.clone();
    out.append(" ");
    push_count(&mut out, trend.points.len());
    out.append(" ");
    push_count(&mut out, first as usize);
    out.append(" ");
    push_count(&mut out, last as usize);
    out.append(" ");
    push_integer(&mut out, delta.percent);
    out.append("% ");
    out.append(trend.file_path.as_str());
    out.append("\n");
    out
}

/// Checks that there is a history to look at.
pub fn require_history(git_depth: u32) -> (r: Result<(), String>)
    ensures
        r is Ok <==> git_depth > 0,
        r is Err ==> r->Err_0@
            == "Complexity trend requires git history. Re-index with --git-depth > 0."@,
{
    if git_depth == 0 {
        Err("Complexity trend requires git history. Re-index with --git-depth > 0.".to_owned())
    } else {
        Ok(())
    }
}

/// Reports how the complexity of the functions of a file changed. `deltas[k]`
/// is about `trends[k]`.
pub fn qartez_trend(
    file_path: &str,
    trends: &Vec<SymbolTrend>,
    deltas: &Vec<Delta>,
    concise: bool,
) -> (r: String)
    requires
        deltas@.len() == trends@.len(),
    ensures
        r@ == trend_report(file_path@, trends@, deltas@, concise),
{
    let n: usize = trends.len();
    if n == 0 {
        let mut out = "No complexity trend data for `".to_owned();
        out.append(file_path);
        out.append(
            "`. Possible reasons: file has fewer than 2 commits, no functions with measurable complexity, or symbol not found.",
        );
        return out;
    }
    let mut out: String;
    if concise {
        out = "# symbol commits first_cc last_cc delta% file\n".to_owned();
    } else {
        out = "# Complexity Trend: ".to_owned();
        out.append(file_path);
        out.append("\n\n");
    }
    let ghost start = out@;
    let mut i: usize = 0;
    assert(start + Seq::<char>::empty() == start);
    while i < n
        invariant
            n == trends@.len(),
            deltas@.len() == n,
            i <= n,
            out@ == start + trend_body(trends@, deltas@, concise, i as nat),
        decreases n - i,
    {
        let part = if concise {
            render_short(&trends[i], &deltas[i])
        } else {
            render_long(&trends[i], &deltas[i])
        };
        out.append(part.as_str());
        assert(out@ == start + trend_body(trends@, deltas@, concise, (i + 1) as nat));
        i = i + 1;
    }
    out
}

/// A history grows exactly when it ends more than a tenth above its start, and
/// shrinks exactly when it ends more than a tenth below it.
pub proof fn law_more_than_a_tenth(first: u32, last: u32)
    ensures
        direction(first, last) == "GROWING"@ <==> first > 0 && 10 * last > 11 * first,
        direction(first, last) == "SHRINKING"@ <==> first > 0 && 10 * last < 9 * first,
        direction(first, last) == "STABLE"@ <==> first == 0 || 9 * first <= 10 * last <= 11
            * first,
{
    reveal_strlit("GROWING");
    reveal_strlit("SHRINKING");
    reveal_strlit("STABLE");
    assert("GROWING"@[0] != "SHRINKING"@[0]);
    assert("GROWING"@[0] != "STABLE"@[0]);
    assert("SHRINKING"@.len() != "STABLE"@.len());
}

/// A commit is marked exactly when it changed the complexity against the commit
/// before it: with a plus where it raised it, with a minus where it lowered it.
pub proof fn law_marks(points: Seq<TrendPoint>, i: int)
    requires
        0 <= i < points.len(),
    ensures
        mark(points, i) == " (+)"@ <==> i > 0 && points[i - 1].complexity < points[i].complexity,
        mark(points, i) == " (-)"@ <==> i > 0 && points[i - 1].complexity > points[i].complexity,
        mark(points, i).len() == 0 <==> i == 0 || points[i - 1].complexity == points[i].complexity,
{
    reveal_strlit(" (+)");
    reveal_strlit(" (-)");
    reveal_strlit("");
    assert(" (+)"@[2] != " (-)"@[2]);
    assert(""@.len() != " (+)"@.len());
    assert(""@.len() != " (-)"@.len());
}

proof fn lemma_point_shown(points: Seq<TrendPoint>, n: nat, k: int)
    requires
        0 <= k < n <= points.len(),
    ensures
        text::contains_text(point_rows(points, n), point_row(points, k)),
    decreases n,
{
    let m = (n - 1) as nat;
    let own = point_row(points, m as int);
    if k < m {
        lemma_point_shown(points, m, k);
        text::lemma_grows(point_rows(points, m), own, point_row(points, k));
    } else {
        text::lemma_holds(point_rows(points, m), own, Seq::empty());
        assert(point_rows(points, m) + own + Seq::<char>::empty() == point_rows(points, m) + own);
    }
}

proof fn lemma_trend_shown(
    trends: Seq<SymbolTrend>,
    deltas: Seq<Delta>,
    concise: bool,
    n: nat,
    k: int,
)
    requires
        0 <= k < n <= trends.len(),
    ensures
        text::contains_text(
            trend_body(trends, deltas, concise, n),
            if concise {
                short_line(trends[k], deltas[k])
            } else {
                long_section(trends[k], deltas[k])
            },
        ),
    decreases n,
{
    let m = (n - 1) as nat;
    let part = |i: int| if concise {
        short_line(trends[i], deltas[i])
    } else {
        long_section(trends[i], deltas[i])
    };
    let rest = trend_body(trends, deltas, concise, m);
    if k < m {
        lemma_trend_shown(trends, deltas, concise, m, k);
        text::lemma_grows(rest, part(m as int), part(k));
    } else {
        text::lemma_holds(rest, part(m as int), Seq::empty());
        assert(rest + part(m as int) + Seq::<char>::empty() == rest + part(m as int));
    }
}

/// The report has every function: its name, the number of its commits, and its
/// complexity after the first and after the last of them. The long report has every
/// commit, with its complexity and its mark.
#[verifier::rlimit(50)]
pub proof fn law_every_function_is_shown(
    file_path: Seq<char>,
    trends: Seq<SymbolTrend>,
    deltas: Seq<Delta>,
    k: int,
    i: int,
)
    requires
        deltas.len() == trends.len(),
        0 <= k < trends.len(),
        0 <= i < trends[k].points@.len(),
    ensures
        text::contains_text(
            trend_report(file_path, trends, deltas, true),
            short_words(trends[k]),
        ),
        text::contains_text(
            trend_report(file_path, trends, deltas, false),
            long_words(trends[k]),
        ),
        text::contains_text(
            trend_report(file_path, trends, deltas, false),
            point_words(trends[k].points@, i),
        ),
{
    let trend = trends[k];
    let n = trends.len();
    let short = trend_report(file_path, trends, deltas, true);
    let long = trend_report(file_path, trends, deltas, false);
    let line = short_line(trend, deltas[k]);
    let section = long_section(trend, deltas[k]);
    lemma_trend_shown(trends, deltas, true, n, k);
    lemma_trend_shown(trends, deltas, false, n, k);
    text::lemma_grows(
        trend_body(trends, deltas, true, n),
        "# symbol commits first_cc last_cc delta% file\n"@,
        line,
    );
    text::lemma_grows(
        trend_body(trends, deltas, false, n),
        "# Complexity Trend: "@ + file_path + "\n\n"@,
        section,
    );
    lemma_short_words(trend, deltas[k]);
    lemma_long_words(trend, deltas[k], i);
    text::lemma_holds_within(short, line, short_words(trend));
    text::lemma_holds_within(long, section, long_words(trend));
    text::lemma_holds_within(long, section, point_words(trend.points@, i));
}

/// The words of the short line on a function.
pub open spec fn short_words(trend: SymbolTrend) -> Seq<char> {
    let points = trend.points@;
    trend.symbol_name@ + " "@ + text::decimal(points.len()) + " "@ + text::decimal(
        points[0].complexity as nat,
    ) + " "@ + text::decimal(points[points.len() - 1].complexity as nat) + " "@
}

/// The words of the heading of a function.
pub open spec fn long_words(trend: SymbolTrend) -> Seq<char> {
    let points = trend.points@;
    "## "@ + trend.symbol_name@ + " ("@ + text::decimal(points.len()) + ") CC "@ + text::decimal(
        points[0].complexity as nat,
    ) + " -> "@ + text::decimal(points[points.len() - 1].complexity as nat) + " ("@
}

/// The words of the row of a commit.
pub open spec fn point_words(points: Seq<TrendPoint>, i: int) -> Seq<char> {
    let complexity = text::decimal(points[i].complexity as nat);
    points[i].commit_sha@ + " | "@ + text::filling(complexity, 2) + complexity + mark(points, i)
}

proof fn lemma_short_words(trend: SymbolTrend, delta: Delta)
    requires
        trend.points@.len() > 0,
    ensures
        text::contains_text(short_line(trend, delta), short_words(trend)),
{
    let p = short_words(trend);
    let percent = text::integer(delta.percent as int);
    let empty = Seq::<char>::empty();
    text::lemma_holds(empty, p, percent);
    assert(empty + p == p);
    text::lemma_grows(p + percent, "% "@, p);
    text::lemma_grows(p + percent + "% "@, trend.file_path@, p);
    text::lemma_grows(p + percent + "% "@ + trend.file_path@, "\n"@, p);
}

#[verifier::rlimit(50)]
proof fn lemma_long_words(trend: SymbolTrend, delta: Delta, i: int)
    requires
        0 <= i < trend.points@.len(),
    ensures
        text::contains_text(long_section(trend, delta), long_words(trend)),
        text::contains_text(long_section(trend, delta), point_words(trend.points@, i)),
{
    let points = trend.points@;
    let q = long_words(trend);
    let way = direction(points[0].complexity, points[points.len() - 1].complexity);
    let table = ")\n\n  Commit  | CC | Lines | Summary\n  --------+----+-------+--------\n"@;
    let rows = point_rows(points, points.len());
    let s1 = q + delta.shown@;
    let s2 = s1 + "% "@;
    let s3 = s2 + way;
    let s4 = s3 + table;
    let s5 = s4 + rows;
    let section = s5 + "\n"@;
    assert(section == long_section(trend, delta));
    let empty = Seq::<char>::empty();
    text::lemma_holds(empty, q, delta.shown@);
    assert(empty + q == q);
    text::lemma_grows(s1, "% "@, q);
    text::lemma_grows(s2, way, q);
    text::lemma_grows(s3, table, q);
    text::lemma_grows(s4, rows, q);
    text::lemma_grows(s5, "\n"@, q);
    let row = point_row(points, i);
    lemma_point_shown(points, points.len(), i);
    text::lemma_grows(rows, s4, row);
    text::lemma_grows(s5, "\n"@, row);
    lemma_point_words(points, i);
    text::lemma_holds_within(section, row, point_words(points, i));
}

#[verifier::rlimit(50)]
proof fn lemma_point_words(points: Seq<TrendPoint>, i: int)
    ensures
        text::contains_text(point_row(points, i), point_words(points, i)),
{
    let complexity = text::decimal(points[i].complexity as nat);
    let own = mark(points, i);
    let words = point_words(points, i);
    let counted = text::decimal(points[i].line_count as nat);
    let r1 = "  "@ + points[i].commit_sha@ + " | "@ + (text::filling(complexity, 2) + complexity);
    let r2 = r1 + (own + text::filling(own, 4));
    let r3 = r2 + " | "@;
    let r4 = r3 + (text::filling(counted, 5) + counted);
    let r5 = r4 + " | "@;
    let r6 = r5 + points[i].commit_summary@;
    assert(r6 + "\n"@ == point_row(points, i));
    text::lemma_holds("  "@, words, text::filling(own, 4));
    assert("  "@ + words + text::filling(own, 4) == r2);
    text::lemma_grows(r2, " | "@, words);
    text::lemma_grows(r3, text::filling(counted, 5) + counted, words);
    text::lemma_grows(r4, " | "@, words);
    text::lemma_grows(r5, points[i].commit_summary@, words);
    text::lemma_grows(r6, "\n"@, words);
}

}
