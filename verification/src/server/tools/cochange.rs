//! Which files change together with a file.
use vstd::prelude::*;
use vstd::string::*;

use crate::text;
use crate::text::{join, push_aligned_count, push_aligned_left, push_count};

verus! {

/// A file that changes together with another.
#[derive(Debug)]
pub struct CochangePair {
    pub path: String,
    /// The path as it is shown in a table.
    pub shown_path: String,
    /// The number of commits that changed both.
    pub count: u32,
}

/// The message where the index does not know a file.
pub open spec fn unknown_file(file_path: Seq<char>) -> Seq<char> {
    "File '"@ + file_path + "' not found in index"@
}

/// Says that the index does not know a file.
pub fn unknown_file_message(file_path: &str) -> (r: String)
    ensures
        r@ == unknown_file(file_path@),
{
    let mut out = "File '".to_owned();
    out.append(file_path);
    out.append("' not found in index");
    out
}

/// Whether the history gave an answer of its own.
pub open spec fn history_answers(history: Option<Vec<CochangePair>>) -> bool {
    history is Some && history->0@.len() > 0
}

/// Tells whether the stored counts have to be read, since the history gave
/// nothing.
pub fn needs_stored(history: &Option<Vec<CochangePair>>) -> (r: bool)
    ensures
        r == !history_answers(*history),
{
    match history {
        Some(pairs) => pairs.len() == 0,
        None => true,
    }
}

/// A pair in the short report.
pub open spec fn short_pair(pair: CochangePair) -> Seq<char> {
    pair.path@ + " ("@ + text::decimal(pair.count as nat) + ")"@
}

/// The pairs in the short report.
pub open spec fn short_pairs(pairs: Seq<CochangePair>) -> Seq<Seq<char>> {
    Seq::new(pairs.len(), |i: int| short_pair(pairs[i]))
}

/// A row of the table.
pub open spec fn table_row(pair: CochangePair, number: nat) -> Seq<char> {
    let digits = text::decimal(number);
    text::filling(digits, 2) + digits + " | "@ + (pair.shown_path@ + text::filling(
        pair.shown_path@,
        35,
    )) + " | "@ + text::decimal(pair.count as nat) + "\n"@
}

/// The rows of the first `n` pairs.
pub open spec fn table_rows(pairs: Seq<CochangePair>, n: nat) -> Seq<char>
    decreases n,
{
    if n == 0 {
        Seq::empty()
    } else {
        table_rows(pairs, (n - 1) as nat) + table_row(pairs[n - 1], n)
    }
}

/// The report on the files that change together with a file.
pub open spec fn cochange_report(
    file_path: Seq<char>,
    max_commit_size: nat,
    pairs: Seq<CochangePair>,
    concise: bool,
) -> Seq<char> {
    if pairs.len() == 0 {
        "No co-change data found for '"@ + file_path + "'. Run with git history available."@
    } else if concise {
        "Co-changes for "@ + file_path + " (max_commit_size="@ + text::decimal(max_commit_size)
            + "): "@ + text::joined(short_pairs(pairs), ", "@)
    } else {
        "# Co-changes for: "@ + file_path + " (max_commit_size="@ + text::decimal(max_commit_size)
            + ")\n\n # | File                                | Count\n---+-------------------------------------+------\n"@
            + table_rows(pairs, pairs.len())
    }
}

fn render_pairs(pairs: &Vec<CochangePair>) -> (r: Vec<String>)
    ensures
        text::texts(r@) == short_pairs(pairs@),
{
    let n: usize = pairs.len();
    let mut out: Vec<String> = Vec::new();
    let mut i: usize = 0;
    while i < n
        invariant
            n == pairs@.len(),
            i <= n,
            out@.len() == i,
            forall|k: int| 0 <= k < i ==> (#[trigger] out@[k])@ == short_pair(pairs@[k]),
        decreases n - i,
    {
        let mut item = pairs[i].path.clone();
        item.append(" (");
        push_count(&mut item, pairs[i].count as usize);
        item.append(")");
        out.push(item);
        i = i + 1;
    }
    assert(text::texts(out@) == short_pairs(pairs@));
    out
}

fn push_table_rows(out: &mut String, pairs: &Vec<CochangePair>)
    ensures
        final(out)@ == old(out)@ + table_rows(pairs@, pairs@.len()),
{
    let n: usize = pairs.len();
    let ghost start = out@;
    let mut i: usize = 0;
    assert(start + Seq::<char>::empty() == start);
    while i < n
        invariant
            n == pairs@.len(),
            i <= n,
            out@ == start + table_rows(pairs@, i as nat),
        decreases n - i,
    {
        let mut row = String::new();
        push_aligned_count(&mut row, i + 1, 2);
        proof {
            let digits = text::decimal((i + 1) as nat);
            assert(row@ == text::filling(digits, 2) + digits);
        }
        row.append(" | ");
        push_aligned_left(&mut row, pairs[i].shown_path.as_str(), 35);
        row.append(" | ");
        push_count(&mut row, pairs[i].count as usize);
        row.append("\n");
        out.append(row.as_str());
        assert(out@ == start + table_rows(pairs@, (i + 1) as nat));
        i = i + 1;
    }
}

/// Reports which files change together with `file_path`: those that its history
/// gives, or else the stored ones.
pub fn qartez_cochange(
    file_path: &str,
    max_commit_size: usize,
    history: Option<Vec<CochangePair>>,
    stored: Vec<CochangePair>,
    concise: bool,
) -> (r: String)
    ensures
        r@ == cochange_report(
            file_path@,
            max_commit_size as nat,
            if history_answers(history) {
                history->0@
            } else {
                stored@
            },
            concise,
        ),
{
    let pairs = match history {
        Some(pairs) => if pairs.len() > 0 {
            pairs
        } else {
            stored
        },
        None => stored,
    };
    if pairs.len() == 0 {
        let mut out = "No co-change data found for '".to_owned();
        out.append(file_path);
        out.append("'. Run with git history available.");
        return out;
    }
    if concise {
        let mut out = "Co-changes for ".to_owned();
        out.append(file_path);
        out.append(" (max_commit_size=");
        push_count(&mut out, max_commit_size);
        out.append("): ");
        let items = render_pairs(&pairs);
        let list = join(&items, ", ");
        out.append(list.as_str());
        return out;
    }
    let mut out = "# Co-changes for: ".to_owned();
    out.append(file_path);
    out.append(" (max_commit_size=");
    push_count(&mut out, max_commit_size);
    out.append(
        ")\n\n # | File                                | Count\n---+-------------------------------------+------\n",
    );
    push_table_rows(&mut out, &pairs);
    out
}

/// The number of rows to ask for: ten where none is given.
pub fn row_limit(limit: Option<u32>) -> (r: usize)
    ensures
        r == match limit {
            Some(limit) => limit as int,
            None => 10,
        },
{
    match limit {
        Some(limit) => limit as usize,
        None => 10,
    }
}

/// The size up to which commits count: thirty files where none is given.
pub fn commit_size_limit(max_commit_size: Option<u32>) -> (r: usize)
    ensures
        r == match max_commit_size {
            Some(size) => size as int,
            None => 30,
        },
{
    match max_commit_size {
        Some(size) => size as usize,
        None => 30,
    }
}

proof fn lemma_row_shown(pairs: Seq<CochangePair>, n: nat, k: int)
    requires
        0 <= k < n <= pairs.len(),
    ensures
        text::contains_text(table_rows(pairs, n), table_row(pairs[k], (k + 1) as nat)),
    decreases n,
{
    let m = (n - 1) as nat;
    let own = table_row(pairs[m as int], n);
    if k < m {
        lemma_row_shown(pairs, m, k);
        text::lemma_grows(table_rows(pairs, m), own, table_row(pairs[k], (k + 1) as nat));
    } else {
        text::lemma_holds(table_rows(pairs, m), own, Seq::empty());
        assert(table_rows(pairs, m) + own + Seq::<char>::empty() == table_rows(pairs, m) + own);
    }
}

proof fn lemma_item_joined(list: Seq<Seq<char>>, sep: Seq<char>, k: int)
    requires
        0 <= k < list.len(),
    ensures
        text::contains_text(text::joined(list, sep), list[k]),
    decreases list.len(),
{
    let empty = Seq::<char>::empty();
    if list.len() == 1 {
        text::lemma_holds(empty, list[0], empty);
        assert(empty + list[0] + empty == list[0]);
    } else {
        let rest = list.drop_last();
        let front = text::joined(rest, sep) + sep;
        if k < rest.len() {
            lemma_item_joined(rest, sep, k);
            text::lemma_grows(text::joined(rest, sep), sep, list[k]);
            text::lemma_grows(front, list.last(), list[k]);
        } else {
            text::lemma_holds(front, list.last(), empty);
            assert(front + list.last() + empty == front + list.last());
        }
    }
}

/// What the history gives goes before what is stored, which counts only where the
/// history gives nothing. Every pair that counts is in the report, with its number of
/// commits, and in the table also with its number in the list.
#[verifier::rlimit(50)]
pub proof fn law_history_goes_first(
    file_path: &str,
    max_commit_size: usize,
    history: Option<Vec<CochangePair>>,
    stored: Vec<CochangePair>,
    concise: bool,
    r: String,
    k: int,
)
    requires
        call_ensures(qartez_cochange, (file_path, max_commit_size, history, stored, concise), r),
    ensures
        ({
            let given = history is Some && history->0@.len() > 0;
            let pairs = if given {
                history->0@
            } else {
                stored@
            };
            &&& pairs.len() == 0 ==> r@ == "No co-change data found for '"@ + file_path@
                + "'. Run with git history available."@
            &&& 0 <= k < pairs.len() && concise ==> text::contains_text(
                r@,
                pairs[k].path@ + " ("@ + text::decimal(pairs[k].count as nat) + ")"@,
            )
            &&& 0 <= k < pairs.len() && !concise ==> text::contains_text(
                r@,
                text::decimal((k + 1) as nat) + " | "@ + pairs[k].shown_path@,
            )
            &&& 0 <= k < pairs.len() && !concise ==> text::contains_text(
                r@,
                " | "@ + text::decimal(pairs[k].count as nat) + "\n"@,
            )
        }),
{
    let pairs = if history is Some && history->0@.len() > 0 {
        history->0@
    } else {
        stored@
    };
    if 0 <= k < pairs.len() {
        if concise {
            let head = "Co-changes for "@ + file_path@ + " (max_commit_size="@ + text::decimal(
                max_commit_size as nat,
            ) + "): "@;
            let items = short_pairs(pairs);
            lemma_item_joined(items, ", "@, k);
            text::lemma_grows(text::joined(items, ", "@), head, items[k]);
        } else {
            let head = "# Co-changes for: "@ + file_path@ + " (max_commit_size="@ + text::decimal(
                max_commit_size as nat,
            )
                + ")\n\n # | File                                | Count\n---+-------------------------------------+------\n"@;
            let row = table_row(pairs[k], (k + 1) as nat);
            lemma_row_shown(pairs, pairs.len(), k);
            text::lemma_grows(table_rows(pairs, pairs.len()), head, row);
            lemma_row_words(pairs[k], (k + 1) as nat);
            text::lemma_holds_within(
                r@,
                row,
                text::decimal((k + 1) as nat) + " | "@ + pairs[k].shown_path@,
            );
            text::lemma_holds_within(
                r@,
                row,
                " | "@ + text::decimal(pairs[k].count as nat) + "\n"@,
            );
        }
    }
}

#[verifier::rlimit(50)]
proof fn lemma_row_words(pair: CochangePair, number: nat)
    ensures
        text::contains_text(
            table_row(pair, number),
            text::decimal(number) + " | "@ + pair.shown_path@,
        ),
        text::contains_text(
            table_row(pair, number),
            " | "@ + text::decimal(pair.count as nat) + "\n"@,
        ),
{
    let digits = text::decimal(number);
    let shown = pair.shown_path@;
    let front = text::filling(digits, 2);
    let blanks = text::filling(shown, 35);
    let count = text::decimal(pair.count as nat);
    let a = front + digits;
    let b = a + " | "@;
    let c = b + (shown + blanks);
    let d = c + " | "@;
    let e = d + count;
    let row = e + "\n"@;
    assert(row == table_row(pair, number));
    let start = digits + " | "@ + shown;
    text::lemma_holds(front, start, blanks);
    assert(front + start + blanks == c);
    text::lemma_grows(c, " | "@, start);
    text::lemma_grows(d, count, start);
    text::lemma_grows(e, "\n"@, start);
    assert("\n"@ == "\n"@.subrange(0, "\n"@.len() as int));
    text::lemma_spans(c, " | "@, count, "\n"@, "\n"@);
}

/// The stored counts are read exactly where the history gives no pair.
pub proof fn law_stored_counts_are_read(history: &Option<Vec<CochangePair>>, r: bool)
    requires
        call_ensures(needs_stored, (history,), r),
    ensures
        r <==> *history is None || (*history)->0@.len() == 0,
{
}

/// Ten rows are asked for by default, and else as many as are wanted.
pub proof fn law_row_limit(limit: Option<u32>, r: usize)
    requires
        call_ensures(row_limit, (limit,), r),
    ensures
        limit is None ==> r == 10,
        limit is Some ==> r == limit->0,
{
}

/// Commits of up to thirty files count by default, and else those of up to as many
/// files as are given.
pub proof fn law_commit_size_limit(max_commit_size: Option<u32>, r: usize)
    requires
        call_ensures(commit_size_limit, (max_commit_size,), r),
    ensures
        max_commit_size is None ==> r == 30,
        max_commit_size is Some ==> r == max_commit_size->0,
{
}

}
