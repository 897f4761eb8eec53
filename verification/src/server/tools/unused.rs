//! Exported symbols that nothing imports.
use vstd::prelude::*;
use vstd::string::*;

use crate::storage::models::SymbolRow;
use crate::text;
use crate::text::{push_count, push_integer, same};

verus! {

/// The letter that stands for a kind: its first, or a blank where it has none.
pub open spec fn kind_letter(kind: Seq<char>) -> char {
    if kind.len() == 0 {
        ' '
    } else {
        kind[0]
    }
}

/// Gives the letter that stands for a kind.
pub fn letter_of(kind: &str) -> (r: char)
    ensures
        r == kind_letter(kind@),
{
    if kind.is_empty() {
        ' '
    } else {
        kind.get_char(0)
    }
}

/// The line of a symbol.
pub open spec fn symbol_line(symbol: SymbolRow) -> Seq<char> {
    "  "@.push(kind_letter(symbol.kind@)) + " "@ + symbol.name@ + " L"@ + text::decimal(
        symbol.line_start as nat,
    ) + "\n"@
}

/// The path that the last of `page` is listed under.
pub open spec fn last_path(page: Seq<(SymbolRow, String)>) -> Seq<char> {
    if page.len() == 0 {
        ""@
    } else {
        page.last().1@
    }
}

/// The lines of a page: each symbol, and its path wherever the path changes.
pub open spec fn page_lines(page: Seq<(SymbolRow, String)>) -> Seq<char>
    decreases page.len(),
{
    if page.len() == 0 {
        Seq::empty()
    } else {
        let rest = page.drop_last();
        page_lines(rest) + (if page.last().1@ == last_path(rest) {
            Seq::empty()
        } else {
            page.last().1@ + "\n"@
        }) + symbol_line(page.last().0)
    }
}

/// The answer for a page of `total` unused exports.
pub open spec fn unused_report(total: int, offset: int, page: Seq<(SymbolRow, String)>) -> Seq<
    char,
> {
    if total == 0 {
        "No unused exported symbols detected."@
    } else if page.len() == 0 {
        "No unused exports in page (total="@ + text::integer(total) + ", offset="@ + text::integer(
            offset,
        ) + ")."@
    } else if page.len() < total {
        text::integer(total) + " unused export(s); showing "@ + text::integer(page.len() as int)
            + " from offset "@ + text::integer(offset) + " (next: offset="@ + text::integer(
            offset + page.len(),
        ) + ").\n"@ + page_lines(page)
    } else {
        text::integer(total) + " unused export(s).\n"@ + page_lines(page)
    }
}

fn push_page_lines(out: &mut String, page: &Vec<(SymbolRow, String)>)
    ensures
        final(out)@ == old(out)@ + page_lines(page@),
{
    let n: usize = page.len();
    let ghost start = out@;
    let mut i: usize = 0;
    assert(start + Seq::<char>::empty() == start);
    while i < n
        invariant
            n == page@.len(),
            i <= n,
            out@ == start + page_lines(page@.take(i as int)),
        decreases n - i,
    {
        let ghost rest = page@.take(i as int);
        let ghost done = page@.take(i + 1);
        assert(done.drop_last() == rest);
        let symbol = &page[i].0;
        let path = page[i].1.as_str();
        let current = if i == 0 {
            ""
        } else {
            page[i - 1].1.as_str()
        };
        assert(current@ == last_path(rest));
        let mut header = String::new();
        if !same(path, current) {
            header = path.to_owned();
            header.append("\n");
        }
        out.append(header.as_str());
        let mut line = "  ".to_owned();
        line.push(letter_of(symbol.kind.as_str()));
        line.append(" ");
        line.append(symbol.name.as_str());
        line.append(" L");
        push_count(&mut line, symbol.line_start as usize);
        line.append("\n");
        out.append(line.as_str());
        assert(out@ == start + (page_lines(rest) + header@ + line@));
        i = i + 1;
    }
    assert(page@.take(n as int) == page@);
}

/// The number of rows to ask for: fifty by default, and never none.
pub fn page_limit(limit: Option<u32>) -> (r: i64)
    ensures
        r == match limit {
            Some(limit) => if limit == 0 {
                1
            } else {
                limit as int
            },
            None => 50,
        },
{
    match limit {
        Some(limit) => if limit == 0 {
            1
        } else {
            limit as i64
        },
        None => 50,
    }
}

/// Reports a page of the unused exports. A page holds no more rows than can be
/// asked for.
pub fn qartez_unused(total: i64, offset: u32, page: &Vec<(SymbolRow, String)>) -> (r: String)
    requires
        page@.len() <= u32::MAX,
    ensures
        r@ == unused_report(total as int, offset as int, page@),
{
    if total == 0 {
        return "No unused exported symbols detected.".to_owned();
    }
    let shown: i64 = page.len() as i64;
    let offset: i64 = offset as i64;
    if shown == 0 {
        let mut out = "No unused exports in page (total=".to_owned();
        push_integer(&mut out, total);
        out.append(", offset=");
        push_integer(&mut out, offset);
        out.append(").");
        return out;
    }
    let mut out = String::new();
    push_integer(&mut out, total);
    assert(out@ == text::integer(total as int));
    if shown < total {
        out.append(" unused export(s); showing ");
        push_integer(&mut out, shown);
        out.append(" from offset ");
        push_integer(&mut out, offset);
        out.append(" (next: offset=");
        push_integer(&mut out, offset + shown);
        out.append(").\n");
    } else {
        out.append(" unused export(s).\n");
    }
    push_page_lines(&mut out, page);
    out
}

#[verifier::rlimit(50)]
proof fn lemma_symbol_shown(page: Seq<(SymbolRow, String)>, k: int)
    requires
        0 <= k < page.len(),
    ensures
        text::contains_text(page_lines(page), symbol_line(page[k].0)),
        page[k].1@.len() > 0 && (k == 0 || page[k - 1].1@ != page[k].1@) ==> text::contains_text(
            page_lines(page),
            page[k].1@ + "\n"@ + symbol_line(page[k].0),
        ),
    decreases page.len(),
{
    let rest = page.drop_last();
    let last = page.last();
    let header = if last.1@ == last_path(rest) {
        Seq::empty()
    } else {
        last.1@ + "\n"@
    };
    let own = symbol_line(last.0);
    let front = page_lines(rest);
    let empty = Seq::<char>::empty();
    assert(page_lines(page) == front + header + own);
    if k < rest.len() {
        lemma_symbol_shown(rest, k);
        assert(rest[k] == page[k]);
        assert(k > 0 ==> rest[k - 1] == page[k - 1]);
        let part = symbol_line(page[k].0);
        text::lemma_grows(front, header, part);
        text::lemma_grows(front + header, own, part);
        if page[k].1@.len() > 0 && (k == 0 || page[k - 1].1@ != page[k].1@) {
            let part = page[k].1@ + "\n"@ + symbol_line(page[k].0);
            text::lemma_grows(front, header, part);
            text::lemma_grows(front + header, own, part);
        }
    } else {
        text::lemma_holds(front + header, own, empty);
        assert(front + header + own + empty == front + header + own);
        if last.1@.len() > 0 && (k == 0 || page[k - 1].1@ != last.1@) {
            assert(last.1@ != last_path(rest)) by {
                reveal_strlit("");
                if k == 0 {
                    assert(last_path(rest).len() == 0);
                } else {
                    assert(rest.last() == page[k - 1]);
                }
            }
            text::lemma_holds(front, header + own, empty);
            assert(front + (header + own) + empty == front + header + own);
        }
    }
}

/// An export with the path of the one before it follows at once: the path is not
/// repeated.
pub proof fn law_paths_are_not_repeated(page: Seq<(SymbolRow, String)>, symbol: SymbolRow, path:
    String)
    requires
        page.len() > 0,
        page.last().1@ == path@,
    ensures
        page_lines(page.push((symbol, path))) == page_lines(page) + symbol_line(symbol),
{
    assert(page.push((symbol, path)).drop_last() == page);
    assert(page_lines(page) + Seq::<char>::empty() == page_lines(page));
}

/// Every export of a page is shown: by the first letter of its kind, its name and its
/// line, with the path above it where the path changes.
#[verifier::rlimit(50)]
pub proof fn law_every_export_is_shown(
    total: int,
    offset: int,
    page: Seq<(SymbolRow, String)>,
    k: int,
)
    requires
        total != 0,
        0 <= k < page.len(),
        page[k].0.kind@.len() > 0,
    ensures
        ({
            let report = unused_report(total, offset, page);
            let line = "  "@.push(page[k].0.kind@[0]) + " "@ + page[k].0.name@ + " L"@
                + text::decimal(page[k].0.line_start as nat) + "\n"@;
            &&& text::contains_text(report, line)
            &&& page[k].1@.len() > 0 && (k == 0 || page[k - 1].1@ != page[k].1@)
                ==> text::contains_text(report, page[k].1@ + "\n"@ + line)
            &&& page.len() < total ==> text::contains_text(
                report,
                "(next: offset="@ + text::integer(offset + page.len()) + ")"@,
            )
            &&& page.len() >= total ==> report == text::integer(total)
                + " unused export(s).\n"@ + page_lines(page)
        }),
{
    lemma_symbol_shown(page, k);
    let lines = page_lines(page);
    let line = symbol_line(page[k].0);
    let next = text::integer(offset + page.len());
    let start = text::integer(total) + " unused export(s); showing "@ + text::integer(
        page.len() as int,
    ) + " from offset "@ + text::integer(offset);
    let middle = start + " (next: offset="@ + next + ").\n"@;
    if page.len() < total {
        text::lemma_grows(lines, middle, line);
        if page[k].1@.len() > 0 && (k == 0 || page[k - 1].1@ != page[k].1@) {
            text::lemma_grows(lines, middle, page[k].1@ + "\n"@ + line);
        }
        let words = "(next: offset="@ + next + ")"@;
        assert(" (next: offset="@ == " "@ + "(next: offset="@ && ")"@.is_prefix_of(").\n"@)) by {
            reveal_strlit(" (next: offset=");
            reveal_strlit("(next: offset=");
            reveal_strlit(" ");
            reveal_strlit(").\n");
            reveal_strlit(")");
            assert(" "@ + "(next: offset="@ == " (next: offset="@);
            assert(")"@ == ").\n"@.subrange(0, 1));
        }
        text::lemma_spans(start + " "@, "(next: offset="@, next, ").\n"@, ")"@);
        assert(start + " "@ + "(next: offset="@ == start + " (next: offset="@);
        text::lemma_grows(middle, lines, words);
    } else {
        let head = text::integer(total) + " unused export(s).\n"@;
        text::lemma_grows(lines, head, line);
        if page[k].1@.len() > 0 && (k == 0 || page[k - 1].1@ != page[k].1@) {
            text::lemma_grows(lines, head, page[k].1@ + "\n"@ + line);
        }
    }
}

/// Fifty rows are asked for by default, and else as many as are wanted, but one at
/// least.
pub proof fn law_page_limit(limit: Option<u32>, r: i64)
    requires
        call_ensures(page_limit, (limit,), r),
    ensures
        limit is None ==> r == 50,
        limit is Some && limit->0 > 0 ==> r == limit->0,
        limit == Some(0u32) ==> r == 1,
{
}

}
