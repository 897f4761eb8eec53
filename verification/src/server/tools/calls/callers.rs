//! The calls of a function, and the functions that make them.
use vstd::prelude::*;
use vstd::string::*;

use crate::order;
use crate::server::tools::calls;
use crate::server::tools::calls::{is_function_kind, CallSite};
use crate::storage::models::SymbolRow;
use crate::text;
use crate::text::{contains, push_count, same};

verus! {

/// A file that may hold calls. Its source is absent where it cannot be read.
#[derive(Debug)]
pub struct ScannedFile {
    pub id: i64,
    pub path: String,
    pub source: Option<String>,
    pub calls: Vec<CallSite>,
}

/// The calls of a function in one file.
#[derive(Debug)]
pub struct RawSites {
    pub file_id: i64,
    pub path: String,
    pub lines: Vec<usize>,
}

/// A call of a function, with the function that makes it.
#[derive(Debug)]
pub struct CallerSite {
    pub path: String,
    pub line: usize,
    /// The innermost function around the call, if there is one.
    pub enclosing: Option<String>,
}

/// The lines on which `name` is called, in order.
pub open spec fn lines_of(calls: Seq<CallSite>, name: Seq<char>) -> Seq<usize>
    decreases calls.len(),
{
    if calls.len() == 0 {
        Seq::empty()
    } else {
        let rest = lines_of(calls.drop_last(), name);
        if calls.last().name@ == name {
            rest.push(calls.last().line)
        } else {
            rest
        }
    }
}

/// Whether the source of a file can be read and mentions `name`.
pub open spec fn mentions(source: Option<String>, name: Seq<char>) -> bool {
    match source {
        Some(source) => text::contains_text(source@, name),
        None => false,
    }
}

/// Tells whether the source of a file can be read and mentions `name`: only
/// then its calls matter.
pub fn may_call(source: &Option<String>, name: &str) -> (r: bool)
    ensures
        r == mentions(*source, name@),
{
    match source {
        Some(source) => contains(source.as_str(), name),
        None => false,
    }
}

/// The calls of a function in one file, as plain values.
pub struct RawSitesModel {
    pub file_id: i64,
    pub path: Seq<char>,
    pub lines: Seq<usize>,
}

impl View for RawSites {
    type V = RawSitesModel;

    open spec fn view(&self) -> RawSitesModel {
        RawSitesModel { file_id: self.file_id, path: self.path@, lines: self.lines@ }
    }
}

/// The calls of `name` in each of `files` that holds any.
pub open spec fn raw_sites(files: Seq<ScannedFile>, name: Seq<char>) -> Seq<RawSitesModel>
    decreases files.len(),
{
    if files.len() == 0 {
        Seq::empty()
    } else {
        let rest = raw_sites(files.drop_last(), name);
        let file = files.last();
        let lines = lines_of(file.calls@, name);
        if mentions(file.source, name) && lines.len() > 0 {
            rest.push(RawSitesModel { file_id: file.id, path: file.path@, lines })
        } else {
            rest
        }
    }
}

/// The raw sites of a list, as plain values.
pub open spec fn raw_models(sites: Seq<RawSites>) -> Seq<RawSitesModel> {
    Seq::new(sites.len(), |i: int| sites[i]@)
}

fn find_lines(calls: &Vec<CallSite>, name: &str) -> (r: Vec<usize>)
    ensures
        r@ == lines_of(calls@, name@),
{
    let n: usize = calls.len();
    let mut out: Vec<usize> = Vec::new();
    let mut i: usize = 0;
    while i < n
        invariant
            n == calls@.len(),
            i <= n,
            out@ == lines_of(calls@.take(i as int), name@),
        decreases n - i,
    {
        assert(calls@.take(i + 1).drop_last() == calls@.take(i as int));
        if same(calls[i].name.as_str(), name) {
            out.push(calls[i].line);
        }
        i = i + 1;
    }
    assert(calls@.take(n as int) == calls@);
    out
}

/// Finds the calls of `name` in `files`.
pub fn scan_call_sites(files: &Vec<ScannedFile>, name: &str) -> (r: Vec<RawSites>)
    ensures
        raw_models(r@) == raw_sites(files@, name@),
{
    let n: usize = files.len();
    let mut out: Vec<RawSites> = Vec::new();
    let mut i: usize = 0;
    assert(raw_models(out@) == Seq::<RawSitesModel>::empty());
    while i < n
        invariant
            n == files@.len(),
            i <= n,
            raw_models(out@) == raw_sites(files@.take(i as int), name@),
        decreases n - i,
    {
        assert(files@.take(i + 1).drop_last() == files@.take(i as int));
        let file = &files[i];
        if may_call(&file.source, name) {
            let lines = find_lines(&file.calls, name);
            if lines.len() > 0 {
                let ghost before = out@;
                let site = RawSites { file_id: file.id, path: file.path.clone(), lines };
                out.push(site);
                assert(raw_models(out@) == raw_models(before).push(site@));
            }
        }
        i = i + 1;
    }
    assert(files@.take(n as int) == files@);
    out
}

/// Whether a symbol is a function around a line.
pub open spec fn is_around(symbol: SymbolRow, line: usize) -> bool {
    symbol.line_start <= line <= symbol.line_end && calls::function_kind(symbol.kind@)
}

/// The innermost function around a line: the one that starts last, and of those
/// that start together the last one listed.
pub open spec fn enclosing(symbols: Seq<SymbolRow>, line: usize) -> Option<SymbolRow>
    decreases symbols.len(),
{
    if symbols.len() == 0 {
        None
    } else {
        let rest = enclosing(symbols.drop_last(), line);
        let symbol = symbols.last();
        if is_around(symbol, line) && (rest is None || rest->0.line_start <= symbol.line_start) {
            Some(symbol)
        } else {
            rest
        }
    }
}

/// The function that is named as enclosing a line is one around it, and none
/// around it starts later.
pub proof fn law_enclosing_is_innermost(symbols: Seq<SymbolRow>, line: usize)
    ensures
        match enclosing(symbols, line) {
            Some(symbol) => symbols.contains(symbol) && is_around(symbol, line) && forall|k: int|
                0 <= k < symbols.len() && is_around(#[trigger] symbols[k], line)
                    ==> symbols[k].line_start <= symbol.line_start,
            None => forall|k: int|
                0 <= k < symbols.len() ==> !is_around(#[trigger] symbols[k], line),
        },
    decreases symbols.len(),
{
    if symbols.len() > 0 {
        let rest = symbols.drop_last();
        law_enclosing_is_innermost(rest, line);
        assert(symbols[symbols.len() - 1] == symbols.last());
        match enclosing(symbols, line) {
            Some(symbol) => {
                if symbol != symbols.last() {
                    let k = choose|k: int| 0 <= k < rest.len() && rest[k] == symbol;
                    assert(symbols[k] == symbol);
                }
                assert forall|k: int|
                    0 <= k < symbols.len() && is_around(
                        #[trigger] symbols[k],
                        line,
                    ) implies symbols[k].line_start <= symbol.line_start by {
                    if k < rest.len() {
                        assert(rest[k] == symbols[k]);
                    }
                }
            },
            None => {
                assert forall|k: int| 0 <= k < symbols.len() implies !is_around(
                    #[trigger] symbols[k],
                    line,
                ) by {
                    if k < rest.len() {
                        assert(rest[k] == symbols[k]);
                    }
                }
            },
        }
    }
}

fn find_enclosing(symbols: &Vec<SymbolRow>, line: usize) -> (r: Option<&SymbolRow>)
    ensures
        match r {
            Some(symbol) => enclosing(symbols@, line) == Some(*symbol),
            None => enclosing(symbols@, line) is None,
        },
{
    let n: usize = symbols.len();
    let mut best: Option<usize> = None;
    let mut i: usize = 0;
    while i < n
        invariant
            n == symbols@.len(),
            i <= n,
            match best {
                Some(k) => k < n && enclosing(symbols@.take(i as int), line) == Some(
                    symbols@[k as int],
                ),
                None => enclosing(symbols@.take(i as int), line) is None,
            },
        decreases n - i,
    {
        assert(symbols@.take(i + 1).drop_last() == symbols@.take(i as int));
        let symbol = &symbols[i];
        let start: usize = symbol.line_start as usize;
        let end: usize = symbol.line_end as usize;
        if start <= line && line <= end && is_function_kind(symbol.kind.as_str()) {
            let later = match best {
                Some(k) => symbols[k].line_start <= symbol.line_start,
                None => true,
            };
            if later {
                best = Some(i);
            }
        }
        i = i + 1;
    }
    assert(symbols@.take(n as int) == symbols@);
    match best {
        Some(k) => Some(&symbols[k]),
        None => None,
    }
}

/// A call of a function, as plain values.
pub struct CallerModel {
    pub path: Seq<char>,
    pub line: usize,
    pub enclosing: Option<Seq<char>>,
}

impl View for CallerSite {
    type V = CallerModel;

    open spec fn view(&self) -> CallerModel {
        CallerModel {
            path: self.path@,
            line: self.line,
            enclosing: match self.enclosing {
                Some(name) => Some(name@),
                None => None,
            },
        }
    }
}

/// The callers of a list, as plain values.
pub open spec fn caller_models(sites: Seq<CallerSite>) -> Seq<CallerModel> {
    Seq::new(sites.len(), |i: int| sites[i]@)
}

/// The call on a line of a file with some symbols.
pub open spec fn caller_on(path: Seq<char>, symbols: Seq<SymbolRow>, line: usize) -> CallerModel {
    CallerModel {
        path,
        line,
        enclosing: match enclosing(symbols, line) {
            Some(symbol) => Some(symbol.name@),
            None => None,
        },
    }
}

/// The calls on some lines of a file with some symbols.
pub open spec fn callers_on(
    path: Seq<char>,
    symbols: Seq<SymbolRow>,
    lines: Seq<usize>,
) -> Seq<CallerModel> {
    Seq::new(lines.len(), |i: int| caller_on(path, symbols, lines[i]))
}

/// The calls in the first `n` files. `symbols[k]` are those of file `k`.
pub open spec fn callers_in(
    sites: Seq<RawSitesModel>,
    symbols: Seq<Vec<SymbolRow>>,
    n: nat,
) -> Seq<CallerModel>
    decreases n,
{
    if n == 0 {
        Seq::empty()
    } else {
        callers_in(sites, symbols, (n - 1) as nat) + callers_on(
            sites[n - 1].path,
            symbols[n - 1]@,
            sites[n - 1].lines,
        )
    }
}

/// Finds the function around each call. `symbols[k]` are the symbols of the file
/// of `sites[k]`.
pub fn resolve_callers(sites: &Vec<RawSites>, symbols: &Vec<Vec<SymbolRow>>) -> (r: Vec<
    CallerSite,
>)
    requires
        symbols@.len() == sites@.len(),
    ensures
        caller_models(r@) == callers_in(raw_models(sites@), symbols@, sites@.len()),
{
    let ghost models = raw_models(sites@);
    let n: usize = sites.len();
    let mut out: Vec<CallerSite> = Vec::new();
    let mut i: usize = 0;
    assert(caller_models(out@) == Seq::<CallerModel>::empty());
    while i < n
        invariant
            n == sites@.len(),
            symbols@.len() == n,
            models == raw_models(sites@),
            i <= n,
            caller_models(out@) == callers_in(models, symbols@, i as nat),
        decreases n - i,
    {
        let site = &sites[i];
        let m: usize = site.lines.len();
        let ghost start = caller_models(out@);
        let ghost added = callers_on(site.path@, symbols@[i as int]@, site.lines@);
        let mut j: usize = 0;
        assert(start + added.take(0) == start);
        while j < m
            invariant
                m == site.lines@.len(),
                i < n == symbols@.len(),
                added == callers_on(site.path@, symbols@[i as int]@, site.lines@),
                j <= m,
                caller_models(out@) == start + added.take(j as int),
            decreases m - j,
        {
            let line: usize = site.lines[j];
            let name = match find_enclosing(&symbols[i], line) {
                Some(symbol) => Some(symbol.name.clone()),
                None => None,
            };
            let ghost before = out@;
            let caller = CallerSite { path: site.path.clone(), line, enclosing: name };
            out.push(caller);
            proof {
                assert(caller@ == added[j as int]);
                assert(caller_models(out@) == caller_models(before).push(caller@));
                assert(start + added.take(j + 1) == (start + added.take(j as int)).push(
                    added[j as int],
                ));
            }
            j = j + 1;
        }
        assert(added.take(m as int) == added);
        i = i + 1;
    }
    out
}

/// The line on a call of a function.
pub open spec fn caller_line(site: CallerModel) -> Seq<char> {
    "  "@ + (match site.enclosing {
        Some(name) => name,
        None => "(top)"@,
    }) + " @ "@ + site.path + ":L"@ + text::decimal(site.line as nat) + "\n"@
}

/// The lines on some calls of a function.
pub open spec fn caller_lines(sites: Seq<CallerModel>) -> Seq<char>
    decreases sites.len(),
{
    if sites.len() == 0 {
        Seq::empty()
    } else {
        caller_lines(sites.drop_last()) + caller_line(sites.last())
    }
}

/// The section on the callers of a function.
pub open spec fn callers_section(sites: Seq<CallerModel>, concise: bool) -> Seq<char> {
    if sites.len() == 0 {
        "callers: none\n"@
    } else {
        "callers: "@ + text::decimal(sites.len()) + "\n"@ + (if concise {
            Seq::empty()
        } else {
            caller_lines(sites)
        })
    }
}

/// Appends the section on the callers of a function.
pub fn append_callers(out: &mut String, sites: &Vec<CallerSite>, concise: bool)
    ensures
        final(out)@ == old(out)@ + callers_section(caller_models(sites@), concise),
{
    let ghost models = caller_models(sites@);
    let n: usize = sites.len();
    if n == 0 {
        out.append("callers: none\n");
        return;
    }
    let mut section = "callers: ".to_owned();
    push_count(&mut section, n);
    section.append("\n");
    let ghost start = section@;
    assert(start + Seq::<char>::empty() == start);
    if !concise {
        let mut i: usize = 0;
        while i < n
            invariant
                n == sites@.len(),
                models == caller_models(sites@),
                i <= n,
                section@ == start + caller_lines(models.take(i as int)),
            decreases n - i,
        {
            let site = &sites[i];
            let mut line = "  ".to_owned();
            match &site.enclosing {
                Some(name) => {
                    line.append(name.as_str());
                },
                None => {
                    line.append("(top)");
                },
            }
            line.append(" @ ");
            line.append(site.path.as_str());
            line.append(":L");
            push_count(&mut line, site.line);
            line.append("\n");
            section.append(line.as_str());
            proof {
                assert(models.take(i + 1).drop_last() == models.take(i as int));
                assert(models.take(i + 1).last() == site@);
                assert(section@ == start + caller_lines(models.take(i + 1)));
            }
            i = i + 1;
        }
        assert(models.take(n as int) == models);
    }
    out.append(section.as_str());
}

/// The lines on which a name is called are those of its calls, in order; those of two
/// lists of calls are the ones of the first and then the ones of the second.
pub proof fn law_lines_of_calls(
    calls: Seq<CallSite>,
    more: Seq<CallSite>,
    name: Seq<char>,
    line: usize,
)
    ensures
        lines_of(calls, name).contains(line) <==> exists|k: int|
            0 <= k < calls.len() && (#[trigger] calls[k]).name@ == name && calls[k].line == line,
        lines_of(calls + more, name) == lines_of(calls, name) + lines_of(more, name),
    decreases more.len(),
{
    lemma_lines_hold(calls, name, line);
    if more.len() == 0 {
        assert(calls + more == calls);
        assert(lines_of(calls, name) + lines_of(more, name) == lines_of(calls, name));
    } else {
        law_lines_of_calls(calls, more.drop_last(), name, line);
        assert((calls + more).drop_last() == calls + more.drop_last());
        assert((calls + more).last() == more.last());
        assert(lines_of(calls + more, name) == lines_of(calls, name) + lines_of(more, name));
    }
}

proof fn lemma_lines_hold(calls: Seq<CallSite>, name: Seq<char>, line: usize)
    ensures
        lines_of(calls, name).contains(line) <==> exists|k: int|
            0 <= k < calls.len() && (#[trigger] calls[k]).name@ == name && calls[k].line == line,
    decreases calls.len(),
{
    if calls.len() > 0 {
        let rest = calls.drop_last();
        lemma_lines_hold(rest, name, line);
        order::lemma_contains_push(lines_of(rest, name), calls.last().line, line);
        assert(calls[calls.len() - 1] == calls.last());
        if lines_of(rest, name).contains(line) {
            let k = choose|k: int|
                0 <= k < rest.len() && (#[trigger] rest[k]).name@ == name && rest[k].line == line;
            assert(calls[k] == rest[k]);
        }
        if exists|k: int|
            0 <= k < calls.len() && (#[trigger] calls[k]).name@ == name && calls[k].line == line {
            let k = choose|k: int|
                0 <= k < calls.len() && (#[trigger] calls[k]).name@ == name && calls[k].line
                    == line;
            if k < rest.len() {
                assert(rest[k] == calls[k]);
            }
        }
    }
}

/// A file counts exactly when its source can be read and mentions the name, and when
/// it calls the name; it counts with all the lines on which it does.
pub proof fn law_files_that_call(files: Seq<ScannedFile>, name: Seq<char>, site: RawSitesModel)
    ensures
        raw_sites(files, name).contains(site) <==> exists|k: int|
            0 <= k < files.len() && (#[trigger] files[k]).source is Some && text::contains_text(
                files[k].source->0@,
                name,
            ) && site == (RawSitesModel {
                file_id: files[k].id,
                path: files[k].path@,
                lines: lines_of(files[k].calls@, name),
            }) && site.lines.len() > 0,
    decreases files.len(),
{
    if files.len() > 0 {
        let rest = files.drop_last();
        let last = files.last();
        law_files_that_call(rest, name, site);
        let own = RawSitesModel {
            file_id: last.id,
            path: last.path@,
            lines: lines_of(last.calls@, name),
        };
        order::lemma_contains_push(raw_sites(rest, name), own, site);
        assert(files[files.len() - 1] == last);
        assert(forall|k: int| 0 <= k < rest.len() ==> #[trigger] rest[k] == files[k]);
        if raw_sites(rest, name).contains(site) {
            let k = choose|k: int|
                0 <= k < rest.len() && (#[trigger] rest[k]).source is Some && text::contains_text(
                    rest[k].source->0@,
                    name,
                ) && site == (RawSitesModel {
                    file_id: rest[k].id,
                    path: rest[k].path@,
                    lines: lines_of(rest[k].calls@, name),
                }) && site.lines.len() > 0;
            assert(files[k] == rest[k]);
        }
        if exists|k: int|
            0 <= k < files.len() && (#[trigger] files[k]).source is Some && text::contains_text(
                files[k].source->0@,
                name,
            ) && site == (RawSitesModel {
                file_id: files[k].id,
                path: files[k].path@,
                lines: lines_of(files[k].calls@, name),
            }) && site.lines.len() > 0 {
            let k = choose|k: int|
                0 <= k < files.len() && (#[trigger] files[k]).source is Some && text::contains_text(
                    files[k].source->0@,
                    name,
                ) && site == (RawSitesModel {
                    file_id: files[k].id,
                    path: files[k].path@,
                    lines: lines_of(files[k].calls@, name),
                }) && site.lines.len() > 0;
            if k < rest.len() {
                assert(rest[k].source is Some);
            }
        }
    }
}

/// Every call of a file is resolved: it keeps its path and its line, and goes with
/// the innermost function around the line, which starts no later than the line, ends
/// no earlier, and is the last to start of all such functions.
#[verifier::rlimit(50)]
pub proof fn law_every_call_has_its_caller(
    sites: Seq<RawSitesModel>,
    symbols: Seq<Vec<SymbolRow>>,
    n: nat,
    k: int,
    j: int,
)
    requires
        n <= sites.len(),
        symbols.len() == sites.len(),
        0 <= k < n,
        0 <= j < sites[k].lines.len(),
    ensures
        ({
            let before = callers_in(sites, symbols, k as nat).len();
            let all = callers_in(sites, symbols, n);
            let line = sites[k].lines[j];
            let own = symbols[k]@;
            &&& before + j < all.len()
            &&& all[before + j].path == sites[k].path
            &&& all[before + j].line == line
            &&& all[before + j].enclosing is None ==> forall|i: int|
                0 <= i < own.len() ==> !((#[trigger] own[i]).line_start <= line
                    <= own[i].line_end && (own[i].kind@ == "function"@ || own[i].kind@ == "method"@
                    || own[i].kind@ == "constructor"@))
            &&& all[before + j].enclosing matches Some(name) ==> exists|i: int|
                0 <= i < own.len() && (#[trigger] own[i]).name@ == name && own[i].line_start <= line
                    <= own[i].line_end && (own[i].kind@ == "function"@ || own[i].kind@ == "method"@
                    || own[i].kind@ == "constructor"@) && forall|m: int|
                    0 <= m < own.len() && (#[trigger] own[m]).line_start <= line <= own[m].line_end
                        && (own[m].kind@ == "function"@ || own[m].kind@ == "method"@ || own[m].kind@
                        == "constructor"@) ==> own[m].line_start <= own[i].line_start
        }),
    decreases n,
{
    let before = callers_in(sites, symbols, k as nat);
    let line = sites[k].lines[j];
    let own = symbols[k]@;
    lemma_callers_prefix(sites, symbols, (k + 1) as nat, n);
    let next = callers_in(sites, symbols, (k + 1) as nat);
    let all = callers_in(sites, symbols, n);
    assert(next == before + callers_on(sites[k].path, own, sites[k].lines));
    assert(next[before.len() + j] == caller_on(sites[k].path, own, line));
    assert(next == all.subrange(0, next.len() as int));
    assert(all[before.len() + j] == next[before.len() + j]);
    law_enclosing_is_innermost(own, line);
    if let Some(symbol) = enclosing(own, line) {
        let i = choose|i: int| 0 <= i < own.len() && own[i] == symbol;
        assert(own[i].name@ == symbol.name@);
        assert forall|m: int|
            0 <= m < own.len() && (#[trigger] own[m]).line_start <= line <= own[m].line_end && (
            own[m].kind@ == "function"@ || own[m].kind@ == "method"@ || own[m].kind@
                == "constructor"@) implies own[m].line_start <= own[i].line_start by {
            assert(is_around(own[m], line));
        }
    } else {
        assert forall|i: int| 0 <= i < own.len() implies !((#[trigger] own[i]).line_start <= line
            <= own[i].line_end && (own[i].kind@ == "function"@ || own[i].kind@ == "method"@
            || own[i].kind@ == "constructor"@)) by {
            assert(!is_around(own[i], line));
        }
    }
}

proof fn lemma_callers_prefix(
    sites: Seq<RawSitesModel>,
    symbols: Seq<Vec<SymbolRow>>,
    m: nat,
    n: nat,
)
    requires
        m <= n,
    ensures
        callers_in(sites, symbols, m).is_prefix_of(callers_in(sites, symbols, n)),
    decreases n,
{
    if m < n {
        lemma_callers_prefix(sites, symbols, m, (n - 1) as nat);
    }
}

/// The section on callers has the line of every call, unless it is kept short.
#[verifier::rlimit(50)]
pub proof fn law_callers_are_shown(sites: Seq<CallerModel>, k: int)
    requires
        0 <= k < sites.len(),
    ensures
        text::contains_text(
            callers_section(sites, false),
            (if sites[k].enclosing is Some {
                sites[k].enclosing->0
            } else {
                "(top)"@
            }) + " @ "@ + sites[k].path + ":L"@ + text::decimal(sites[k].line as nat) + "\n"@,
        ),
        callers_section(sites, true) == "callers: "@ + text::decimal(sites.len()) + "\n"@,
{
    let name = if sites[k].enclosing is Some {
        sites[k].enclosing->0
    } else {
        "(top)"@
    };
    let words = name + " @ "@ + sites[k].path + ":L"@ + text::decimal(sites[k].line as nat)
        + "\n"@;
    assert(caller_line(sites[k]) == "  "@ + words);
    text::lemma_holds("  "@, words, Seq::empty());
    assert("  "@ + words + Seq::<char>::empty() == "  "@ + words);
    lemma_caller_shown(sites, k);
    text::lemma_holds_within(caller_lines(sites), caller_line(sites[k]), words);
    let head = "callers: "@ + text::decimal(sites.len()) + "\n"@;
    text::lemma_grows(caller_lines(sites), head, words);
    assert(head + Seq::<char>::empty() == head);
}

proof fn lemma_caller_shown(sites: Seq<CallerModel>, k: int)
    requires
        0 <= k < sites.len(),
    ensures
        text::contains_text(caller_lines(sites), caller_line(sites[k])),
    decreases sites.len(),
{
    let rest = sites.drop_last();
    let own = caller_line(sites.last());
    if k < rest.len() {
        lemma_caller_shown(rest, k);
        text::lemma_grows(caller_lines(rest), own, caller_line(sites[k]));
    } else {
        text::lemma_holds(caller_lines(rest), own, Seq::empty());
        assert(caller_lines(rest) + own + Seq::<char>::empty() == caller_lines(rest) + own);
    }
}

/// Of functions around a line that start together the last one listed is named.
pub proof fn law_last_of_equal_starts(symbols: Seq<SymbolRow>, line: usize, k: int)
    requires
        0 <= k < symbols.len(),
        is_around(symbols[k], line),
        forall|m: int|
            0 <= m < symbols.len() && is_around(#[trigger] symbols[m], line)
                ==> symbols[m].line_start < symbols[k].line_start || symbols[m].line_start
                == symbols[k].line_start && m <= k,
    ensures
        enclosing(symbols, line) == Some(symbols[k]),
    decreases symbols.len(),
{
    let rest = symbols.drop_last();
    assert(symbols[symbols.len() - 1] == symbols.last());
    assert(forall|m: int| 0 <= m < rest.len() ==> #[trigger] rest[m] == symbols[m]);
    if k < rest.len() {
        law_last_of_equal_starts(rest, line, k);
    } else {
        law_enclosing_is_innermost(rest, line);
        if let Some(other) = enclosing(rest, line) {
            let m = choose|m: int| 0 <= m < rest.len() && rest[m] == other;
            assert(is_around(symbols[m], line));
        }
    }
}

}
