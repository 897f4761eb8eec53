//! Who calls a function, and what it calls.
use vstd::prelude::*;
use vstd::string::*;

use crate::order;
use crate::storage::models::{FileRow, SymbolRow};
use crate::text;
use crate::text::{push_count, same};

pub mod callees;
pub mod callers;
pub mod mermaid;

use crate::server::tools::calls::callees::{
    append_callees, append_depth2, find_callees, CallsCache, ResolveCache,
};
use crate::server::tools::calls::callers::{append_callers, CallerSite};

verus! {

/// A call: the name that is called, and the line where.
#[derive(Debug)]
pub struct CallSite {
    pub name: String,
    pub line: usize,
}

/// Which side of a function is asked for.
#[derive(Clone, Copy, Debug, PartialEq, Eq, Structural)]
pub enum CallDirection {
    Callers,
    Callees,
    Both,
}

impl CallDirection {
    /// Whether callers are asked for.
    pub open spec fn callers(self) -> bool {
        self is Callers || self is Both
    }

    /// Whether callees are asked for.
    pub open spec fn callees(self) -> bool {
        self is Callees || self is Both
    }

    /// Tells whether callers are asked for.
    pub fn wants_callers(self) -> (r: bool)
        ensures
            r == self.callers(),
    {
        match self {
            CallDirection::Callers => true,
            CallDirection::Callees => false,
            CallDirection::Both => true,
        }
    }

    /// Tells whether callees are asked for.
    pub fn wants_callees(self) -> (r: bool)
        ensures
            r == self.callees(),
    {
        match self {
            CallDirection::Callers => false,
            CallDirection::Callees => true,
            CallDirection::Both => true,
        }
    }
}

/// Whether a kind of symbol makes calls of its own.
pub open spec fn function_kind(kind: Seq<char>) -> bool {
    kind == "function"@ || kind == "method"@ || kind == "constructor"@
}

fn is_function_kind(kind: &str) -> (r: bool)
    ensures
        r == function_kind(kind@),
{
    same(kind, "function") || same(kind, "method") || same(kind, "constructor")
}

/// The functions among `symbols`, in order.
pub open spec fn functions_of(symbols: Seq<(SymbolRow, FileRow)>) -> Seq<(SymbolRow, FileRow)>
    decreases symbols.len(),
{
    if symbols.len() == 0 {
        Seq::empty()
    } else {
        let rest = functions_of(symbols.drop_last());
        if function_kind(symbols.last().0.kind@) {
            rest.push(symbols.last())
        } else {
            rest
        }
    }
}

/// Picks the functions among the symbols that have the name `name`.
pub fn select_functions(name: &str, symbols: Vec<(SymbolRow, FileRow)>) -> (r: Result<
    Vec<(SymbolRow, FileRow)>,
    String,
>)
    ensures
        match r {
            Ok(functions) => functions@ == functions_of(symbols@) && functions@.len() > 0,
            Err(message) => functions_of(symbols@).len() == 0 && message@ == if symbols@.len()
                == 0 {
                "No symbol '"@ + name@ + "' found in index"@
            } else {
                "'"@ + name@ + "' exists but is not a function/method"@
            },
        },
{
    let ghost all = symbols@;
    let mut rest = symbols;
    let n: usize = rest.len();
    if n == 0 {
        let mut message = "No symbol '".to_owned();
        message.append(name);
        message.append("' found in index");
        return Err(message);
    }
    let mut out: Vec<(SymbolRow, FileRow)> = Vec::new();
    let mut i: usize = 0;
    assert(all.skip(0) == all);
    while i < n
        invariant
            n == all.len(),
            i <= n,
            rest@ == all.skip(i as int),
            out@ == functions_of(all.take(i as int)),
        decreases n - i,
    {
        let (symbol, file) = rest.remove(0);
        assert(all.take(i + 1).drop_last() == all.take(i as int));
        if is_function_kind(symbol.kind.as_str()) {
            out.push((symbol, file));
        }
        i = i + 1;
    }
    assert(all.take(n as int) == all);
    if out.len() == 0 {
        let mut message = "'".to_owned();
        message.append(name);
        message.append("' exists but is not a function/method");
        return Err(message);
    }
    Ok(out)
}

/// The depth that is asked for: one by default.
pub open spec fn depth_asked(depth: Option<u32>) -> nat {
    match depth {
        Some(depth) => depth as nat,
        None => 1,
    }
}

/// The line that opens the part on a function.
pub open spec fn function_line(symbol: SymbolRow, file: FileRow) -> Seq<char> {
    symbol.name@ + " ("@ + symbol.kind@ + ") @ "@ + file.path@ + ":L"@ + text::decimal(
        symbol.line_start as nat,
    ) + "-"@ + text::decimal(symbol.line_end as nat) + "\n"@
}

/// The part of the report on a function.
pub open spec fn function_part(
    function: (SymbolRow, FileRow),
    sites: Seq<callers::CallerModel>,
    calls: Map<Seq<char>, Seq<CallSite>>,
    resolved: Map<Seq<char>, Seq<(SymbolRow, FileRow)>>,
    direction: CallDirection,
    depth: nat,
    concise: bool,
) -> Seq<char> {
    let (symbol, file) = function;
    let names = callees::direct_callees(callees::calls_at(calls, file.path@), symbol);
    function_line(symbol, file) + (if direction.callers() {
        callers::callers_section(sites, concise)
    } else {
        Seq::empty()
    }) + (if direction.callees() {
        callees::callees_section(resolved, names, concise)
    } else {
        Seq::empty()
    }) + (if direction.callees() && depth > 1 {
        callees::depth2_section(
            callees::second_level_groups(
                calls,
                resolved,
                callees::known_names(symbol.name@, names),
                names,
                names.len(),
            ),
        )
    } else {
        Seq::empty()
    })
}

/// The parts of the report on some functions.
pub open spec fn calls_report(
    functions: Seq<(SymbolRow, FileRow)>,
    sites: Seq<callers::CallerModel>,
    calls: Map<Seq<char>, Seq<CallSite>>,
    resolved: Map<Seq<char>, Seq<(SymbolRow, FileRow)>>,
    direction: CallDirection,
    depth: nat,
    concise: bool,
) -> Seq<char>
    decreases functions.len(),
{
    if functions.len() == 0 {
        Seq::empty()
    } else {
        calls_report(
            functions.drop_last(),
            sites,
            calls,
            resolved,
            direction,
            depth,
            concise,
        ) + function_part(functions.last(), sites, calls, resolved, direction, depth, concise)
    }
}

/// Reports who calls each of `functions`, and what it calls. `sites` are the
/// calls of their common name; `calls` holds the calls of the files that define
/// them, and `resolved` what their callees stand for.
pub fn qartez_calls(
    functions: &Vec<(SymbolRow, FileRow)>,
    sites: &Vec<CallerSite>,
    calls: &CallsCache,
    resolved: &ResolveCache,
    direction: CallDirection,
    depth: Option<u32>,
    concise: bool,
) -> (r: String)
    ensures
        r@ == calls_report(
            functions@,
            callers::caller_models(sites@),
            calls@,
            resolved@,
            direction,
            depth_asked(depth),
            concise,
        ),
{
    let ghost models = callers::caller_models(sites@);
    let levels: u32 = match depth {
        Some(depth) => depth,
        None => 1,
    };
    let empty: Vec<CallSite> = Vec::new();
    let n: usize = functions.len();
    let mut out = String::new();
    let mut i: usize = 0;
    while i < n
        invariant
            n == functions@.len(),
            levels == depth_asked(depth),
            empty@.len() == 0,
            models == callers::caller_models(sites@),
            i <= n,
            out@ == calls_report(
                functions@.take(i as int),
                models,
                calls@,
                resolved@,
                direction,
                depth_asked(depth),
                concise,
            ),
        decreases n - i,
    {
        let symbol = &functions[i].0;
        let file = &functions[i].1;
        let mut part = symbol.name.clone();
        part.append(" (");
        part.append(symbol.kind.as_str());
        part.append(") @ ");
        part.append(file.path.as_str());
        part.append(":L");
        push_count(&mut part, symbol.line_start as usize);
        part.append("-");
        push_count(&mut part, symbol.line_end as usize);
        part.append("\n");
        if direction.wants_callers() {
            append_callers(&mut part, sites, concise);
        } else {
            assert(part@ + Seq::<char>::empty() == part@);
        }
        if direction.wants_callees() {
            let list = match calls.get(file.path.as_str()) {
                Some(list) => list,
                None => &empty,
            };
            assert(list@ == callees::calls_at(calls@, file.path@));
            let names = find_callees(list, symbol);
            append_callees(&mut part, resolved, &names, concise);
            if levels > 1 {
                append_depth2(&mut part, calls, resolved, symbol.name.as_str(), &names);
            } else {
                assert(part@ + Seq::<char>::empty() == part@);
            }
        } else {
            assert(part@ + Seq::<char>::empty() == part@);
        }
        proof {
            assert(functions@.take(i + 1).drop_last() == functions@.take(i as int));
            assert(functions@.take(i + 1).last() == (*symbol, *file));
            assert(part@ == function_part(
                (*symbol, *file),
                models,
                calls@,
                resolved@,
                direction,
                depth_asked(depth),
                concise,
            ));
        }
        out.append(part.as_str());
        i = i + 1;
    }
    assert(functions@.take(n as int) == functions@);
    out
}

/// The functions among some symbols are those of the kinds `function`, `method` and
/// `constructor`, in order; the functions of two lists are those of the one and then
/// those of the other.
pub proof fn law_functions(
    symbols: Seq<(SymbolRow, FileRow)>,
    more: Seq<(SymbolRow, FileRow)>,
    symbol: (SymbolRow, FileRow),
)
    ensures
        functions_of(symbols).contains(symbol) <==> symbols.contains(symbol) && (symbol.0.kind@
            == "function"@ || symbol.0.kind@ == "method"@ || symbol.0.kind@ == "constructor"@),
        functions_of(symbols + more) == functions_of(symbols) + functions_of(more),
    decreases more.len(),
{
    lemma_functions_hold(symbols, symbol);
    if more.len() == 0 {
        assert(symbols + more == symbols);
        assert(functions_of(symbols) + functions_of(more) == functions_of(symbols));
    } else {
        law_functions(symbols, more.drop_last(), symbol);
        assert((symbols + more).drop_last() == symbols + more.drop_last());
        assert((symbols + more).last() == more.last());
        assert(functions_of(symbols + more) == functions_of(symbols) + functions_of(more));
    }
}

proof fn lemma_functions_hold(symbols: Seq<(SymbolRow, FileRow)>, symbol: (SymbolRow, FileRow))
    ensures
        functions_of(symbols).contains(symbol) <==> symbols.contains(symbol) && function_kind(
            symbol.0.kind@,
        ),
    decreases symbols.len(),
{
    if symbols.len() > 0 {
        let rest = symbols.drop_last();
        lemma_functions_hold(rest, symbol);
        assert(symbols == rest.push(symbols.last()));
        order::lemma_contains_push(rest, symbols.last(), symbol);
        order::lemma_contains_push(functions_of(rest), symbols.last(), symbol);
    }
}

/// The part on a function opens with its line. It goes on with the section on its
/// callers and the one on its callees, as far as they are asked for, and with the
/// section on the second level only where callees are asked for and a depth of two at
/// least.
pub proof fn law_sections_that_are_asked_for(
    function: (SymbolRow, FileRow),
    sites: Seq<callers::CallerModel>,
    calls: Map<Seq<char>, Seq<CallSite>>,
    resolved: Map<Seq<char>, Seq<(SymbolRow, FileRow)>>,
    depth: Option<u32>,
    concise: bool,
)
    ensures
        ({
            let line = function_line(function.0, function.1);
            let names = callees::direct_callees(
                callees::calls_at(calls, function.1.path@),
                function.0,
            );
            let above = callers::callers_section(sites, concise);
            let below = callees::callees_section(resolved, names, concise);
            let second = callees::depth2_section(
                callees::second_level_groups(
                    calls,
                    resolved,
                    callees::known_names(function.0.name@, names),
                    names,
                    names.len(),
                ),
            );
            let part = |direction: CallDirection| function_part(
                function,
                sites,
                calls,
                resolved,
                direction,
                depth_asked(depth),
                concise,
            );
            let deep = depth is Some && depth->0 >= 2;
            &&& part(CallDirection::Callers) == line + above
            &&& !deep ==> part(CallDirection::Callees) == line + below
            &&& !deep ==> part(CallDirection::Both) == line + above + below
            &&& deep ==> part(CallDirection::Callees) == line + below + second
            &&& deep ==> part(CallDirection::Both) == line + above + below + second
        }),
{
    let line = function_line(function.0, function.1);
    let names = callees::direct_callees(callees::calls_at(calls, function.1.path@), function.0);
    let above = callers::callers_section(sites, concise);
    let below = callees::callees_section(resolved, names, concise);
    let empty = Seq::<char>::empty();
    assert(line + above + empty + empty == line + above);
    assert(line + empty + below == line + below);
    assert(line + below + empty == line + below);
    assert(line + above + below + empty == line + above + below);
}

/// Functions are picked exactly where there are any among the symbols; a name without
/// a symbol and a name of other symbols alone are refused differently.
pub proof fn law_selected_functions(
    name: &str,
    symbols: Vec<(SymbolRow, FileRow)>,
    r: Result<Vec<(SymbolRow, FileRow)>, String>,
    symbol: (SymbolRow, FileRow),
)
    requires
        call_ensures(select_functions, (name, symbols), r),
    ensures
        r matches Ok(functions) ==> (functions@.contains(symbol) <==> symbols@.contains(symbol) && (
        symbol.0.kind@ == "function"@ || symbol.0.kind@ == "method"@ || symbol.0.kind@
            == "constructor"@)),
        symbols@.contains(symbol) && (symbol.0.kind@ == "function"@ || symbol.0.kind@ == "method"@
            || symbol.0.kind@ == "constructor"@) ==> r is Ok,
        symbols@.len() == 0 ==> r is Err && r->Err_0@ == "No symbol '"@ + name@
            + "' found in index"@,
        r is Err && symbols@.len() > 0 ==> r->Err_0@ == "'"@ + name@
            + "' exists but is not a function/method"@,
{
    law_functions(symbols@, Seq::empty(), symbol);
    assert(functions_of(Seq::<(SymbolRow, FileRow)>::empty()).len() == 0);
}

/// The report has the part on every function.
pub proof fn law_every_function_is_reported(
    functions: Seq<(SymbolRow, FileRow)>,
    sites: Seq<callers::CallerModel>,
    calls: Map<Seq<char>, Seq<CallSite>>,
    resolved: Map<Seq<char>, Seq<(SymbolRow, FileRow)>>,
    direction: CallDirection,
    depth: nat,
    concise: bool,
    k: int,
)
    requires
        0 <= k < functions.len(),
    ensures
        text::contains_text(
            calls_report(functions, sites, calls, resolved, direction, depth, concise),
            function_part(functions[k], sites, calls, resolved, direction, depth, concise),
        ),
        text::contains_text(
            calls_report(functions, sites, calls, resolved, direction, depth, concise),
            functions[k].0.name@ + " ("@ + functions[k].0.kind@ + ") @ "@ + functions[k].1.path@
                + ":L"@ + text::decimal(functions[k].0.line_start as nat) + "-"@ + text::decimal(
                functions[k].0.line_end as nat,
            ) + "\n"@,
        ),
    decreases functions.len(),
{
    let rest = functions.drop_last();
    let part = |i: int| function_part(
        functions[i],
        sites,
        calls,
        resolved,
        direction,
        depth,
        concise,
    );
    let front = calls_report(rest, sites, calls, resolved, direction, depth, concise);
    let last = functions.len() - 1;
    let whole = calls_report(functions, sites, calls, resolved, direction, depth, concise);
    assert(whole == front + part(last));
    if k < rest.len() {
        law_every_function_is_reported(
            rest,
            sites,
            calls,
            resolved,
            direction,
            depth,
            concise,
            k,
        );
        assert(rest[k] == functions[k]);
        text::lemma_grows(front, part(last), part(k));
    } else {
        text::lemma_holds(front, part(last), Seq::empty());
        assert(front + part(last) + Seq::<char>::empty() == whole);
    }
    let line = function_line(functions[k].0, functions[k].1);
    lemma_line_opens_part(functions[k], sites, calls, resolved, direction, depth, concise);
    text::lemma_holds_within(whole, part(k), line);
}

proof fn lemma_line_opens_part(
    function: (SymbolRow, FileRow),
    sites: Seq<callers::CallerModel>,
    calls: Map<Seq<char>, Seq<CallSite>>,
    resolved: Map<Seq<char>, Seq<(SymbolRow, FileRow)>>,
    direction: CallDirection,
    depth: nat,
    concise: bool,
)
    ensures
        text::contains_text(
            function_part(function, sites, calls, resolved, direction, depth, concise),
            function_line(function.0, function.1),
        ),
{
    let line = function_line(function.0, function.1);
    let names = callees::direct_callees(callees::calls_at(calls, function.1.path@), function.0);
    let empty = Seq::<char>::empty();
    let a = if direction.callers() {
        callers::callers_section(sites, concise)
    } else {
        Seq::empty()
    };
    let b = if direction.callees() {
        callees::callees_section(resolved, names, concise)
    } else {
        Seq::empty()
    };
    let c = if direction.callees() && depth > 1 {
        callees::depth2_section(
            callees::second_level_groups(
                calls,
                resolved,
                callees::known_names(function.0.name@, names),
                names,
                names.len(),
            ),
        )
    } else {
        Seq::empty()
    };
    text::lemma_holds(empty, line, a);
    assert(empty + line == line);
    text::lemma_grows(line + a, b, line);
    text::lemma_grows(line + a + b, c, line);
}

}
