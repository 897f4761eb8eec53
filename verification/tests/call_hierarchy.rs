use qartez::server::tools::calls::callees::{find_callees, CallsCache, ResolveCache};
use qartez::server::tools::calls::callers::{
    may_call, resolve_callers, scan_call_sites, CallerSite, ScannedFile,
};
use qartez::server::tools::calls::mermaid::{qartez_calls_mermaid, NodeNames};
use qartez::server::tools::calls::{qartez_calls, select_functions, CallDirection, CallSite};
use qartez::storage::models::{FileRow, SymbolRow};

fn file(id: i64, path: &str) -> FileRow {
    FileRow {
        id,
        path: path.to_string(),
        language: "rust".to_string(),
        change_count: 0,
    }
}

fn symbol(name: &str, kind: &str, start: u32, end: u32) -> SymbolRow {
    SymbolRow {
        name: name.to_string(),
        kind: kind.to_string(),
        line_start: start,
        line_end: end,
        file_id: 1,
        is_exported: true,
        complexity: None,
    }
}

fn call(name: &str, line: usize) -> CallSite {
    CallSite {
        name: name.to_string(),
        line,
    }
}

#[test]
fn only_functions_are_selected() {
    let symbols = vec![
        (symbol("run", "class", 1, 2), file(1, "a.rs")),
        (symbol("run", "method", 3, 4), file(1, "a.rs")),
        (symbol("run", "constructor", 5, 6), file(1, "a.rs")),
    ];
    let functions = select_functions("run", symbols).unwrap();
    assert_eq!(functions.len(), 2);
    assert_eq!(functions[0].0.kind, "method");
    assert_eq!(
        select_functions("run", Vec::new()).unwrap_err(),
        "No symbol 'run' found in index"
    );
    assert_eq!(
        select_functions("run", vec![(symbol("run", "class", 1, 2), file(1, "a.rs"))]).unwrap_err(),
        "'run' exists but is not a function/method"
    );
}

fn scanned(id: i64, path: &str, source: Option<&str>, calls: Vec<CallSite>) -> ScannedFile {
    ScannedFile {
        id,
        path: path.to_string(),
        source: source.map(|text| text.to_string()),
        calls,
    }
}

#[test]
fn callers_are_found_with_their_functions() {
    let files = vec![
        scanned(1, "a.rs", Some("run() run()"), vec![call("run", 5), call("x", 6), call("run", 20)]),
        scanned(2, "b.rs", Some("nothing"), vec![call("run", 1)]),
        scanned(3, "c.rs", None, vec![call("run", 1)]),
        scanned(4, "d.rs", Some("// run"), vec![call("x", 1)]),
    ];
    let sites = scan_call_sites(&files, "run");
    assert_eq!(sites.len(), 1);
    assert_eq!(sites[0].file_id, 1);
    assert_eq!(sites[0].lines, vec![5, 20]);
    let symbols = vec![vec![
        symbol("outer", "function", 1, 10),
        symbol("inner", "function", 4, 6),
        symbol("other", "class", 5, 5),
        symbol("twin", "method", 4, 7),
    ]];
    let callers = resolve_callers(&sites, &symbols);
    assert_eq!(callers.len(), 2);
    assert_eq!(callers[0].enclosing.as_deref(), Some("twin"));
    assert_eq!(callers[1].enclosing, None);
    assert_eq!(callers[1].line, 20);
    assert!(may_call(&Some("a run b".to_string()), "run"));
    assert!(!may_call(&None, "run"));
}

#[test]
fn callees_are_listed_once() {
    let calls = vec![call("a", 1), call("b", 2), call("a", 3), call("c", 9), call("b", 0)];
    assert_eq!(find_callees(&calls, &symbol("f", "function", 1, 5)), ["a", "b"]);
    assert!(find_callees(&calls, &symbol("f", "function", 20, 30)).is_empty());
}

fn caller(path: &str, line: usize, enclosing: Option<&str>) -> CallerSite {
    CallerSite {
        path: path.to_string(),
        line,
        enclosing: enclosing.map(|name| name.to_string()),
    }
}

fn caches() -> (CallsCache, ResolveCache) {
    let mut calls = CallsCache::new();
    calls.insert("a.rs", vec![call("b", 2), call("ext", 3), call("c", 4)]);
    calls.insert(
        "b.rs",
        vec![call("x", 1), call("run", 2), call("y", 2), call("b", 3), call("far", 50)],
    );
    calls.insert("c.rs", vec![call("y", 1), call("z", 1)]);
    let mut resolved = ResolveCache::new();
    resolved.insert("b", vec![(symbol("b", "function", 1, 5), file(2, "b.rs"))]);
    resolved.insert(
        "c",
        vec![
            (symbol("c", "method", 1, 5), file(3, "c.rs")),
            (symbol("c", "class", 1, 99), file(2, "b.rs")),
        ],
    );
    resolved.insert("ext", Vec::new());
    (calls, resolved)
}

#[test]
fn the_report_shows_both_sides() {
    let functions = vec![(symbol("run", "function", 1, 5), file(1, "a.rs"))];
    let sites = vec![caller("z.rs", 7, Some("main")), caller("y.rs", 8, None)];
    let (calls, resolved) = caches();
    assert_eq!(
        qartez_calls(&functions, &sites, &calls, &resolved, CallDirection::Both, Some(2), false),
        "run (function) @ a.rs:L1-5\ncallers: 2\n  main @ z.rs:L7\n  (top) @ y.rs:L8\ncallees: 3\n  b @ b.rs\n  ext (extern)\n  c @ c.rs\ndepth2:\n  b → {x, y}\n  c → z\n"
    );
    assert_eq!(
        qartez_calls(&functions, &sites, &calls, &resolved, CallDirection::Both, None, true),
        "run (function) @ a.rs:L1-5\ncallers: 2\ncallees: 3\n"
    );
    assert_eq!(
        qartez_calls(&functions, &Vec::new(), &calls, &resolved, CallDirection::Callers, Some(2), false),
        "run (function) @ a.rs:L1-5\ncallers: none\n"
    );
}

#[test]
fn a_function_without_calls() {
    let functions = vec![(symbol("idle", "function", 90, 95), file(1, "a.rs"))];
    let (calls, resolved) = caches();
    assert_eq!(
        qartez_calls(&functions, &Vec::new(), &calls, &resolved, CallDirection::Callees, Some(3), false),
        "idle (function) @ a.rs:L90-95\ncallees: none\ndepth2: none\n"
    );
}

fn names(list: &[&str]) -> NodeNames {
    let mut names = NodeNames::new();
    for name in list {
        names.insert(name, format!("n_{name}"), format!("label {name}"));
    }
    names
}

#[test]
fn the_diagram_shows_each_caller_once() {
    let sites = vec![
        caller("a.rs", 1, Some("main")),
        caller("b.rs", 2, Some("main")),
        caller("c.rs", 3, None),
    ];
    let callees = vec![vec!["x".to_string()], vec!["x".to_string()]];
    let mut nodes = names(&["run", "main", "x"]);
    nodes.insert("(top-level)", "top".to_string(), "top".to_string());
    assert_eq!(
        qartez_calls_mermaid("run", &sites, &callees, CallDirection::Both, &nodes),
        "graph TD\n  n_run[\"label run\"]\n  n_main[\"label main\"] --> n_run\n  top[\"top\"] --> n_run\n  n_run --> n_x[\"label x\"]\n  n_run --> n_x[\"label x\"]\n"
    );
    assert_eq!(
        qartez_calls_mermaid("run", &sites, &callees, CallDirection::Callees, &names(&["run", "x"])),
        "graph TD\n  n_run[\"label run\"]\n  n_run --> n_x[\"label x\"]\n  n_run --> n_x[\"label x\"]\n"
    );
}

#[test]
fn the_diagram_is_bounded() {
    let all: Vec<String> = (0..80).map(|i| format!("f{i}")).collect();
    let mut nodes = names(&["run"]);
    for name in &all {
        nodes.insert(name, name.clone(), name.clone());
    }
    let drawn =
        qartez_calls_mermaid("run", &Vec::new(), &vec![all], CallDirection::Callees, &nodes);
    assert_eq!(drawn.matches(" --> ").count(), 50);
    assert!(drawn.ends_with("  truncated[\"... truncated\"]\n"));
}
