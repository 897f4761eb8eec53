use qartez::server::tools::boundaries::{
    config_path, qartez_boundaries, suggest_step, BoundaryRule, RuleCheck, SuggestStep, Violation,
};
use qartez::server::tools::clones::{
    filter_test_members, line_limit, page_limit, paths_to_scan, qartez_clones, CfgTestBlockCache,
    CloneGroup,
};
use qartez::server::tools::cochange::{
    commit_size_limit, needs_stored, qartez_cochange, unknown_file_message, CochangePair,
};
use qartez::server::tools::project::{
    qartez_project, report_run, ProjectAction, ProjectStep, Toolchain,
};
use qartez::server::tools::tools_meta::{
    qartez_tools, Catalog, EnabledTools, RegisteredTool, Tier,
};
use qartez::server::tools::trend::{
    qartez_trend, require_history, Delta, SymbolTrend, TrendPoint,
};
use qartez::server::tools::unused::qartez_unused;
use qartez::storage::models::{FileRow, SymbolRow};

fn strings(list: &[&str]) -> Vec<String> {
    list.iter().map(|item| item.to_string()).collect()
}

fn file(path: &str, language: &str) -> FileRow {
    FileRow {
        id: 1,
        path: path.to_string(),
        language: language.to_string(),
        change_count: 0,
    }
}

fn symbol(name: &str, kind: &str, start: u32, end: u32) -> SymbolRow {
    SymbolRow {
        name: name.to_string(),
        kind: kind.to_string(),
        line_start: start,
        line_end: end,
        file_id: 1,
        is_exported: true,
        complexity: None,
    }
}

#[test]
fn the_rules_have_a_usual_place() {
    assert_eq!(config_path(None), ".qartez/boundaries.toml");
    assert_eq!(config_path(Some("  ")), ".qartez/boundaries.toml");
    assert_eq!(config_path(Some(" my.toml ")), "my.toml");
    assert_eq!(
        qartez_boundaries("x.toml", None, false),
        "No boundary config at x.toml. Run `qartez_boundaries suggest=true write_to=x.toml` to generate a starter file."
    );
}

fn answer_of(step: SuggestStep) -> String {
    match step {
        SuggestStep::Answer(text) => text,
        SuggestStep::Write { path, answer } => format!("[{path}] {answer}"),
    }
}

#[test]
fn suggested_rules_are_shown_or_written() {
    assert!(answer_of(suggest_step(0, 0, "", None)).starts_with("No cluster assignment found."));
    assert!(answer_of(suggest_step(3, 0, "", None)).starts_with("No candidate rules:"));
    assert_eq!(answer_of(suggest_step(3, 2, "rules", None)), "rules");
    assert_eq!(answer_of(suggest_step(3, 2, "rules", Some("  "))), "rules");
    assert_eq!(
        answer_of(suggest_step(3, 2, "rulés", Some(" out.toml "))),
        "[out.toml] Wrote 2 rule(s) to out.toml (6 bytes)."
    );
}

fn violation(from: &str, rule_index: usize) -> Violation {
    Violation {
        from_file: from.to_string(),
        to_file: "db.rs".to_string(),
        rule_index,
        deny_pattern: "db*".to_string(),
    }
}

fn check(violations: Vec<Violation>) -> RuleCheck {
    RuleCheck {
        rules: vec![
            BoundaryRule {
                from: "ui/**".to_string(),
                deny: strings(&["db*", "net*"]),
            },
            BoundaryRule {
                from: "core/**".to_string(),
                deny: strings(&["db*"]),
            },
        ],
        edges: 9,
        violations,
    }
}

#[test]
fn violations_are_grouped_by_rule() {
    let found = check(vec![violation("a.rs", 0), violation("b.rs", 0), violation("c.rs", 1)]);
    assert_eq!(
        qartez_boundaries("x.toml", Some(&found), false),
        "3 violation(s) across 2 rule(s):\n\nRule #0: ui/** !-> db* | net*\n  a.rs -> db.rs (matched deny pattern: db*)\n  b.rs -> db.rs (matched deny pattern: db*)\n\nRule #1: core/** !-> db*\n  c.rs -> db.rs (matched deny pattern: db*)\n"
    );
    assert_eq!(
        qartez_boundaries("x.toml", Some(&check(vec![violation("a.rs", 7)])), true),
        "1 violation(s) across 2 rule(s):\na.rs -> db.rs (rule #7: deny db*)\n"
    );
    assert_eq!(
        qartez_boundaries("x.toml", Some(&check(Vec::new())), false),
        "No boundary violations across 2 rule(s) and 9 edges."
    );
}

fn member(path: &str, language: &str, start: u32, end: u32) -> (SymbolRow, FileRow) {
    (symbol("f", "function", start, end), file(path, language))
}

#[test]
fn members_of_tests_are_dropped() {
    let mut cache = CfgTestBlockCache::new();
    let groups = vec![CloneGroup {
        shape_hash: 7,
        symbols: vec![
            member("tests/a.rs", "rust", 1, 9),
            member("src/a.rs", "rust", 1, 9),
            member("src/a.rs", "rust", 52, 60),
            member("src/b.py", "python", 52, 60),
        ],
    }];
    assert_eq!(paths_to_scan(&groups, &cache), ["src/a.rs", "src/a.rs"]);
    cache.insert("src/a.rs", vec![(50, 80)]);
    assert!(paths_to_scan(&groups, &cache).is_empty());
    let left = filter_test_members(groups.into_iter().next().unwrap(), &cache).unwrap();
    assert_eq!(left.shape_hash, 7);
    assert_eq!(left.symbols.len(), 2);
    assert_eq!(left.symbols[0].1.path, "src/a.rs");
    assert_eq!(left.symbols[1].1.path, "src/b.py");
    let again = filter_test_members(left, &cache).unwrap();
    assert_eq!(again.symbols.len(), 2);
}

#[test]
fn a_group_needs_two_places() {
    let cache = CfgTestBlockCache::new();
    let group = CloneGroup {
        shape_hash: 1,
        symbols: vec![member("a.py", "python", 1, 9), member("a.py", "python", 1, 9)],
    };
    assert!(filter_test_members(group, &cache).is_none());
    assert!(cache.lacks("a.rs", "rust"));
    assert!(!cache.lacks("a.py", "python"));
    assert!(cache.ranges_for("a.py", "python").is_none());
}

fn page() -> Vec<CloneGroup> {
    vec![CloneGroup {
        shape_hash: 1,
        symbols: vec![member("a.py", "python", 3, 12), member("tests/b.py", "python", 5, 14)],
    }]
}

#[test]
fn clone_groups_are_reported_by_page() {
    let cache = CfgTestBlockCache::new();
    assert_eq!(
        qartez_clones(0, 8, 0, Vec::new(), false, &cache, false),
        "No code clones detected. All symbols have unique structural shapes."
    );
    assert_eq!(
        qartez_clones(4, 8, 2, page(), false, &cache, false),
        "No clones in page (total=4, offset=2)."
    );
    assert_eq!(
        qartez_clones(4, 8, 2, page(), true, &cache, false),
        "4 clone group(s) (min 8 lines); showing 1 from offset 2 (next: offset=3).\n\n2 duplicate symbols across 1 group(s).\n\n## Clone group #3 — 2 duplicates, ~10 lines each\n  f f @ a.py L3-12\n  f f @ tests/b.py L5-14\n\n"
    );
    assert_eq!(
        qartez_clones(1, 5, 0, page(), true, &cache, true),
        "1 clone group(s) (min 5 lines).\n\n2 duplicate symbols across 1 group(s).\n\n#1 (2x, ~10L): a.py:3 tests/b.py:5\n"
    );
    assert_eq!(page_limit(None), 20);
    assert_eq!(page_limit(Some(0)), 1);
    assert_eq!(line_limit(None), 8);
}

fn fixture() -> (Vec<CloneGroup>, CfgTestBlockCache) {
    let row = |name: &str, path: &str, file_id: i64, start: u32, end: u32| {
        (
            SymbolRow {
                file_id,
                ..symbol(name, "function", start, end)
            },
            FileRow {
                id: file_id,
                ..file(path, "rust")
            },
        )
    };
    let groups = vec![CloneGroup {
        shape_hash: 11,
        symbols: vec![
            row("process_a", "src/main_lib.rs", 1, 1, 7),
            row("process_b", "src/main_lib.rs", 1, 9, 15),
            row("test_fixture_alpha", "src/main_lib.rs", 1, 21, 27),
            row("test_fixture_beta", "src/main_lib.rs", 1, 29, 35),
            row("integration_helper", "tests/integration.rs", 2, 1, 7),
        ],
    }];
    let mut cache = CfgTestBlockCache::new();
    assert_eq!(paths_to_scan(&groups, &cache), ["src/main_lib.rs"; 4]);
    cache.insert("src/main_lib.rs", vec![(17, 36)]);
    assert!(paths_to_scan(&groups, &cache).is_empty());
    (groups, cache)
}

#[test]
fn clones_default_excludes_cfg_test_and_test_path_members() {
    let (groups, cache) = fixture();
    assert!(groups.len() as i64 <= page_limit(Some(50)));
    let out = qartez_clones(1, line_limit(Some(5)), 0, groups, false, &cache, false);
    assert!(
        out.contains("process_a") && out.contains("process_b"),
        "production clones must surface by default: {out}"
    );
    assert!(
        !out.contains("test_fixture_alpha"),
        "cfg(test) fixture alpha must be filtered by default: {out}"
    );
    assert!(
        !out.contains("test_fixture_beta"),
        "cfg(test) fixture beta must be filtered by default: {out}"
    );
    assert!(
        !out.contains("integration_helper"),
        "tests/ path member must be filtered by default: {out}"
    );
}

#[test]
fn clones_include_tests_restores_all_members() {
    let (groups, cache) = fixture();
    assert!(groups.len() as i64 <= page_limit(Some(50)));
    let out = qartez_clones(1, line_limit(Some(5)), 0, groups, true, &cache, false);
    for expected in [
        "process_a",
        "process_b",
        "test_fixture_alpha",
        "test_fixture_beta",
        "integration_helper",
    ] {
        assert!(
            out.contains(expected),
            "include_tests=true must surface '{expected}': {out}"
        );
    }
}

fn pair(path: &str, count: u32) -> CochangePair {
    CochangePair {
        path: path.to_string(),
        shown_path: path.to_string(),
        count,
    }
}

#[test]
fn cochanges_come_from_history_or_from_the_store() {
    assert!(needs_stored(&None));
    assert!(needs_stored(&Some(Vec::new())));
    assert!(!needs_stored(&Some(vec![pair("b.rs", 3)])));
    assert_eq!(
        qartez_cochange("a.rs", 30, Some(vec![pair("b.rs", 3), pair("c.rs", 2)]), Vec::new(), true),
        "Co-changes for a.rs (max_commit_size=30): b.rs (3), c.rs (2)"
    );
    assert_eq!(
        qartez_cochange("a.rs", 5, Some(Vec::new()), vec![pair("b.rs", 3)], false),
        format!(
            "# Co-changes for: a.rs (max_commit_size=5)\n\n # | File                                | Count\n---+-------------------------------------+------\n{:>2} | {:<35} | {}\n",
            1, "b.rs", 3
        )
    );
    assert_eq!(
        qartez_cochange("a.rs", 30, None, Vec::new(), false),
        "No co-change data found for 'a.rs'. Run with git history available."
    );
    assert_eq!(unknown_file_message("a.rs"), "File 'a.rs' not found in index");
    assert_eq!(commit_size_limit(None), 30);
    assert_eq!(qartez::server::tools::cochange::row_limit(None), 10);
}

fn toolchain(lint: Option<&[&str]>) -> Toolchain {
    Toolchain {
        name: "cargo".to_string(),
        build_tool: "cargo".to_string(),
        test_cmd: strings(&["cargo", "test"]),
        build_cmd: strings(&["cargo", "build"]),
        lint_cmd: lint.map(strings),
        typecheck_cmd: None,
    }
}

fn answered(step: Result<ProjectStep<'_>, String>) -> String {
    match step {
        Ok(ProjectStep::Answer(text)) => text,
        Ok(ProjectStep::Execute(run)) => format!("{} {:?}", run.label, run.cmd),
        Err(message) => format!("error: {message}"),
    }
}

#[test]
fn toolchains_are_described() {
    let all = vec![toolchain(Some(&["cargo", "clippy"])), toolchain(None)];
    assert_eq!(
        answered(qartez_project(&all, &vec![true, false], ProjectAction::Info, None, None)),
        "# Project toolchain: cargo\n\nBuild tool: cargo\nTest:       cargo test\nBuild:      cargo build\nLint:       cargo clippy\n\n# Project toolchain: cargo (not found on PATH)\n\nBuild tool: cargo\nTest:       cargo test\nBuild:      cargo build\n"
    );
    for action in [ProjectAction::Info, ProjectAction::Run, ProjectAction::Test] {
        let answer = answered(qartez_project(&Vec::new(), &Vec::new(), action, None, None));
        assert!(answer.starts_with("error: No recognized toolchain found."));
    }
}

#[test]
fn dry_runs_show_the_command() {
    let all = vec![toolchain(None)];
    let run = |filter| answered(qartez_project(&all, &vec![true], ProjectAction::Run, filter, None));
    assert_eq!(run(None), "# cargo test (dry-run — command not executed)\n$ cargo test\n");
    assert_eq!(run(Some("build")), "# cargo build (dry-run — command not executed)\n$ cargo build\n");
    assert_eq!(run(Some("lint")), "error: No lint command configured for cargo toolchain");
    assert_eq!(run(Some("typecheck")), "error: No typecheck command configured for cargo toolchain");
    assert_eq!(
        run(Some("deploy")),
        "error: Unknown run subcommand 'deploy'. Supported: test, build, lint, typecheck"
    );
}

#[test]
fn commands_are_executed_with_a_limit() {
    let all = vec![toolchain(Some(&["cargo", "clippy"]))];
    let available = vec![true];
    let ask = |action, filter, timeout| qartez_project(&all, &available, action, filter, timeout);
    match ask(ProjectAction::Test, Some("my_test"), Some(9999)) {
        Ok(ProjectStep::Execute(run)) => {
            assert_eq!(run.timeout, 600);
            assert_eq!(run.cmd, &strings(&["cargo", "test"]));
            assert_eq!(
                report_run(&run, 0, "ok\n"),
                "# TEST SUCCESS (exit code: 0)\n$ cargo test my_test\n\nok\n"
            );
        }
        other => panic!("{other:?}"),
    }
    match ask(ProjectAction::Lint, None, None) {
        Ok(ProjectStep::Execute(run)) => {
            assert_eq!(run.timeout, 60);
            assert_eq!(
                report_run(&run, -1, ""),
                "# LINT FAILED (exit code: -1)\n$ cargo clippy\n\n"
            );
        }
        other => panic!("{other:?}"),
    }
    assert_eq!(
        answered(ask(ProjectAction::Build, Some("-x"), None)),
        "error: Filter must not start with '-': -x"
    );
    assert_eq!(
        answered(ask(ProjectAction::Typecheck, None, None)),
        "error: No typecheck command configured for cargo toolchain"
    );
}

fn catalog() -> Catalog {
    let tool = |name: &str, description: Option<&str>| RegisteredTool {
        name: name.to_string(),
        description: description.map(|text| text.to_string()),
    };
    Catalog {
        tiers: vec![
            Tier {
                name: "core".to_string(),
                tools: strings(&["find", "tools"]),
            },
            Tier {
                name: "analysis".to_string(),
                tools: strings(&["map"]),
            },
        ],
        tools: vec![
            tool("find", Some("Finds. Quickly.")),
            tool("map", None),
            tool("tools", Some("Lists")),
            tool("extra", Some("More")),
        ],
        meta_tool: "tools".to_string(),
    }
}

#[test]
fn tools_are_listed_by_tier() {
    let mut enabled = EnabledTools::new();
    enabled.insert("find");
    enabled.insert("tools");
    let answer = qartez_tools(&catalog(), &mut enabled, None, None);
    assert!(!answer.changed);
    assert_eq!(
        answer.text,
        "# Qartez Tool Tiers\n\n## core (enabled)\n- [x] `find` -- Finds\n- [x] `tools` -- Lists\n\n## analysis (disabled)\n- [ ] `map` -- \n\nUse `enable: [\"analysis\"]` or `enable: [\"all\"]` to unlock tiers.\nUse `disable: [\"refactor\"]` to hide tiers.\n"
    );
}

#[test]
fn tools_are_enabled_and_disabled() {
    let catalog = catalog();
    let mut enabled = EnabledTools::new();
    let mut ask = |enable: Option<&[&str]>, disable: Option<&[&str]>| {
        let enable = enable.map(strings);
        let disable = disable.map(strings);
        let answer = qartez_tools(&catalog, &mut enabled, enable.as_ref(), disable.as_ref());
        (answer.changed, answer.text)
    };
    assert_eq!(
        ask(Some(&["all"]), None),
        (true, "Tool list updated. 4 tools now enabled.".to_string())
    );
    assert_eq!(
        ask(Some(&["all"]), None),
        (false, "No changes. 4 tools currently enabled.".to_string())
    );
    assert_eq!(
        ask(None, Some(&["core", "tools", "unknown"])),
        (false, "No changes. 4 tools currently enabled.".to_string())
    );
    assert_eq!(
        ask(None, Some(&["analysis", "extra"])),
        (true, "Tool list updated. 2 tools now enabled.".to_string())
    );
    assert_eq!(
        ask(Some(&["analysis", "missing"]), Some(&["map"])),
        (true, "Tool list updated. 2 tools now enabled.".to_string())
    );
}

#[test]
fn core_tools_are_always_on() {
    let mut catalog = catalog();
    catalog.tiers.push(Tier {
        name: "mixed".to_string(),
        tools: strings(&["find", "extra", "tools"]),
    });
    let mut enabled = EnabledTools::new();
    qartez_tools(&catalog, &mut enabled, Some(&strings(&["all"])), None);
    let answer = qartez_tools(&catalog, &mut enabled, None, Some(&strings(&["find"])));
    assert!(!answer.changed);
    assert_eq!(answer.text, "No changes. 4 tools currently enabled.");
    let answer = qartez_tools(&catalog, &mut enabled, None, Some(&strings(&["mixed", "core"])));
    assert!(answer.changed);
    assert_eq!(answer.text, "Tool list updated. 3 tools now enabled.");
    assert!(enabled.contains("find") && enabled.contains("tools") && enabled.contains("map"));
    assert!(!enabled.contains("extra"));
    let listing = qartez_tools(&catalog, &mut enabled, None, None).text;
    assert!(listing.contains("## core (enabled)\n"));
}

#[test]
fn without_a_core_tier_a_tool_is_disabled_by_name() {
    let mut catalog = catalog();
    catalog.tiers.remove(0);
    let mut enabled = EnabledTools::new();
    enabled.insert("find");
    let answer = qartez_tools(&catalog, &mut enabled, None, Some(&strings(&["find"])));
    assert!(answer.changed);
    assert!(!enabled.contains("find"));
}

fn point(sha: &str, complexity: u32) -> TrendPoint {
    TrendPoint {
        commit_sha: sha.to_string(),
        commit_summary: "change".to_string(),
        complexity,
        line_count: 40,
    }
}

fn trend_of(complexities: &[u32]) -> SymbolTrend {
    SymbolTrend {
        symbol_name: "run".to_string(),
        file_path: "a.rs".to_string(),
        points: complexities.iter().map(|c| point("abc1234", *c)).collect(),
    }
}

fn delta(percent: i64, shown: &str) -> Delta {
    Delta {
        percent,
        shown: shown.to_string(),
    }
}

#[test]
fn trends_are_reported() {
    assert_eq!(
        qartez_trend("a.rs", &vec![trend_of(&[8, 12, 9, 9])], &vec![delta(12, "+12")], false),
        "# Complexity Trend: a.rs\n\n## run (4) CC 8 -> 9 (+12% GROWING)\n\n  Commit  | CC | Lines | Summary\n  --------+----+-------+--------\n  abc1234 |  8     |    40 | change\n  abc1234 | 12 (+) |    40 | change\n  abc1234 |  9 (-) |    40 | change\n  abc1234 |  9     |    40 | change\n\n"
    );
    assert_eq!(
        qartez_trend("a.rs", &vec![trend_of(&[20, 9])], &vec![delta(-55, "-55")], true),
        "# symbol commits first_cc last_cc delta% file\nrun 2 20 9 -55% a.rs\n"
    );
    assert!(qartez_trend("a.rs", &Vec::new(), &Vec::new(), true)
        .starts_with("No complexity trend data for `a.rs`."));
    assert!(require_history(0).is_err());
    assert!(require_history(1).is_ok());
}

#[test]
fn directions_agree_with_percentages() {
    for first in 0..60u32 {
        for last in 0..60u32 {
            let change = if first > 0 {
                (last as f64 - first as f64) / first as f64 * 100.0
            } else {
                0.0
            };
            let word = if change > 10.0 {
                "GROWING"
            } else if change < -10.0 {
                "SHRINKING"
            } else {
                "STABLE"
            };
            let report = qartez_trend("a.rs", &vec![trend_of(&[first, last])], &vec![delta(0, "0")], false);
            assert!(report.contains(&format!("(0% {word})")), "{first} {last}");
        }
    }
}

#[test]
fn unused_exports_are_reported_by_page() {
    let rows = || {
        vec![
            (symbol("a", "function", 3, 4), "x.rs".to_string()),
            (symbol("b", "class", 5, 6), "x.rs".to_string()),
            (symbol("c", "", 7, 8), "y.rs".to_string()),
        ]
    };
    assert_eq!(qartez_unused(0, 0, &Vec::new()), "No unused exported symbols detected.");
    assert_eq!(
        qartez_unused(9, 40, &Vec::new()),
        "No unused exports in page (total=9, offset=40)."
    );
    assert_eq!(
        qartez_unused(9, 2, &rows()),
        "9 unused export(s); showing 3 from offset 2 (next: offset=5).\nx.rs\n  f a L3\n  c b L5\ny.rs\n    c L7\n"
    );
    assert!(qartez_unused(3, 0, &rows()).starts_with("3 unused export(s).\nx.rs\n"));
    assert_eq!(qartez::server::tools::unused::page_limit(None), 50);
    assert_eq!(qartez::server::tools::unused::page_limit(Some(0)), 1);
}
