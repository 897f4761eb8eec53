use qartez::server::tools::test_gaps::gaps::{
    find_gaps, test_gaps_find, untested_candidates, Gap, ScoredGap,
};
use qartez::server::tools::test_gaps::mapping::{symbols_to_read, test_gaps_map};
use qartez::server::tools::test_gaps::suggest::{test_gaps_suggest, Evidence};
use qartez::server::tools::test_gaps::{
    parse_mode, require_base, row_limit, TestGapsCtx, TestGapsMode,
};
use qartez::storage::models::{FileRow, SymbolRow};

fn file(id: i64, path: &str) -> FileRow {
    FileRow {
        id,
        path: path.to_string(),
        language: "rust".to_string(),
        change_count: 3,
    }
}

fn symbol(name: &str, exported: bool, complexity: Option<u32>) -> SymbolRow {
    SymbolRow {
        name: name.to_string(),
        kind: "function".to_string(),
        line_start: 1,
        line_end: 2,
        file_id: 1,
        is_exported: exported,
        complexity,
    }
}

fn files() -> Vec<FileRow> {
    vec![
        file(1, "src/a.rs"),
        file(2, "src/b.rs"),
        file(3, "tests/a.rs"),
        file(4, "tests/b.rs"),
        file(5, "src/c.rs"),
    ]
}

fn edges() -> Vec<(i64, i64)> {
    vec![(3, 1), (4, 1), (4, 2), (3, 3), (2, 5), (4, 3), (4, 99)]
}

#[test]
fn the_map_lists_covered_files_first_by_tests() {
    let files = files();
    let ctx = TestGapsCtx::build(&files, &edges());
    assert_eq!(
        test_gaps_map(&ctx, None, None, 30, true),
        "# Test-to-source mapping\n\n2/3 source files covered by 2 test files\n\n  src/a.rs (2)\n  src/b.rs (1)\n"
    );
    assert_eq!(
        test_gaps_map(&ctx, None, None, 1, false),
        "# Test-to-source mapping\n\n2/3 source files covered by 2 test files\n\n- src/a.rs (2 tests)\n    - tests/a.rs\n    - tests/b.rs\n\n... and 1 more (use limit= to see more)\n"
    );
}

#[test]
fn the_map_shows_five_tests_of_a_file() {
    let mut files = vec![file(1, "src/a.rs")];
    let mut edges = Vec::new();
    for id in 2..9 {
        files.push(file(id, &format!("tests/t{id}.rs")));
        edges.push((id, 1));
    }
    let ctx = TestGapsCtx::build(&files, &edges);
    let report = test_gaps_map(&ctx, None, None, 30, false);
    assert!(report.contains("- src/a.rs (7 tests)\n"));
    assert!(report.ends_with("    - tests/t6.rs\n    ... and 2 more\n"));
}

#[test]
fn the_map_of_one_file() {
    let files = files();
    let ctx = TestGapsCtx::build(&files, &edges());
    assert_eq!(
        test_gaps_map(&ctx, Some("tests/b.rs"), None, 1, false),
        "# Test coverage: tests/b.rs\n\nImports 2 source file(s):\n  - src/a.rs\n"
    );
    assert_eq!(
        test_gaps_map(&ctx, Some("tests/none.rs"), None, 30, false),
        "Test file 'tests/none.rs' has no indexed source imports."
    );
    assert_eq!(
        test_gaps_map(&ctx, Some("src/c.rs"), None, 30, false),
        "Source file 'src/c.rs' has no test files importing it."
    );
    let symbols = vec![symbol("run", true, None), symbol("hidden", false, None)];
    assert_eq!(
        test_gaps_map(&ctx, Some("src/a.rs"), Some(&symbols), 30, false),
        "# Test coverage: src/a.rs\n\n2 test file(s):\n  - tests/a.rs\n  - tests/b.rs\n\n1 exported symbols:\n  - run (function)\n"
    );
}

#[test]
fn symbols_are_read_where_they_are_shown() {
    let files = files();
    let ctx = TestGapsCtx::build(&files, &edges());
    assert_eq!(symbols_to_read(&ctx, "src/a.rs", true), Some(1));
    assert_eq!(symbols_to_read(&ctx, "src/a.rs", false), None);
    assert_eq!(symbols_to_read(&ctx, "src/c.rs", true), None);
    assert_eq!(symbols_to_read(&ctx, "tests/a.rs", true), None);
    assert_eq!(ctx.id_of("src/c.rs"), Some(5));
    assert_eq!(ctx.id_of("src/none.rs"), None);
}

#[test]
fn the_last_of_two_files_with_an_id_counts() {
    let files = vec![file(1, "src/x.rs"), file(1, "src/y.rs"), file(2, "tests/t.rs")];
    let ctx = TestGapsCtx::build(&files, &vec![(2, 1)]);
    assert!(test_gaps_map(&ctx, None, None, 30, true).contains("  src/y.rs (1)\n"));
}

#[test]
fn gaps_are_files_without_any_test() {
    let files = files();
    let ctx = TestGapsCtx::build(&files, &edges());
    assert_eq!(untested_candidates(&ctx, &vec![false; 5]), vec![4]);
    assert!(untested_candidates(&ctx, &vec![true; 5]).is_empty());
    let symbols = vec![
        (symbol("x", true, Some(4)), "src/c.rs".to_string()),
        (symbol("y", true, Some(9)), "src/c.rs".to_string()),
        (symbol("z", true, None), "src/c.rs".to_string()),
        (symbol("w", true, Some(50)), "src/a.rs".to_string()),
    ];
    let gaps = find_gaps(&ctx, &vec![4], &vec![false], &symbols);
    assert_eq!(
        gaps,
        vec![Gap {
            file: 4,
            max_complexity: 9,
            blast: 1
        }]
    );
    assert!(find_gaps(&ctx, &vec![4], &vec![true], &symbols).is_empty());
}

#[test]
fn the_map_and_the_gaps_agree() {
    let files = files();
    let ctx = TestGapsCtx::build(&files, &edges());
    let open = untested_candidates(&ctx, &vec![false; 5]);
    for (i, file) in files.iter().enumerate() {
        if file.path.starts_with("src/") {
            let report = test_gaps_map(&ctx, Some(&file.path), None, 30, false);
            assert_eq!(report.starts_with("Source file"), open.contains(&i), "{report}");
        }
    }
}

fn scored(file: usize, rank: i64, score: &str) -> ScoredGap {
    ScoredGap {
        gap: Gap {
            file,
            max_complexity: 0,
            blast: 2,
        },
        rank,
        score: score.to_string(),
        pagerank: "0.1000".to_string(),
        shown_path: format!("shown{file}"),
    }
}

#[test]
fn the_riskiest_gaps_come_first() {
    let files = files();
    let ctx = TestGapsCtx::build(&files, &edges());
    let gaps = vec![scored(0, 10, "1.0"), scored(1, 30, "3.0"), scored(4, 30, "3.0")];
    assert_eq!(
        test_gaps_find(&ctx, gaps, 2, true),
        "# Test coverage gaps (3/3 source files untested)\n\nShowing 2 of 3 (use limit= to see more).\n\n  src/b.rs PR=0.1000 blast=2 score=3.0\n  src/c.rs PR=0.1000 blast=2 score=3.0\n"
    );
    assert_eq!(
        test_gaps_find(&ctx, vec![scored(0, 10, "1.0")], 30, false),
        "# Test coverage gaps (1/3 source files untested)\n\n| File | PageRank | Blast | Churn | Score |\n|------|----------|-------|-------|-------|\n| shown0 | 0.1000 | 2 | 3 | 1.0 |\n"
    );
    assert!(test_gaps_find(&ctx, Vec::new(), 30, false).starts_with("No untested source files found."));
}

fn evidence(cochanges: &[&str], inline_tests: bool) -> Evidence {
    Evidence {
        cochanges: cochanges.iter().map(|path| path.to_string()).collect(),
        inline_tests,
    }
}

fn strings(list: &[&str]) -> Vec<String> {
    list.iter().map(|item| item.to_string()).collect()
}

#[test]
fn tests_are_suggested_for_a_change() {
    let files = files();
    let ctx = TestGapsCtx::build(&files, &edges());
    let changed = strings(&["src/a.rs", "src/c.rs", "new.rs", "tests/a.rs", "tests/z.rs"]);
    let known = vec![
        evidence(&["tests/b.rs", "tests/extra.rs", "src/b.rs"], false),
        evidence(&[], false),
        evidence(&[], true),
        evidence(&[], false),
        evidence(&[], false),
    ];
    let suggestion = test_gaps_suggest(&ctx, "main", &changed, &known, 30, false);
    assert_eq!(
        suggestion.report,
        "# Test suggestion for main\n\n5 changed files (3 source, 2 test)\n\n## Tests to run (4 test files)\n- tests/a.rs\n    covers: src/a.rs\n- tests/b.rs\n    covers: src/a.rs\n- tests/extra.rs\n    covers: src/a.rs\n- tests/z.rs\n    covers: (directly changed)\n\n## Untested changes (2 source files need new tests)\n  - src/c.rs\n  - new.rs\n"
    );
    assert_eq!(
        suggestion.acknowledged,
        ["src/a.rs", "src/c.rs", "tests/a.rs", "tests/z.rs"]
    );
    let short = test_gaps_suggest(&ctx, "main", &changed, &known, 1, true);
    assert!(short.report.contains("  tests/a.rs (covers 1)\n\n## Untested"));
}

#[test]
fn inline_tests_settle_a_change() {
    let files = files();
    let ctx = TestGapsCtx::build(&files, &edges());
    let changed = strings(&["src/c.rs"]);
    let suggestion = test_gaps_suggest(&ctx, "HEAD~1", &changed, &vec![evidence(&[], true)], 30, true);
    assert_eq!(
        suggestion.report,
        "# Test suggestion for HEAD~1\n\n1 changed files (1 source, 0 test)\n\nNo test files found for the changed source files.\n"
    );
    let nothing = test_gaps_suggest(&ctx, "main", &Vec::new(), &Vec::new(), 30, true);
    assert_eq!(nothing.report, "No files changed in range 'main'.");
    assert!(nothing.acknowledged.is_empty());
}

#[test]
fn modes_are_named() {
    assert_eq!(parse_mode(None), Ok(TestGapsMode::Gaps));
    assert_eq!(parse_mode(Some("map")), Ok(TestGapsMode::Mapping));
    assert_eq!(parse_mode(Some("gaps")), Ok(TestGapsMode::Gaps));
    assert_eq!(parse_mode(Some("suggest")), Ok(TestGapsMode::Suggest));
    assert_eq!(
        parse_mode(Some("x")),
        Err("Unknown mode 'x'. Use 'map', 'gaps', or 'suggest'.".to_string())
    );
    assert_eq!(require_base(Some("main")), Ok("main"));
    assert!(require_base(None).unwrap_err().contains("requires a 'base' parameter"));
    assert_eq!(row_limit(None), 30);
    assert_eq!(row_limit(Some(2)), 2);
}

#[test]
fn files_do_not_cover_themselves() {
    let files = vec![file(1, "tests/a.rs"), file(2, "src/a.rs")];
    let ctx = TestGapsCtx::build(&files, &vec![(1, 1), (2, 2), (1, 2)]);
    let report = test_gaps_map(&ctx, Some("tests/a.rs"), None, 30, false);
    assert!(report.ends_with("Imports 1 source file(s):\n  - src/a.rs\n"));
    let report = test_gaps_map(&ctx, Some("src/a.rs"), None, 30, false);
    assert!(report.ends_with("1 test file(s):\n  - tests/a.rs\n"));
}
