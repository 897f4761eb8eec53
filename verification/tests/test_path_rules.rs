use qartez::test_paths::is_test_path;

#[test]
fn dir_prefixes() {
    assert!(is_test_path("tests/foo.rs"));
    assert!(is_test_path("test/bar.go"));
    assert!(is_test_path("benches/baz.rs"));
    assert!(is_test_path("__tests__/snap.tsx"));
    assert!(is_test_path("spec/widget_spec.rb"));
}

#[test]
fn dir_substrings() {
    assert!(is_test_path("src/tests/util.rs"));
    assert!(is_test_path("crate/test/helpers.go"));
    assert!(is_test_path("pkg/__tests__/index.ts"));
}

#[test]
fn rust_file_names() {
    assert!(is_test_path("src/lib/test.rs"));
    assert!(is_test_path("src/lib/tests.rs"));
    assert!(is_test_path("src/server/quality_tests.rs"));
    assert!(is_test_path("src/foo_test.rs"));
}

#[test]
fn js_ts_suffixes() {
    assert!(is_test_path("components/foo.test.ts"));
    assert!(is_test_path("components/foo.spec.tsx"));
    assert!(is_test_path("components/foo.test.js"));
    assert!(is_test_path("components/foo.spec.jsx"));
}

#[test]
fn python_patterns() {
    assert!(is_test_path("pkg/mod_test.py"));
    assert!(is_test_path("pkg/test_mod.py"));
    assert!(!is_test_path("pkg/tester.py"));
}

#[test]
fn production_paths() {
    assert!(!is_test_path("src/main.rs"));
    assert!(!is_test_path("src/server/mod.rs"));
    assert!(!is_test_path("src/graph/security.rs"));
    assert!(!is_test_path("test_data.json"));
}

#[test]
fn narrow_predicate_was_missing_quality_tests_rs() {
    assert!(is_test_path("qartez-public/src/server/quality_tests.rs"));
}

#[test]
fn a_directory_above_keeps_a_test_a_test() {
    for path in ["tests/foo.rs", "src/foo_test.rs", "pkg/test_mod.py"] {
        assert!(is_test_path(path));
        assert!(is_test_path(&format!("deep/er/{path}")), "{path}");
    }
}

#[test]
fn lookalikes_are_no_tests() {
    assert!(!is_test_path(""));
    assert!(!is_test_path("contest/main.rs"));
    assert!(!is_test_path("src/attests.txt"));
}
