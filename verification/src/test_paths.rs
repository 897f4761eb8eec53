//! Path-based detection of test files.
//!
//! The rules err on the side of treating a file as a test: a missed test file
//! is noise in a report, which costs more than a source file left out because
//! it happens to follow a test naming convention. Only the path is read, never
//! the contents of the file.
use vstd::prelude::*;

use crate::text;
use crate::text::{contains, cut_after_last, ends_with, same, starts_with};

verus! {

/// The path lies under one of the conventional test directories.
pub open spec fn in_test_directory(path: Seq<char>) -> bool {
    ||| "tests/"@.is_prefix_of(path)
    ||| "test/"@.is_prefix_of(path)
    ||| "benches/"@.is_prefix_of(path)
    ||| "__tests__/"@.is_prefix_of(path)
    ||| "spec/"@.is_prefix_of(path)
    ||| text::contains_text(path, "/tests/"@)
    ||| text::contains_text(path, "/test/"@)
    ||| text::contains_text(path, "/benches/"@)
    ||| text::contains_text(path, "/__tests__/"@)
    ||| text::contains_text(path, "/spec/"@)
}

/// The file name follows one of the conventional test naming patterns.
pub open spec fn test_file_name(name: Seq<char>) -> bool {
    ||| name == "test.rs"@
    ||| name == "tests.rs"@
    ||| "_test.rs"@.is_suffix_of(name)
    ||| "_tests.rs"@.is_suffix_of(name)
    ||| "_test.go"@.is_suffix_of(name)
    ||| "_test.dart"@.is_suffix_of(name)
    ||| ".test.ts"@.is_suffix_of(name)
    ||| ".spec.ts"@.is_suffix_of(name)
    ||| ".test.tsx"@.is_suffix_of(name)
    ||| ".spec.tsx"@.is_suffix_of(name)
    ||| ".test.js"@.is_suffix_of(name)
    ||| ".spec.js"@.is_suffix_of(name)
    ||| ".test.jsx"@.is_suffix_of(name)
    ||| ".spec.jsx"@.is_suffix_of(name)
    ||| "_test.py"@.is_suffix_of(name)
    ||| "Test.java"@.is_suffix_of(name)
    ||| "Tests.java"@.is_suffix_of(name)
    ||| "Test.kt"@.is_suffix_of(name)
    ||| "Tests.kt"@.is_suffix_of(name)
    ||| "_spec.rb"@.is_suffix_of(name)
    ||| "Test.cs"@.is_suffix_of(name)
    ||| "Tests.cs"@.is_suffix_of(name)
    ||| "test_"@.is_prefix_of(name) && ".py"@.is_suffix_of(name)
}

/// What `is_test_path` decides: by directory, or else by the last component.
pub open spec fn test_path(path: Seq<char>) -> bool {
    in_test_directory(path) || test_file_name(text::after_last(path, '/'))
}

/// True when `path` points at a file that should be treated as test code.
///
/// * Directories: anything under `tests/`, `test/`, `benches/`, `__tests__/`
///   or `spec/`.
/// * Rust: `test.rs`, `tests.rs`, `*_test.rs`, `*_tests.rs`.
/// * JavaScript and TypeScript: `*.test.*` and `*.spec.*`.
/// * Go and Dart: `*_test.go`, `*_test.dart`.
/// * Python: `*_test.py`, `test_*.py`.
/// * Java and Kotlin: `*Test.java`, `*Tests.java`, `*Test.kt`, `*Tests.kt`.
/// * Ruby: `*_spec.rb`. C#: `*Test.cs`, `*Tests.cs`.
pub fn is_test_path(path: &str) -> (r: bool)
    ensures
        r == test_path(path@),
{
    if starts_with(path, "tests/") || starts_with(path, "test/") || starts_with(path, "benches/")
        || starts_with(path, "__tests__/") || starts_with(path, "spec/") {
        return true;
    }
    if contains(path, "/tests/") || contains(path, "/test/") || contains(path, "/benches/")
        || contains(path, "/__tests__/") || contains(path, "/spec/") {
        return true;
    }
    let name = cut_after_last(path, '/');
    if same(name, "test.rs") || same(name, "tests.rs") {
        return true;
    }
    if ends_with(name, "_test.rs") || ends_with(name, "_tests.rs") || ends_with(name, "_test.go")
        || ends_with(name, "_test.dart") || ends_with(name, ".test.ts") || ends_with(
        name,
        ".spec.ts",
    ) || ends_with(name, ".test.tsx") || ends_with(name, ".spec.tsx") || ends_with(name, ".test.js")
        || ends_with(name, ".spec.js") || ends_with(name, ".test.jsx") || ends_with(
        name,
        ".spec.jsx",
    ) || ends_with(name, "_test.py") || ends_with(name, "Test.java") || ends_with(
        name,
        "Tests.java",
    ) || ends_with(name, "Test.kt") || ends_with(name, "Tests.kt") || ends_with(name, "_spec.rb")
        || ends_with(name, "Test.cs") || ends_with(name, "Tests.cs") {
        return true;
    }
    starts_with(name, "test_") && ends_with(name, ".py")
}

proof fn lemma_contains_below(root: Seq<char>, path: Seq<char>, pat: Seq<char>)
    requires
        text::contains_text(path, pat),
    ensures
        text::contains_text(root + "/"@ + path, pat),
{
    let i = choose|i: int| text::stands_at(path, pat, i);
    let whole = root + "/"@ + path;
    let j = i + root.len() + "/"@.len();
    assert(whole.subrange(j, j + pat.len()) == path.subrange(i, i + pat.len()));
    assert(text::stands_at(whole, pat, j));
}

proof fn lemma_prefix_below(root: Seq<char>, path: Seq<char>, dir: Seq<char>, inner: Seq<char>)
    requires
        dir.is_prefix_of(path),
        inner == "/"@ + dir,
    ensures
        text::contains_text(root + "/"@ + path, inner),
{
    let whole = root + "/"@ + path;
    let j = root.len() as int;
    assert(path.take(dir.len() as int) == dir);
    assert forall|k: int| 0 <= k < inner.len() implies whole.subrange(j, j + inner.len())[k]
        == inner[k] by {
        if k >= "/"@.len() {
            assert(path.take(dir.len() as int)[k - "/"@.len()] == dir[k - "/"@.len()]);
        }
    }
    assert(whole.subrange(j, j + inner.len()) == inner);
    assert(text::stands_at(whole, inner, j));
}

/// A test path stays a test path wherever its tree is moved: below any
/// directory `root` it is still recognised.
pub proof fn law_test_path_below_any_directory(root: Seq<char>, path: Seq<char>)
    requires
        test_path(path),
    ensures
        test_path(root + "/"@ + path),
{
    let whole = root + "/"@ + path;
    if in_test_directory(path) {
        assert("/tests/"@ == "/"@ + "tests/"@) by {
            reveal_strlit("/tests/");
            reveal_strlit("tests/");
            reveal_strlit("/");
        }
        assert("/test/"@ == "/"@ + "test/"@) by {
            reveal_strlit("/test/");
            reveal_strlit("test/");
            reveal_strlit("/");
        }
        assert("/benches/"@ == "/"@ + "benches/"@) by {
            reveal_strlit("/benches/");
            reveal_strlit("benches/");
            reveal_strlit("/");
        }
        assert("/__tests__/"@ == "/"@ + "__tests__/"@) by {
            reveal_strlit("/__tests__/");
            reveal_strlit("__tests__/");
            reveal_strlit("/");
        }
        assert("/spec/"@ == "/"@ + "spec/"@) by {
            reveal_strlit("/spec/");
            reveal_strlit("spec/");
            reveal_strlit("/");
        }
        if "tests/"@.is_prefix_of(path) {
            lemma_prefix_below(root, path, "tests/"@, "/tests/"@);
        } else if "test/"@.is_prefix_of(path) {
            lemma_prefix_below(root, path, "test/"@, "/test/"@);
        } else if "benches/"@.is_prefix_of(path) {
            lemma_prefix_below(root, path, "benches/"@, "/benches/"@);
        } else if "__tests__/"@.is_prefix_of(path) {
            lemma_prefix_below(root, path, "__tests__/"@, "/__tests__/"@);
        } else if "spec/"@.is_prefix_of(path) {
            lemma_prefix_below(root, path, "spec/"@, "/spec/"@);
        } else if text::contains_text(path, "/tests/"@) {
            lemma_contains_below(root, path, "/tests/"@);
        } else if text::contains_text(path, "/test/"@) {
            lemma_contains_below(root, path, "/test/"@);
        } else if text::contains_text(path, "/benches/"@) {
            lemma_contains_below(root, path, "/benches/"@);
        } else if text::contains_text(path, "/__tests__/"@) {
            lemma_contains_below(root, path, "/__tests__/"@);
        } else {
            lemma_contains_below(root, path, "/spec/"@);
        }
    } else {
        reveal_strlit("/");
        let at = text::past_last(path, '/') as int;
        text::lemma_past_last_bound(path, '/');
        let shift = root.len() + 1;
        assert forall|k: int| at + shift <= k < whole.len() implies #[trigger] whole[k] != '/' by {
            assert(whole[k] == path[k - shift]);
        }
        text::lemma_past_last(whole, '/', at + shift);
        assert(text::after_last(whole, '/') == text::after_last(path, '/'));
    }
}

proof fn lemma_ends_with(stem: Seq<char>, end: Seq<char>)
    ensures
        end.is_suffix_of(stem + end),
{
    let whole = stem + end;
    assert(end == whole.subrange(whole.len() - end.len(), whole.len() as int));
}

/// A file with one of the usual names of tests is a test file, wherever it lies.
pub proof fn law_usual_names(path: Seq<char>, stem: Seq<char>)
    ensures
        ({
            let name = text::after_last(path, '/');
            &&& name == stem + "_test.rs"@ ==> test_path(path)
            &&& name == stem + "_tests.rs"@ ==> test_path(path)
            &&& name == stem + "_test.go"@ ==> test_path(path)
            &&& name == stem + "_test.dart"@ ==> test_path(path)
            &&& name == stem + ".test.ts"@ ==> test_path(path)
            &&& name == stem + ".spec.ts"@ ==> test_path(path)
            &&& name == stem + ".test.tsx"@ ==> test_path(path)
            &&& name == stem + ".spec.tsx"@ ==> test_path(path)
            &&& name == stem + ".test.js"@ ==> test_path(path)
            &&& name == stem + ".spec.js"@ ==> test_path(path)
            &&& name == stem + ".test.jsx"@ ==> test_path(path)
            &&& name == stem + ".spec.jsx"@ ==> test_path(path)
            &&& name == stem + "_test.py"@ ==> test_path(path)
            &&& name == stem + "Test.java"@ ==> test_path(path)
            &&& name == stem + "Tests.java"@ ==> test_path(path)
            &&& name == stem + "Test.kt"@ ==> test_path(path)
            &&& name == stem + "Tests.kt"@ ==> test_path(path)
            &&& name == stem + "_spec.rb"@ ==> test_path(path)
            &&& name == stem + "Test.cs"@ ==> test_path(path)
            &&& name == stem + "Tests.cs"@ ==> test_path(path)
            &&& name == "test.rs"@ ==> test_path(path)
            &&& name == "tests.rs"@ ==> test_path(path)
            &&& name == "test_"@ + stem + ".py"@ ==> test_path(path)
        }),
{
    let name = text::after_last(path, '/');
    lemma_ends_with(stem, "_test.rs"@);
    lemma_ends_with(stem, "_tests.rs"@);
    lemma_ends_with(stem, "_test.go"@);
    lemma_ends_with(stem, "_test.dart"@);
    lemma_ends_with(stem, ".test.ts"@);
    lemma_ends_with(stem, ".spec.ts"@);
    lemma_ends_with(stem, ".test.tsx"@);
    lemma_ends_with(stem, ".spec.tsx"@);
    lemma_ends_with(stem, ".test.js"@);
    lemma_ends_with(stem, ".spec.js"@);
    lemma_ends_with(stem, ".test.jsx"@);
    lemma_ends_with(stem, ".spec.jsx"@);
    lemma_ends_with(stem, "_test.py"@);
    lemma_ends_with(stem, "Test.java"@);
    lemma_ends_with(stem, "Tests.java"@);
    lemma_ends_with(stem, "Test.kt"@);
    lemma_ends_with(stem, "Tests.kt"@);
    lemma_ends_with(stem, "_spec.rb"@);
    lemma_ends_with(stem, "Test.cs"@);
    lemma_ends_with(stem, "Tests.cs"@);
    lemma_ends_with("test_"@ + stem, ".py"@);
    let python = "test_"@ + stem + ".py"@;
    assert("test_"@ == python.subrange(0, "test_"@.len() as int));
}

/// A file below one of the usual directories of tests is a test file, at any depth.
pub proof fn law_usual_directories(above: Seq<char>, below: Seq<char>)
    ensures
        test_path("tests/"@ + below),
        test_path(above + "/tests/"@ + below),
        test_path("test/"@ + below),
        test_path(above + "/test/"@ + below),
        test_path("benches/"@ + below),
        test_path(above + "/benches/"@ + below),
        test_path("__tests__/"@ + below),
        test_path(above + "/__tests__/"@ + below),
        test_path("spec/"@ + below),
        test_path(above + "/spec/"@ + below),
{
    assert("tests/"@ == ("tests/"@ + below).subrange(0, "tests/"@.len() as int));
    text::lemma_holds(above, "/tests/"@, below);
    assert("test/"@ == ("test/"@ + below).subrange(0, "test/"@.len() as int));
    text::lemma_holds(above, "/test/"@, below);
    assert("benches/"@ == ("benches/"@ + below).subrange(0, "benches/"@.len() as int));
    text::lemma_holds(above, "/benches/"@, below);
    assert("__tests__/"@ == ("__tests__/"@ + below).subrange(0, "__tests__/"@.len() as int));
    text::lemma_holds(above, "/__tests__/"@, below);
    assert("spec/"@ == ("spec/"@ + below).subrange(0, "spec/"@.len() as int));
    text::lemma_holds(above, "/spec/"@, below);
}

/// Whether a path mentions one of the words that tests go by.
pub open spec fn mentions_tests(path: Seq<char>) -> bool {
    ||| text::contains_text(path, "test"@)
    ||| text::contains_text(path, "Test"@)
    ||| text::contains_text(path, "spec"@)
    ||| text::contains_text(path, "benches"@)
}

proof fn lemma_part_mentions(path: Seq<char>, part: Seq<char>, word: Seq<char>, at: int)
    requires
        text::contains_text(path, part),
        0 <= at,
        at + word.len() <= part.len(),
        part.subrange(at, at + word.len()) == word,
    ensures
        text::contains_text(path, word),
{
    assert(text::stands_at(part, word, at));
    text::lemma_holds_within(path, part, word);
}

proof fn lemma_suffix_held(path: Seq<char>, end: Seq<char>)
    requires
        end.is_suffix_of(text::after_last(path, '/')),
    ensures
        text::contains_text(path, end),
{
    text::lemma_past_last_bound(path, '/');
    let name = text::after_last(path, '/');
    let p = text::past_last(path, '/') as int;
    let i = name.len() - end.len();
    assert(path.subrange(p + i, p + i + end.len()) == name.subrange(i, name.len() as int));
    assert(text::stands_at(path, end, p + i));
}

proof fn lemma_prefix_held(path: Seq<char>, start: Seq<char>)
    requires
        start.is_prefix_of(path),
    ensures
        text::contains_text(path, start),
{
    assert(text::stands_at(path, start, 0));
}

proof fn lemma_end_mentions(path: Seq<char>, end: Seq<char>, word: Seq<char>, at: int)
    requires
        end.is_suffix_of(text::after_last(path, '/')),
        0 <= at,
        at + word.len() <= end.len(),
        end.subrange(at, at + word.len()) == word,
        word == "test"@ || word == "Test"@ || word == "spec"@,
    ensures
        mentions_tests(path),
{
    lemma_suffix_held(path, end);
    lemma_part_mentions(path, end, word, at);
}

proof fn lemma_ends_of_rust_and_go(path: Seq<char>)
    ensures
        "_test.rs"@.is_suffix_of(text::after_last(path, '/')) ==> mentions_tests(path),
        "_tests.rs"@.is_suffix_of(text::after_last(path, '/')) ==> mentions_tests(path),
        "_test.go"@.is_suffix_of(text::after_last(path, '/')) ==> mentions_tests(path),
        "_test.dart"@.is_suffix_of(text::after_last(path, '/')) ==> mentions_tests(path),
        ".test.ts"@.is_suffix_of(text::after_last(path, '/')) ==> mentions_tests(path),
{
    let name = text::after_last(path, '/');
    if "_test.rs"@.is_suffix_of(name) {
        assert("_test.rs"@.len() >= 5 && "_test.rs"@.subrange(1, 5) == "test"@ && "test"@.len() == 4)
            by {
            reveal_strlit("_test.rs");
            reveal_strlit("test");
            assert("_test.rs"@.subrange(1, 5) == "test"@);
        }
        lemma_end_mentions(path, "_test.rs"@, "test"@, 1);
    }
    if "_tests.rs"@.is_suffix_of(name) {
        assert("_tests.rs"@.len() >= 5 && "_tests.rs"@.subrange(1, 5) == "test"@ && "test"@.len() == 4)
            by {
            reveal_strlit("_tests.rs");
            reveal_strlit("test");
            assert("_tests.rs"@.subrange(1, 5) == "test"@);
        }
        lemma_end_mentions(path, "_tests.rs"@, "test"@, 1);
    }
    if "_test.go"@.is_suffix_of(name) {
        assert("_test.go"@.len() >= 5 && "_test.go"@.subrange(1, 5) == "test"@ && "test"@.len() == 4)
            by {
            reveal_strlit("_test.go");
            reveal_strlit("test");
            assert("_test.go"@.subrange(1, 5) == "test"@);
        }
        lemma_end_mentions(path, "_test.go"@, "test"@, 1);
    }
    if "_test.dart"@.is_suffix_of(name) {
        assert("_test.dart"@.len() >= 5 && "_test.dart"@.subrange(1, 5) == "test"@ && "test"@.len() == 4)
            by {
            reveal_strlit("_test.dart");
            reveal_strlit("test");
            assert("_test.dart"@.subrange(1, 5) == "test"@);
        }
        lemma_end_mentions(path, "_test.dart"@, "test"@, 1);
    }
    if ".test.ts"@.is_suffix_of(name) {
        assert(".test.ts"@.len() >= 5 && ".test.ts"@.subrange(1, 5) == "test"@ && "test"@.len() == 4)
            by {
            reveal_strlit(".test.ts");
            reveal_strlit("test");
            assert(".test.ts"@.subrange(1, 5) == "test"@);
        }
        lemma_end_mentions(path, ".test.ts"@, "test"@, 1);
    }
}

proof fn lemma_ends_of_scripts(path: Seq<char>)
    ensures
        ".spec.ts"@.is_suffix_of(text::after_last(path, '/')) ==> mentions_tests(path),
        ".test.tsx"@.is_suffix_of(text::after_last(path, '/')) ==> mentions_tests(path),
        ".spec.tsx"@.is_suffix_of(text::after_last(path, '/')) ==> mentions_tests(path),
        ".test.js"@.is_suffix_of(text::after_last(path, '/')) ==> mentions_tests(path),
        ".spec.js"@.is_suffix_of(text::after_last(path, '/')) ==> mentions_tests(path),
{
    let name = text::after_last(path, '/');
    if ".spec.ts"@.is_suffix_of(name) {
        assert(".spec.ts"@.len() >= 5 && ".spec.ts"@.subrange(1, 5) == "spec"@ && "spec"@.len() == 4)
            by {
            reveal_strlit(".spec.ts");
            reveal_strlit("spec");
            assert(".spec.ts"@.subrange(1, 5) == "spec"@);
        }
        lemma_end_mentions(path, ".spec.ts"@, "spec"@, 1);
    }
    if ".test.tsx"@.is_suffix_of(name) {
        assert(".test.tsx"@.len() >= 5 && ".test.tsx"@.subrange(1, 5) == "test"@ && "test"@.len() == 4)
            by {
            reveal_strlit(".test.tsx");
            reveal_strlit("test");
            assert(".test.tsx"@.subrange(1, 5) == "test"@);
        }
        lemma_end_mentions(path, ".test.tsx"@, "test"@, 1);
    }
    if ".spec.tsx"@.is_suffix_of(name) {
        assert(".spec.tsx"@.len() >= 5 && ".spec.tsx"@.subrange(1, 5) == "spec"@ && "spec"@.len() == 4)
            by {
            reveal_strlit(".spec.tsx");
            reveal_strlit("spec");
            assert(".spec.tsx"@.subrange(1, 5) == "spec"@);
        }
        lemma_end_mentions(path, ".spec.tsx"@, "spec"@, 1);
    }
    if ".test.js"@.is_suffix_of(name) {
        assert(".test.js"@.len() >= 5 && ".test.js"@.subrange(1, 5) == "test"@ && "test"@.len() == 4)
            by {
            reveal_strlit(".test.js");
            reveal_strlit("test");
            assert(".test.js"@.subrange(1, 5) == "test"@);
        }
        lemma_end_mentions(path, ".test.js"@, "test"@, 1);
    }
    if ".spec.js"@.is_suffix_of(name) {
        assert(".spec.js"@.len() >= 5 && ".spec.js"@.subrange(1, 5) == "spec"@ && "spec"@.len() == 4)
            by {
            reveal_strlit(".spec.js");
            reveal_strlit("spec");
            assert(".spec.js"@.subrange(1, 5) == "spec"@);
        }
        lemma_end_mentions(path, ".spec.js"@, "spec"@, 1);
    }
}

proof fn lemma_ends_of_modules(path: Seq<char>)
    ensures
        ".test.jsx"@.is_suffix_of(text::after_last(path, '/')) ==> mentions_tests(path),
        ".spec.jsx"@.is_suffix_of(text::after_last(path, '/')) ==> mentions_tests(path),
        "_test.py"@.is_suffix_of(text::after_last(path, '/')) ==> mentions_tests(path),
        "Test.java"@.is_suffix_of(text::after_last(path, '/')) ==> mentions_tests(path),
        "Tests.java"@.is_suffix_of(text::after_last(path, '/')) ==> mentions_tests(path),
{
    let name = text::after_last(path, '/');
    if ".test.jsx"@.is_suffix_of(name) {
        assert(".test.jsx"@.len() >= 5 && ".test.jsx"@.subrange(1, 5) == "test"@ && "test"@.len() == 4)
            by {
            reveal_strlit(".test.jsx");
            reveal_strlit("test");
            assert(".test.jsx"@.subrange(1, 5) == "test"@);
        }
        lemma_end_mentions(path, ".test.jsx"@, "test"@, 1);
    }
    if ".spec.jsx"@.is_suffix_of(name) {
        assert(".spec.jsx"@.len() >= 5 && ".spec.jsx"@.subrange(1, 5) == "spec"@ && "spec"@.len() == 4)
            by {
            reveal_strlit(".spec.jsx");
            reveal_strlit("spec");
            assert(".spec.jsx"@.subrange(1, 5) == "spec"@);
        }
        lemma_end_mentions(path, ".spec.jsx"@, "spec"@, 1);
    }
    if "_test.py"@.is_suffix_of(name) {
        assert("_test.py"@.len() >= 5 && "_test.py"@.subrange(1, 5) == "test"@ && "test"@.len() == 4)
            by {
            reveal_strlit("_test.py");
            reveal_strlit("test");
            assert("_test.py"@.subrange(1, 5) == "test"@);
        }
        lemma_end_mentions(path, "_test.py"@, "test"@, 1);
    }
    if "Test.java"@.is_suffix_of(name) {
        assert("Test.java"@.len() >= 4 && "Test.java"@.subrange(0, 4) == "Test"@ && "Test"@.len() == 4)
            by {
            reveal_strlit("Test.java");
            reveal_strlit("Test");
            assert("Test.java"@.subrange(0, 4) == "Test"@);
        }
        lemma_end_mentions(path, "Test.java"@, "Test"@, 0);
    }
    if "Tests.java"@.is_suffix_of(name) {
        assert("Tests.java"@.len() >= 4 && "Tests.java"@.subrange(0, 4) == "Test"@ && "Test"@.len() == 4)
            by {
            reveal_strlit("Tests.java");
            reveal_strlit("Test");
            assert("Tests.java"@.subrange(0, 4) == "Test"@);
        }
        lemma_end_mentions(path, "Tests.java"@, "Test"@, 0);
    }
}

proof fn lemma_ends_of_classes(path: Seq<char>)
    ensures
        "Test.kt"@.is_suffix_of(text::after_last(path, '/')) ==> mentions_tests(path),
        "Tests.kt"@.is_suffix_of(text::after_last(path, '/')) ==> mentions_tests(path),
        "_spec.rb"@.is_suffix_of(text::after_last(path, '/')) ==> mentions_tests(path),
        "Test.cs"@.is_suffix_of(text::after_last(path, '/')) ==> mentions_tests(path),
        "Tests.cs"@.is_suffix_of(text::after_last(path, '/')) ==> mentions_tests(path),
{
    let name = text::after_last(path, '/');
    if "Test.kt"@.is_suffix_of(name) {
        assert("Test.kt"@.len() >= 4 && "Test.kt"@.subrange(0, 4) == "Test"@ && "Test"@.len() == 4)
            by {
            reveal_strlit("Test.kt");
            reveal_strlit("Test");
            assert("Test.kt"@.subrange(0, 4) == "Test"@);
        }
        lemma_end_mentions(path, "Test.kt"@, "Test"@, 0);
    }
    if "Tests.kt"@.is_suffix_of(name) {
        assert("Tests.kt"@.len() >= 4 && "Tests.kt"@.subrange(0, 4) == "Test"@ && "Test"@.len() == 4)
            by {
            reveal_strlit("Tests.kt");
            reveal_strlit("Test");
            assert("Tests.kt"@.subrange(0, 4) == "Test"@);
        }
        lemma_end_mentions(path, "Tests.kt"@, "Test"@, 0);
    }
    if "_spec.rb"@.is_suffix_of(name) {
        assert("_spec.rb"@.len() >= 5 && "_spec.rb"@.subrange(1, 5) == "spec"@ && "spec"@.len() == 4)
            by {
            reveal_strlit("_spec.rb");
            reveal_strlit("spec");
            assert("_spec.rb"@.subrange(1, 5) == "spec"@);
        }
        lemma_end_mentions(path, "_spec.rb"@, "spec"@, 1);
    }
    if "Test.cs"@.is_suffix_of(name) {
        assert("Test.cs"@.len() >= 4 && "Test.cs"@.subrange(0, 4) == "Test"@ && "Test"@.len() == 4)
            by {
            reveal_strlit("Test.cs");
            reveal_strlit("Test");
            assert("Test.cs"@.subrange(0, 4) == "Test"@);
        }
        lemma_end_mentions(path, "Test.cs"@, "Test"@, 0);
    }
    if "Tests.cs"@.is_suffix_of(name) {
        assert("Tests.cs"@.len() >= 4 && "Tests.cs"@.subrange(0, 4) == "Test"@ && "Test"@.len() == 4)
            by {
            reveal_strlit("Tests.cs");
            reveal_strlit("Test");
            assert("Tests.cs"@.subrange(0, 4) == "Test"@);
        }
        lemma_end_mentions(path, "Tests.cs"@, "Test"@, 0);
    }
}

proof fn lemma_name_mentions(path: Seq<char>)
    requires
        test_file_name(text::after_last(path, '/')),
    ensures
        mentions_tests(path),
{
    let name = text::after_last(path, '/');
    assert(name == name.subrange(0, name.len() as int));
    lemma_ends_of_rust_and_go(path);
    lemma_ends_of_scripts(path);
    lemma_ends_of_modules(path);
    lemma_ends_of_classes(path);
    if name == "test.rs"@ {
        reveal_strlit("test.rs");
        reveal_strlit("test");
        assert(name.subrange(0, 4) == "test"@);
        lemma_end_mentions(path, name, "test"@, 0);
    } else if name == "tests.rs"@ {
        reveal_strlit("tests.rs");
        reveal_strlit("test");
        assert(name.subrange(0, 4) == "test"@);
        lemma_end_mentions(path, name, "test"@, 0);
    } else if "test_"@.is_prefix_of(name) {
        reveal_strlit("test_");
        reveal_strlit("test");
        assert(name.subrange(0, 5) == "test_"@);
        assert forall|k: int| 0 <= k < 4 implies name[k] == "test"@[k] by {
            assert(name.subrange(0, 5)[k] == "test_"@[k]);
        }
        assert(name.subrange(0, 4) == "test"@);
        lemma_end_mentions(path, name, "test"@, 0);
    }
}

proof fn lemma_directory_mentions(path: Seq<char>)
    requires
        in_test_directory(path),
    ensures
        mentions_tests(path),
{
    reveal_strlit("test");
    reveal_strlit("spec");
    reveal_strlit("benches");
    if "tests/"@.is_prefix_of(path) {
        reveal_strlit("tests/");
        lemma_prefix_held(path, "tests/"@);
        assert("tests/"@.subrange(0, 4) == "test"@);
        lemma_part_mentions(path, "tests/"@, "test"@, 0);
    } else if text::contains_text(path, "/tests/"@) {
        reveal_strlit("/tests/");
        assert("/tests/"@.subrange(1, 5) == "test"@);
        lemma_part_mentions(path, "/tests/"@, "test"@, 1);
    } else if "test/"@.is_prefix_of(path) {
        reveal_strlit("test/");
        lemma_prefix_held(path, "test/"@);
        assert("test/"@.subrange(0, 4) == "test"@);
        lemma_part_mentions(path, "test/"@, "test"@, 0);
    } else if text::contains_text(path, "/test/"@) {
        reveal_strlit("/test/");
        assert("/test/"@.subrange(1, 5) == "test"@);
        lemma_part_mentions(path, "/test/"@, "test"@, 1);
    } else if "benches/"@.is_prefix_of(path) {
        reveal_strlit("benches/");
        lemma_prefix_held(path, "benches/"@);
        assert("benches/"@.subrange(0, 7) == "benches"@);
        lemma_part_mentions(path, "benches/"@, "benches"@, 0);
    } else if text::contains_text(path, "/benches/"@) {
        reveal_strlit("/benches/");
        assert("/benches/"@.subrange(1, 8) == "benches"@);
        lemma_part_mentions(path, "/benches/"@, "benches"@, 1);
    } else if "__tests__/"@.is_prefix_of(path) {
        reveal_strlit("__tests__/");
        lemma_prefix_held(path, "__tests__/"@);
        assert("__tests__/"@.subrange(2, 6) == "test"@);
        lemma_part_mentions(path, "__tests__/"@, "test"@, 2);
    } else if text::contains_text(path, "/__tests__/"@) {
        reveal_strlit("/__tests__/");
        assert("/__tests__/"@.subrange(3, 7) == "test"@);
        lemma_part_mentions(path, "/__tests__/"@, "test"@, 3);
    } else if "spec/"@.is_prefix_of(path) {
        reveal_strlit("spec/");
        lemma_prefix_held(path, "spec/"@);
        assert("spec/"@.subrange(0, 4) == "spec"@);
        lemma_part_mentions(path, "spec/"@, "spec"@, 0);
    } else if text::contains_text(path, "/spec/"@) {
        reveal_strlit("/spec/");
        assert("/spec/"@.subrange(1, 5) == "spec"@);
        lemma_part_mentions(path, "/spec/"@, "spec"@, 1);
    }
}

/// Every test path mentions tests, specs or benches: no other path is taken for one.
pub proof fn law_test_paths_mention_tests(path: Seq<char>)
    requires
        test_path(path),
    ensures
        mentions_tests(path),
{
    if in_test_directory(path) {
        lemma_directory_mentions(path);
    } else {
        lemma_name_mentions(path);
    }
}

}
