use qartez::server::rename::{
    apply_rename_pairs, find_parent_mod_file, parent_mod_candidates, path_to_import_stem,
    pattern_for_mod, pattern_for_word, relative_import_stem, rename_stem_pairs,
    replacement_for_mod, rewrite_mod_decl,
};

#[test]
fn generates_full_and_divergent_pairs() {
    let pairs = rename_stem_pairs("src::foo::bar", "src::baz::qux");
    assert_eq!(pairs.len(), 2);
    assert_eq!(pairs[0], ("src::foo::bar".into(), "src::baz::qux".into()));
    assert_eq!(pairs[1], ("foo::bar".into(), "baz::qux".into()));
}

#[test]
fn emits_crate_prefixed_pair_for_bare_single_segment_suffix() {
    let pairs = rename_stem_pairs("src::foo::bar", "src::foo::qux");
    assert_eq!(
        pairs,
        vec![
            ("src::foo::bar".into(), "src::foo::qux".into()),
            ("crate::foo::bar".into(), "crate::foo::qux".into()),
        ]
    );
}

#[test]
fn root_level_rust_file_rename_emits_crate_pair() {
    let pairs = rename_stem_pairs("src::foo", "src::baz");
    assert_eq!(
        pairs,
        vec![
            ("src::foo".into(), "src::baz".into()),
            ("crate::foo".into(), "crate::baz".into()),
        ]
    );
}

#[test]
fn root_level_rust_file_rename_rewrites_crate_imports() {
    let pairs = rename_stem_pairs("src::foo", "src::baz");
    let input = "use crate::foo::Bar;\nuse crate::foo;\nlet x = crate::foo::call();";
    let out = apply_rename_pairs(input, &pairs).unwrap();
    assert_eq!(
        out,
        "use crate::baz::Bar;\nuse crate::baz;\nlet x = crate::baz::call();"
    );
}

#[test]
fn crate_pair_does_not_rewrite_unrelated_identifiers() {
    let pairs = rename_stem_pairs("src::foo", "src::baz");
    let input = "let foo = 1;\nfn foo_ext() {}\nstruct S { foo: u32 }\nlet x = obj.foo();";
    let out = apply_rename_pairs(input, &pairs).unwrap();
    assert_eq!(out, input);
}

#[test]
fn empty_when_stems_equal() {
    assert!(rename_stem_pairs("src::foo", "src::foo").is_empty());
}

#[test]
fn no_common_prefix_keeps_full_only() {
    let pairs = rename_stem_pairs("src::foo::bar", "other::qux");
    assert_eq!(pairs, vec![("src::foo::bar".into(), "other::qux".into())]);
}

#[test]
fn applies_longest_pair_first() {
    let pairs = rename_stem_pairs("src::foo::bar", "src::baz::qux");
    let input = "use src::foo::bar; use crate::foo::bar;";
    let out = apply_rename_pairs(input, &pairs).unwrap();
    assert_eq!(out, "use src::baz::qux; use crate::baz::qux;");
}

#[test]
fn does_not_touch_unrelated_identifier_named_like_file_stem() {
    let pairs = rename_stem_pairs("src::foo::bar", "src::baz::qux");
    let input = "let bar = 1;\nfn bar_ext() {}\nuse crate::foo::bar;";
    let out = apply_rename_pairs(input, &pairs).unwrap();
    assert!(out.contains("let bar = 1;"), "local var kept: {out}");
    assert!(out.contains("fn bar_ext()"), "unrelated name kept: {out}");
    assert!(
        out.contains("use crate::baz::qux;"),
        "import rewritten: {out}"
    );
}

#[test]
fn preserves_word_boundary() {
    let pairs = rename_stem_pairs("foo::bar", "baz::qux");
    let input = "use foo::bar; use foo::barrier;";
    let out = apply_rename_pairs(input, &pairs).unwrap();
    assert!(out.contains("use baz::qux;"));
    assert!(out.contains("use foo::barrier;"));
}

#[test]
fn stems_of_paths() {
    assert_eq!(path_to_import_stem("src/foo/bar.rs"), "src::foo::bar");
    assert_eq!(path_to_import_stem("Makefile"), "Makefile");
    assert_eq!(path_to_import_stem("a.b/c"), "a");
    assert_eq!(relative_import_stem("src/foo/bar.rs"), "bar");
    assert_eq!(relative_import_stem("bar"), "bar");
    assert_eq!(relative_import_stem(""), "");
}

#[test]
fn no_pairs_leave_a_text_alone() {
    assert_eq!(apply_rename_pairs("use foo::bar;", &Vec::new()).unwrap(), "use foo::bar;");
}

#[test]
fn absent_stems_leave_a_text_alone() {
    let pairs = rename_stem_pairs("src::a::b", "src::c::d");
    let input = "fn main() { println(1); }";
    assert_eq!(apply_rename_pairs(input, &pairs).unwrap(), input);
}

#[test]
fn pairs_are_applied_one_by_one() {
    let first = vec![("a".to_string(), "b".to_string())];
    let second = vec![("b".to_string(), "c".to_string())];
    let both = vec![
        ("a".to_string(), "b".to_string()),
        ("b".to_string(), "c".to_string()),
    ];
    let step = apply_rename_pairs("a b", &first).unwrap();
    assert_eq!(step, "b b");
    assert_eq!(apply_rename_pairs(&step, &second).unwrap(), "c c");
    assert_eq!(apply_rename_pairs("a b", &both).unwrap(), "c c");
}

#[test]
fn too_long_a_stem_is_reported() {
    let pairs = vec![("x".repeat(2_000_000), "y".to_string())];
    let message = apply_rename_pairs("x", &pairs).unwrap_err();
    assert!(message.starts_with("regex error: "), "{message}");
}

#[test]
fn long_paths_make_patterns() {
    for unit in ["x", "\u{e9}", "\u{2c0f}", "\u{10400}"] {
        let stem = unit.repeat(200_000 / unit.len());
        let content = format!("use {stem};");
        let pairs = vec![(stem.clone(), "y".to_string())];
        assert_eq!(apply_rename_pairs(&content, &pairs).unwrap(), "use y;");
    }
    let name = "\u{10400}".repeat(50_000);
    let content = format!("mod {name};");
    assert_eq!(rewrite_mod_decl(&content, &name, "y"), "mod y;");
}

#[test]
fn a_refused_pair_refuses_the_joined_list() {
    let good = ("a".to_string(), "b".to_string());
    let long = ("x".repeat(2_000_000), "y".to_string());
    let step = apply_rename_pairs("a", &vec![good.clone()]).unwrap();
    assert!(apply_rename_pairs(&step, &vec![long.clone()]).is_err());
    assert!(apply_rename_pairs("a", &vec![good.clone(), long.clone()]).is_err());
    assert!(apply_rename_pairs("a", &vec![long, good]).is_err());
}

#[test]
fn the_last_segment_of_an_import_path_is_its_last_part() {
    for path in ["src/server/tools.rs", "lib.rs", "/a//b.c/d.rs", "src/", ""] {
        let stem = path_to_import_stem(path);
        assert_eq!(stem.split("::").last().unwrap(), relative_import_stem(path), "{path}");
    }
    assert_eq!(path_to_import_stem("a:/b.rs"), "a:::b");
    assert_eq!(relative_import_stem("a:/b.rs"), "b");
}

#[test]
fn stems_with_dots_match_literally() {
    let pairs = vec![("a.b".to_string(), "c".to_string())];
    assert_eq!(apply_rename_pairs("axb a.b", &pairs).unwrap(), "axb c");
    assert_eq!(pattern_for_word("a.b"), "\\ba\\.b\\b");
    assert_eq!(pattern_for_word("x-#&~"), "\\bx\\-\\#\\&\\~\\b");
}

#[test]
fn module_declarations_are_renamed() {
    let input = "mod foo;\npub mod foo;\n    pub(crate) mod foo ;\nmod foobar;\n";
    assert_eq!(
        rewrite_mod_decl(input, "foo", "bar"),
        "mod bar;\npub mod bar;\n    pub(crate) mod bar ;\nmod foobar;\n"
    );
}

#[test]
fn inline_modules_and_other_names_are_kept() {
    let input = "mod foo { fn x() {} }\nlet foo = 1;\n";
    assert_eq!(rewrite_mod_decl(input, "foo", "bar"), input);
    assert_eq!(rewrite_mod_decl("mod a;", "zzz", "bar"), "mod a;");
    assert_eq!(
        rewrite_mod_decl("mod x;", &"x".repeat(2_000_000), "bar"),
        "mod x;"
    );
    assert_eq!(
        pattern_for_mod("foo"),
        "(?m)^(?P<prefix>\\s*(?:pub(?:\\([^)]*\\))?\\s+)?mod\\s+)foo(?P<suffix>\\s*;)"
    );
    assert_eq!(replacement_for_mod("bar"), "${prefix}bar${suffix}");
}

fn candidates(path: &str) -> Option<Vec<String>> {
    parent_mod_candidates(path)
}

#[test]
fn files_that_may_declare_a_module() {
    let expected = ["src/mod.rs", "src.rs", "src/lib.rs", "src/main.rs"];
    assert_eq!(candidates("src/foo.rs").unwrap(), expected);
    assert_eq!(candidates("src/foo/mod.rs").unwrap(), expected);
    assert_eq!(
        candidates("src/a/b.rs").unwrap(),
        ["src/a/mod.rs", "src/a.rs", "src/a/lib.rs", "src/a/main.rs"]
    );
    assert_eq!(candidates("foo.rs").unwrap(), ["lib.rs", "main.rs"]);
    assert_eq!(candidates("foo/mod.rs").unwrap(), ["lib.rs", "main.rs"]);
}

#[test]
fn crate_roots_and_other_files_have_no_parent() {
    assert!(candidates("src/lib.rs").is_none());
    assert!(candidates("src/main.rs").is_none());
    assert!(candidates("src/foo.py").is_none());
    assert!(candidates("mod.rs").is_none());
    assert!(candidates("").is_none());
}

#[test]
fn candidates_agree_with_path_components() {
    for path in [
        "src/foo.rs", "./foo.rs", "a//b.rs", "a/./b.rs", "/x.rs", "/a/mod.rs", "../m/mod.rs",
        "../mod.rs", "./mod.rs", "a/b/../c.rs", "x/./mod.rs", "./x/mod.rs", "//a//b/mod.rs",
        "a/..rs", ".rs", "a/.rs",
    ] {
        let whole = std::path::Path::new(path);
        let parent = whole.parent().unwrap();
        let above = if whole.file_name().unwrap() == "mod.rs" {
            parent.parent()
        } else {
            Some(parent)
        };
        let expected = above.map(|above| {
            if above.as_os_str().is_empty() {
                return vec!["lib.rs".to_string(), "main.rs".to_string()];
            }
            let mut files = vec![above.join("mod.rs")];
            if let (Some(outer), Some(name)) = (above.parent(), above.file_name()) {
                let mut flat = outer.to_path_buf();
                flat.push(format!("{}.rs", name.to_string_lossy()));
                files.push(flat);
            }
            files.push(above.join("lib.rs"));
            files.push(above.join("main.rs"));
            files
                .iter()
                .map(|file| file.to_string_lossy().into_owned())
                .collect()
        });
        assert_eq!(candidates(path), expected, "{path}");
    }
}

#[test]
fn the_first_existing_candidate_is_picked() {
    let files = candidates("src/foo.rs").unwrap();
    let picked = find_parent_mod_file(files, &vec![false, true, true, false]);
    assert_eq!(picked.as_deref(), Some("src.rs"));
    let files = candidates("src/foo.rs").unwrap();
    assert_eq!(find_parent_mod_file(files, &vec![false; 4]), None);
}

#[test]
fn import_paths_end_in_their_last_part() {
    for path in ["src/foo/bar.rs", "bar.rs", "a/b.c/d.e", "", "x/"] {
        let whole = path_to_import_stem(path);
        assert!(!whole.contains('/'));
        assert!(whole.ends_with(&relative_import_stem(path)), "{path}");
    }
}

#[test]
fn a_lone_stem_is_replaced_in_its_place() {
    for (before, after) in [("", ""), ("use ", ";"), ("(", ")"), ("é é ", "\n")] {
        let pairs = rename_stem_pairs("src::foo", "src::baz");
        let content = format!("{before}crate::foo{after}");
        assert_eq!(
            apply_rename_pairs(&content, &pairs).unwrap(),
            format!("{before}crate::baz{after}")
        );
    }
}

#[test]
fn a_lone_declaration_is_replaced_in_its_place() {
    for (before, after) in [("mod ", ";"), ("// a\n\nmod ", ";\nfn main() {}\n")] {
        assert_eq!(
            rewrite_mod_decl(&format!("{before}x.y{after}"), "x.y", "z"),
            format!("{before}z{after}")
        );
    }
}

#[test]
fn only_rust_files_declare_modules() {
    for path in ["src/a/b.rs", "x.rs", "./m/mod.rs", "/r.rs"] {
        for file in candidates(path).unwrap_or_default() {
            assert!(file.ends_with(".rs"), "{file}");
        }
    }
}
