use qartez::index::languages::css::CssSupport;
use qartez::index::languages::{
    all_languages, get_language_for_ext, get_language_for_filename, supported_extensions,
    supported_filenames, supported_prefixes, LanguageSupport,
};

#[test]
fn get_language_for_ext_resolves_rust() {
    let lang = get_language_for_ext("rs").expect("rust extension must be registered");
    assert_eq!(lang.language_name(), "rust");
}

#[test]
fn get_language_for_ext_returns_none_for_unknown() {
    assert!(get_language_for_ext("").is_none());
    assert!(get_language_for_ext("xyz_not_a_real_extension").is_none());
}

#[test]
fn get_language_for_ext_is_case_sensitive() {
    assert!(get_language_for_ext("RS").is_none());
}

#[test]
fn get_language_for_filename_resolves_exact_names() {
    let lang = get_language_for_filename("Dockerfile").expect("Dockerfile must be registered");
    assert_eq!(lang.language_name(), "dockerfile");

    let lang = get_language_for_filename("Makefile").expect("Makefile must be registered");
    assert_eq!(lang.language_name(), "makefile");
}

#[test]
fn get_language_for_filename_resolves_by_prefix() {
    let lang =
        get_language_for_filename("Dockerfile.prod").expect("Dockerfile.* prefix must match");
    assert_eq!(lang.language_name(), "dockerfile");

    let lang =
        get_language_for_filename("Jenkinsfile.ci").expect("Jenkinsfile.* prefix must match");
    assert_eq!(lang.language_name(), "jenkinsfile");
}

#[test]
fn get_language_for_filename_returns_none_for_unrelated() {
    assert!(get_language_for_filename("random_file.log").is_none());
    assert!(get_language_for_filename("").is_none());
}

#[test]
fn supported_extensions_contains_core_languages() {
    let exts = supported_extensions();
    for required in ["rs", "py", "go", "ts", "java"] {
        assert!(
            exts.contains(&required),
            "supported_extensions missing {required}"
        );
    }
}

#[test]
fn supported_filenames_contains_known_entries() {
    let names = supported_filenames();
    assert!(names.contains(&"Dockerfile"));
    assert!(names.contains(&"Makefile"));
}

#[test]
fn supported_prefixes_contains_known_entries() {
    let prefixes = supported_prefixes();
    assert!(prefixes.contains(&"Dockerfile."));
    assert!(prefixes.contains(&"Jenkinsfile."));
}

#[test]
fn all_languages_register_non_empty_extensions() {
    for lang in all_languages().iter() {
        assert!(
            !lang.extensions().is_empty(),
            "language {} registered zero extensions",
            lang.language_name()
        );
    }
}

#[test]
fn every_supported_extension_leads_to_a_language() {
    for ext in supported_extensions() {
        let language = get_language_for_ext(ext).expect("supported extension");
        assert!(language.extensions().contains(&ext));
    }
}

#[test]
fn every_supported_name_leads_to_a_language() {
    for name in supported_filenames() {
        assert!(get_language_for_filename(name).is_some(), "{name}");
    }
    for prefix in supported_prefixes() {
        let name = format!("{prefix}local");
        assert!(get_language_for_filename(&name).is_some(), "{name}");
    }
}

#[test]
fn style_sheets_have_two_extensions() {
    assert_eq!(CssSupport.extensions(), vec!["css", "scss"]);
    assert_eq!(CssSupport.language_name(), "css");
    assert!(CssSupport.filenames().is_empty());
    assert!(CssSupport.filename_prefixes().is_empty());
    assert_eq!(get_language_for_ext("scss").unwrap().language_name(), "css");
}
