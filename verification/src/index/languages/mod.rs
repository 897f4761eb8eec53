//! The languages of the index, and the tables that lead from file names to
//! them.
use vstd::prelude::*;
use vstd::string::*;

use crate::text::{same, starts_with};

pub mod common;
pub mod css;

verus! {

/// The texts of a list of string slices.
pub open spec fn str_texts(list: Seq<&'static str>) -> Seq<Seq<char>> {
    Seq::new(list.len(), |i: int| list[i]@)
}

/// What the index knows of a language by its files alone.
pub trait LanguageSupport {
    /// The file extensions of the language.
    spec fn extension_texts(&self) -> Seq<Seq<char>>;

    /// The exact file names that belong to the language.
    spec fn filename_texts(&self) -> Seq<Seq<char>>;

    /// The prefixes of file names that belong to the language.
    spec fn prefix_texts(&self) -> Seq<Seq<char>>;

    /// The name of the language.
    spec fn name_text(&self) -> Seq<char>;

    /// Lists the file extensions of the language.
    fn extensions(&self) -> (r: Vec<&'static str>)
        ensures
            str_texts(r@) == self.extension_texts(),
    ;

    /// Lists the exact file names that belong to the language, such as
    /// `Dockerfile`.
    fn filenames(&self) -> (r: Vec<&'static str>)
        ensures
            str_texts(r@) == self.filename_texts(),
    ;

    /// Lists the prefixes for files such as `Dockerfile.prod`.
    fn filename_prefixes(&self) -> (r: Vec<&'static str>)
        ensures
            str_texts(r@) == self.prefix_texts(),
    ;

    /// Names the language.
    fn language_name(&self) -> (r: &'static str)
        ensures
            r@ == self.name_text(),
    ;
}

fn none() -> (r: Vec<&'static str>)
    ensures
        str_texts(r@) == Seq::<Seq<char>>::empty(),
{
    let r: Vec<&'static str> = Vec::new();
    assert(str_texts(r@) == Seq::<Seq<char>>::empty());
    r
}

fn one(a: &'static str) -> (r: Vec<&'static str>)
    ensures
        str_texts(r@) == seq![a@],
{
    let r: Vec<&'static str> = vec![a];
    assert(str_texts(r@) == seq![a@]);
    r
}

fn two(a: &'static str, b: &'static str) -> (r: Vec<&'static str>)
    ensures
        str_texts(r@) == seq![a@, b@],
{
    let r: Vec<&'static str> = vec![a, b];
    assert(str_texts(r@) == seq![a@, b@]);
    r
}

fn three(a: &'static str, b: &'static str, c: &'static str) -> (r: Vec<&'static str>)
    ensures
        str_texts(r@) == seq![a@, b@, c@],
{
    let r: Vec<&'static str> = vec![a, b, c];
    assert(str_texts(r@) == seq![a@, b@, c@]);
    r
}

fn six(
    a: &'static str,
    b: &'static str,
    c: &'static str,
    d: &'static str,
    e: &'static str,
    f: &'static str,
) -> (r: Vec<&'static str>)
    ensures
        str_texts(r@) == seq![a@, b@, c@, d@, e@, f@],
{
    let r: Vec<&'static str> = vec![a, b, c, d, e, f];
    assert(str_texts(r@) == seq![a@, b@, c@, d@, e@, f@]);
    r
}

/// The languages of the index.
#[derive(Clone, Copy, Debug, PartialEq, Eq, Structural)]
pub enum Language {
    TypeScript,
    Rust,
    Go,
    Python,
    Yaml,
    Hcl,
    C,
    Cpp,
    Java,
    Ruby,
    Bash,
    Css,
    Kotlin,
    Swift,
    CSharp,
    Dart,
    Php,
    Dockerfile,
    Makefile,
    Toml,
    Nginx,
    Helm,
    Sql,
    Protobuf,
    Lua,
    Scala,
    Nix,
    Starlark,
    Jsonnet,
    Elixir,
    Jenkinsfile,
    Caddyfile,
    Systemd,
    Zig,
    Haskell,
    OCaml,
    R,
}

/// The languages in the order in which they are registered.
pub open spec fn language_order() -> Seq<Language> {
    seq![
        Language::TypeScript,
        Language::Rust,
        Language::Go,
        Language::Python,
        Language::Yaml,
        Language::Hcl,
        Language::C,
        Language::Cpp,
        Language::Java,
        Language::Ruby,
        Language::Bash,
        Language::Css,
        Language::Kotlin,
        Language::Swift,
        Language::CSharp,
        Language::Dart,
        Language::Php,
        Language::Dockerfile,
        Language::Makefile,
        Language::Toml,
        Language::Nginx,
        Language::Helm,
        Language::Sql,
        Language::Protobuf,
        Language::Lua,
        Language::Scala,
        Language::Nix,
        Language::Starlark,
        Language::Jsonnet,
        Language::Elixir,
        Language::Jenkinsfile,
        Language::Caddyfile,
        Language::Systemd,
        Language::Zig,
        Language::Haskell,
        Language::OCaml,
        Language::R,
    ]
}

/// Lists the languages in the order in which they are registered.
pub fn all_languages() -> (r: Vec<Language>)
    ensures
        r@ == language_order(),
{
    let r: Vec<Language> = vec![
        Language::TypeScript,
        Language::Rust,
        Language::Go,
        Language::Python,
        Language::Yaml,
        Language::Hcl,
        Language::C,
        Language::Cpp,
        Language::Java,
        Language::Ruby,
        Language::Bash,
        Language::Css,
        Language::Kotlin,
        Language::Swift,
        Language::CSharp,
        Language::Dart,
        Language::Php,
        Language::Dockerfile,
        Language::Makefile,
        Language::Toml,
        Language::Nginx,
        Language::Helm,
        Language::Sql,
        Language::Protobuf,
        Language::Lua,
        Language::Scala,
        Language::Nix,
        Language::Starlark,
        Language::Jsonnet,
        Language::Elixir,
        Language::Jenkinsfile,
        Language::Caddyfile,
        Language::Systemd,
        Language::Zig,
        Language::Haskell,
        Language::OCaml,
        Language::R,
    ];
    assert(r@ == language_order());
    r
}

impl LanguageSupport for Language {
    open spec fn extension_texts(&self) -> Seq<Seq<char>> {
        match self {
            Language::TypeScript => seq!["ts"@, "tsx"@, "js"@, "jsx"@, "mjs"@, "cjs"@],
            Language::Rust => seq!["rs"@],
            Language::Go => seq!["go"@],
            Language::Python => seq!["py"@, "pyi"@],
            Language::Yaml => seq!["yaml"@, "yml"@],
            Language::Hcl => seq!["tf"@, "tfvars"@, "hcl"@],
            Language::C => seq!["c"@, "h"@],
            Language::Cpp => seq!["cpp"@, "cc"@, "cxx"@, "hpp"@, "hh"@, "hxx"@],
            Language::Java => seq!["java"@],
            Language::Ruby => seq!["rb"@],
            Language::Bash => seq!["sh"@, "bash"@],
            Language::Css => seq!["css"@, "scss"@],
            Language::Kotlin => seq!["kt"@, "kts"@],
            Language::Swift => seq!["swift"@],
            Language::CSharp => seq!["cs"@],
            Language::Dart => seq!["dart"@],
            Language::Php => seq!["php"@],
            Language::Dockerfile => seq!["dockerfile"@],
            Language::Makefile => seq!["mk"@],
            Language::Toml => seq!["toml"@],
            Language::Nginx => seq!["nginx"@],
            Language::Helm => seq!["tpl"@],
            Language::Sql => seq!["sql"@],
            Language::Protobuf => seq!["proto"@],
            Language::Lua => seq!["lua"@],
            Language::Scala => seq!["scala"@],
            Language::Nix => seq!["nix"@],
            Language::Starlark => seq!["bzl"@, "star"@],
            Language::Jsonnet => seq!["jsonnet"@, "libsonnet"@],
            Language::Elixir => seq!["ex"@, "exs"@],
            Language::Jenkinsfile => seq!["jenkinsfile"@],
            Language::Caddyfile => seq!["caddyfile"@],
            Language::Systemd => seq!["service"@],
            Language::Zig => seq!["zig"@],
            Language::Haskell => seq!["hs"@],
            Language::OCaml => seq!["ml"@, "mli"@],
            Language::R => seq!["r"@],
        }
    }

    open spec fn filename_texts(&self) -> Seq<Seq<char>> {
        match self {
            Language::Dockerfile => seq!["Dockerfile"@],
            Language::Makefile => seq!["Makefile"@],
            Language::Nginx => seq!["nginx.conf"@],
            Language::Jenkinsfile => seq!["Jenkinsfile"@],
            Language::Caddyfile => seq!["Caddyfile"@],
            _ => Seq::empty(),
        }
    }

    open spec fn prefix_texts(&self) -> Seq<Seq<char>> {
        match self {
            Language::Dockerfile => seq!["Dockerfile."@],
            Language::Jenkinsfile => seq!["Jenkinsfile."@],
            _ => Seq::empty(),
        }
    }

    open spec fn name_text(&self) -> Seq<char> {
        match self {
            Language::TypeScript => "typescript"@,
            Language::Rust => "rust"@,
            Language::Go => "go"@,
            Language::Python => "python"@,
            Language::Yaml => "yaml"@,
            Language::Hcl => "hcl"@,
            Language::C => "c"@,
            Language::Cpp => "cpp"@,
            Language::Java => "java"@,
            Language::Ruby => "ruby"@,
            Language::Bash => "bash"@,
            Language::Css => "css"@,
            Language::Kotlin => "kotlin"@,
            Language::Swift => "swift"@,
            Language::CSharp => "csharp"@,
            Language::Dart => "dart"@,
            Language::Php => "php"@,
            Language::Dockerfile => "dockerfile"@,
            Language::Makefile => "makefile"@,
            Language::Toml => "toml"@,
            Language::Nginx => "nginx"@,
            Language::Helm => "helm"@,
            Language::Sql => "sql"@,
            Language::Protobuf => "protobuf"@,
            Language::Lua => "lua"@,
            Language::Scala => "scala"@,
            Language::Nix => "nix"@,
            Language::Starlark => "starlark"@,
            Language::Jsonnet => "jsonnet"@,
            Language::Elixir => "elixir"@,
            Language::Jenkinsfile => "jenkinsfile"@,
            Language::Caddyfile => "caddyfile"@,
            Language::Systemd => "systemd"@,
            Language::Zig => "zig"@,
            Language::Haskell => "haskell"@,
            Language::OCaml => "ocaml"@,
            Language::R => "r"@,
        }
    }

    fn extensions(&self) -> Vec<&'static str> {
        match self {
            Language::TypeScript => six("ts", "tsx", "js", "jsx", "mjs", "cjs"),
            Language::Rust => one("rs"),
            Language::Go => one("go"),
            Language::Python => two("py", "pyi"),
            Language::Yaml => two("yaml", "yml"),
            Language::Hcl => three("tf", "tfvars", "hcl"),
            Language::C => two("c", "h"),
            Language::Cpp => six("cpp", "cc", "cxx", "hpp", "hh", "hxx"),
            Language::Java => one("java"),
            Language::Ruby => one("rb"),
            Language::Bash => two("sh", "bash"),
            Language::Css => two("css", "scss"),
            Language::Kotlin => two("kt", "kts"),
            Language::Swift => one("swift"),
            Language::CSharp => one("cs"),
            Language::Dart => one("dart"),
            Language::Php => one("php"),
            Language::Dockerfile => one("dockerfile"),
            Language::Makefile => one("mk"),
            Language::Toml => one("toml"),
            Language::Nginx => one("nginx"),
            Language::Helm => one("tpl"),
            Language::Sql => one("sql"),
            Language::Protobuf => one("proto"),
            Language::Lua => one("lua"),
            Language::Scala => one("scala"),
            Language::Nix => one("nix"),
            Language::Starlark => two("bzl", "star"),
            Language::Jsonnet => two("jsonnet", "libsonnet"),
            Language::Elixir => two("ex", "exs"),
            Language::Jenkinsfile => one("jenkinsfile"),
            Language::Caddyfile => one("caddyfile"),
            Language::Systemd => one("service"),
            Language::Zig => one("zig"),
            Language::Haskell => one("hs"),
            Language::OCaml => two("ml", "mli"),
            Language::R => one("r"),
        }
    }

    fn filenames(&self) -> Vec<&'static str> {
        match self {
            Language::Dockerfile => one("Dockerfile"),
            Language::Makefile => one("Makefile"),
            Language::Nginx => one("nginx.conf"),
            Language::Jenkinsfile => one("Jenkinsfile"),
            Language::Caddyfile => one("Caddyfile"),
            _ => none(),
        }
    }

    fn filename_prefixes(&self) -> Vec<&'static str> {
        match self {
            Language::Dockerfile => one("Dockerfile."),
            Language::Jenkinsfile => one("Jenkinsfile."),
            _ => none(),
        }
    }

    fn language_name(&self) -> &'static str {
        match self {
            Language::TypeScript => "typescript",
            Language::Rust => "rust",
            Language::Go => "go",
            Language::Python => "python",
            Language::Yaml => "yaml",
            Language::Hcl => "hcl",
            Language::C => "c",
            Language::Cpp => "cpp",
            Language::Java => "java",
            Language::Ruby => "ruby",
            Language::Bash => "bash",
            Language::Css => "css",
            Language::Kotlin => "kotlin",
            Language::Swift => "swift",
            Language::CSharp => "csharp",
            Language::Dart => "dart",
            Language::Php => "php",
            Language::Dockerfile => "dockerfile",
            Language::Makefile => "makefile",
            Language::Toml => "toml",
            Language::Nginx => "nginx",
            Language::Helm => "helm",
            Language::Sql => "sql",
            Language::Protobuf => "protobuf",
            Language::Lua => "lua",
            Language::Scala => "scala",
            Language::Nix => "nix",
            Language::Starlark => "starlark",
            Language::Jsonnet => "jsonnet",
            Language::Elixir => "elixir",
            Language::Jenkinsfile => "jenkinsfile",
            Language::Caddyfile => "caddyfile",
            Language::Systemd => "systemd",
            Language::Zig => "zig",
            Language::Haskell => "haskell",
            Language::OCaml => "ocaml",
            Language::R => "r",
        }
    }
}

impl LanguageSupport for css::CssSupport {
    open spec fn extension_texts(&self) -> Seq<Seq<char>> {
        Language::Css.extension_texts()
    }

    open spec fn filename_texts(&self) -> Seq<Seq<char>> {
        Language::Css.filename_texts()
    }

    open spec fn prefix_texts(&self) -> Seq<Seq<char>> {
        Language::Css.prefix_texts()
    }

    open spec fn name_text(&self) -> Seq<char> {
        Language::Css.name_text()
    }

    fn extensions(&self) -> Vec<&'static str> {
        Language::Css.extensions()
    }

    fn filenames(&self) -> Vec<&'static str> {
        Language::Css.filenames()
    }

    fn filename_prefixes(&self) -> Vec<&'static str> {
        Language::Css.filename_prefixes()
    }

    fn language_name(&self) -> &'static str {
        Language::Css.language_name()
    }
}

/// The three ways in which a language claims a file.
#[derive(Clone, Copy, PartialEq, Eq, Structural)]
pub enum Claim {
    Extension,
    Filename,
    Prefix,
}

/// What a language claims in one of the three ways.
pub open spec fn claims(language: Language, claim: Claim) -> Seq<Seq<char>> {
    match claim {
        Claim::Extension => language.extension_texts(),
        Claim::Filename => language.filename_texts(),
        Claim::Prefix => language.prefix_texts(),
    }
}

/// The registry of one kind of claim: the claims of each language in turn.
pub open spec fn registry(languages: Seq<Language>, claim: Claim) -> Seq<(Seq<char>, Language)>
    decreases languages.len(),
{
    if languages.len() == 0 {
        Seq::empty()
    } else {
        let list = claims(languages.last(), claim);
        registry(languages.drop_last(), claim) + Seq::new(
            list.len(),
            |i: int| (list[i], languages.last()),
        )
    }
}

/// The rows of a registry as plain values.
pub open spec fn row_texts(rows: Seq<(&'static str, Language)>) -> Seq<(Seq<char>, Language)> {
    Seq::new(rows.len(), |i: int| (rows[i].0@, rows[i].1))
}

/// The first row whose text is `key`.
pub open spec fn entry_for(rows: Seq<(Seq<char>, Language)>, key: Seq<char>) -> Option<Language>
    decreases rows.len(),
{
    if rows.len() == 0 {
        None
    } else if rows[0].0 == key {
        Some(rows[0].1)
    } else {
        entry_for(rows.drop_first(), key)
    }
}

/// The first row whose text starts `name`.
pub open spec fn prefix_entry_for(rows: Seq<(Seq<char>, Language)>, name: Seq<char>) -> Option<
    Language,
>
    decreases rows.len(),
{
    if rows.len() == 0 {
        None
    } else if rows[0].0.is_prefix_of(name) {
        Some(rows[0].1)
    } else {
        prefix_entry_for(rows.drop_first(), name)
    }
}

/// The texts of a registry, in order.
pub open spec fn registered(claim: Claim) -> Seq<Seq<char>> {
    let rows = registry(language_order(), claim);
    Seq::new(rows.len(), |i: int| rows[i].0)
}

/// The language that an extension belongs to.
pub open spec fn language_for_ext(ext: Seq<char>) -> Option<Language> {
    entry_for(registry(language_order(), Claim::Extension), ext)
}

/// The language that a file name belongs to: by exact name, or else by prefix.
pub open spec fn language_for_filename(filename: Seq<char>) -> Option<Language> {
    match entry_for(registry(language_order(), Claim::Filename), filename) {
        Some(language) => Some(language),
        None => prefix_entry_for(registry(language_order(), Claim::Prefix), filename),
    }
}

fn claim_list(language: Language, claim: Claim) -> (r: Vec<&'static str>)
    ensures
        str_texts(r@) == claims(language, claim),
{
    match claim {
        Claim::Extension => language.extensions(),
        Claim::Filename => language.filenames(),
        Claim::Prefix => language.filename_prefixes(),
    }
}

fn build_registry(claim: Claim) -> (r: Vec<(&'static str, Language)>)
    ensures
        row_texts(r@) == registry(language_order(), claim),
{
    let languages = all_languages();
    let n: usize = languages.len();
    let mut rows: Vec<(&'static str, Language)> = Vec::new();
    let mut i: usize = 0;
    assert(row_texts(rows@) == Seq::<(Seq<char>, Language)>::empty());
    while i < n
        invariant
            languages@ == language_order(),
            n == languages@.len(),
            i <= n,
            row_texts(rows@) == registry(languages@.take(i as int), claim),
        decreases n - i,
    {
        let language = languages[i];
        let list = claim_list(language, claim);
        let m: usize = list.len();
        let ghost before = row_texts(rows@);
        let ghost added = Seq::new(
            claims(language, claim).len(),
            |k: int| (claims(language, claim)[k], language),
        );
        let mut j: usize = 0;
        assert(before + added.take(0) == before);
        while j < m
            invariant
                m == list@.len(),
                j <= m,
                str_texts(list@) == claims(language, claim),
                added == Seq::new(
                    claims(language, claim).len(),
                    |k: int| (claims(language, claim)[k], language),
                ),
                row_texts(rows@) == before + added.take(j as int),
            decreases m - j,
        {
            let ghost so_far = rows@;
            rows.push((list[j], language));
            proof {
                assert(str_texts(list@)[j as int] == list@[j as int]@);
                assert(row_texts(rows@) == row_texts(so_far).push(added[j as int]));
                assert(added.take(j + 1) == added.take(j as int).push(added[j as int]));
                assert(before + added.take(j + 1) == (before + added.take(j as int)).push(
                    added[j as int],
                ));
            }
            j = j + 1;
        }
        proof {
            assert(added.take(m as int) == added);
            assert(languages@.take(i + 1).drop_last() == languages@.take(i as int));
            assert(languages@.take(i + 1).last() == language);
        }
        i = i + 1;
    }
    assert(languages@.take(n as int) == languages@);
    rows
}

fn find_entry(rows: &Vec<(&'static str, Language)>, key: &str) -> (r: Option<Language>)
    ensures
        r == entry_for(row_texts(rows@), key@),
{
    let n: usize = rows.len();
    let mut i: usize = 0;
    let ghost all = row_texts(rows@);
    assert(all.skip(0) == all);
    while i < n
        invariant
            n == rows@.len(),
            all == row_texts(rows@),
            i <= n,
            entry_for(all, key@) == entry_for(all.skip(i as int), key@),
        decreases n - i,
    {
        assert(all.skip(i as int)[0] == all[i as int]);
        assert(all.skip(i as int).drop_first() == all.skip(i + 1));
        if same(rows[i].0, key) {
            return Some(rows[i].1);
        }
        i = i + 1;
    }
    None
}

fn find_prefix_entry(rows: &Vec<(&'static str, Language)>, name: &str) -> (r: Option<Language>)
    ensures
        r == prefix_entry_for(row_texts(rows@), name@),
{
    let n: usize = rows.len();
    let mut i: usize = 0;
    let ghost all = row_texts(rows@);
    assert(all.skip(0) == all);
    while i < n
        invariant
            n == rows@.len(),
            all == row_texts(rows@),
            i <= n,
            prefix_entry_for(all, name@) == prefix_entry_for(all.skip(i as int), name@),
        decreases n - i,
    {
        assert(all.skip(i as int)[0] == all[i as int]);
        assert(all.skip(i as int).drop_first() == all.skip(i + 1));
        if starts_with(name, rows[i].0) {
            return Some(rows[i].1);
        }
        i = i + 1;
    }
    None
}

fn list_registry(claim: Claim) -> (r: Vec<&'static str>)
    ensures
        str_texts(r@) == registered(claim),
{
    let rows = build_registry(claim);
    let n: usize = rows.len();
    let mut out: Vec<&'static str> = Vec::new();
    let mut i: usize = 0;
    while i < n
        invariant
            n == rows@.len(),
            i <= n,
            out@.len() == i,
            forall|k: int| 0 <= k < i ==> #[trigger] out@[k] == rows@[k].0,
        decreases n - i,
    {
        out.push(rows[i].0);
        i = i + 1;
    }
    proof {
        assert forall|k: int| 0 <= k < n implies #[trigger] str_texts(out@)[k] == registered(
            claim,
        )[k] by {
            assert(row_texts(rows@)[k].0 == rows@[k].0@);
        }
        assert(row_texts(rows@).len() == n);
        assert(str_texts(out@) == registered(claim));
    }
    out
}

/// Finds the language of a file extension, which is compared exactly.
pub fn get_language_for_ext(ext: &str) -> (r: Option<Language>)
    ensures
        r == language_for_ext(ext@),
{
    find_entry(&build_registry(Claim::Extension), ext)
}

/// Finds the language of a file name: an exact name goes before any prefix.
pub fn get_language_for_filename(filename: &str) -> (r: Option<Language>)
    ensures
        r == language_for_filename(filename@),
{
    let exact = find_entry(&build_registry(Claim::Filename), filename);
    if exact.is_some() {
        return exact;
    }
    find_prefix_entry(&build_registry(Claim::Prefix), filename)
}

/// Lists the file extensions of all languages, in registration order.
pub fn supported_extensions() -> (r: Vec<&'static str>)
    ensures
        str_texts(r@) == registered(Claim::Extension),
{
    list_registry(Claim::Extension)
}

/// Lists the exact file names of all languages, in registration order.
pub fn supported_filenames() -> (r: Vec<&'static str>)
    ensures
        str_texts(r@) == registered(Claim::Filename),
{
    list_registry(Claim::Filename)
}

/// Lists the file name prefixes of all languages, in registration order.
pub fn supported_prefixes() -> (r: Vec<&'static str>)
    ensures
        str_texts(r@) == registered(Claim::Prefix),
{
    list_registry(Claim::Prefix)
}

proof fn lemma_entry_known(rows: Seq<(Seq<char>, Language)>, key: Seq<char>)
    ensures
        entry_for(rows, key) is Some <==> exists|i: int|
            0 <= i < rows.len() && (#[trigger] rows[i]).0 == key,
    decreases rows.len(),
{
    if rows.len() > 0 {
        let rest = rows.drop_first();
        lemma_entry_known(rest, key);
        if rows[0].0 != key {
            if exists|i: int| 0 <= i < rows.len() && (#[trigger] rows[i]).0 == key {
                let i = choose|i: int| 0 <= i < rows.len() && (#[trigger] rows[i]).0 == key;
                assert(rest[i - 1] == rows[i]);
            }
            if exists|i: int| 0 <= i < rest.len() && (#[trigger] rest[i]).0 == key {
                let i = choose|i: int| 0 <= i < rest.len() && (#[trigger] rest[i]).0 == key;
                assert(rows[i + 1] == rest[i]);
            }
        }
    }
}

proof fn lemma_prefix_known(rows: Seq<(Seq<char>, Language)>, name: Seq<char>)
    ensures
        prefix_entry_for(rows, name) is Some <==> exists|i: int|
            0 <= i < rows.len() && (#[trigger] rows[i]).0.is_prefix_of(name),
    decreases rows.len(),
{
    if rows.len() > 0 {
        let rest = rows.drop_first();
        lemma_prefix_known(rest, name);
        if !rows[0].0.is_prefix_of(name) {
            if exists|i: int| 0 <= i < rows.len() && (#[trigger] rows[i]).0.is_prefix_of(name) {
                let i = choose|i: int|
                    0 <= i < rows.len() && (#[trigger] rows[i]).0.is_prefix_of(name);
                assert(rest[i - 1] == rows[i]);
            }
            if exists|i: int| 0 <= i < rest.len() && (#[trigger] rest[i]).0.is_prefix_of(name) {
                let i = choose|i: int|
                    0 <= i < rest.len() && (#[trigger] rest[i]).0.is_prefix_of(name);
                assert(rows[i + 1] == rest[i]);
            }
        }
    }
}

/// An extension leads to a language exactly when it is among the supported
/// extensions.
pub proof fn law_extension_known_iff_supported(ext: Seq<char>)
    ensures
        language_for_ext(ext) is Some <==> registered(Claim::Extension).contains(ext),
{
    let rows = registry(language_order(), Claim::Extension);
    lemma_entry_known(rows, ext);
    let listed = registered(Claim::Extension);
    if language_for_ext(ext) is Some {
        let i = choose|i: int| 0 <= i < rows.len() && (#[trigger] rows[i]).0 == ext;
        assert(listed[i] == ext);
    }
    if listed.contains(ext) {
        let i = choose|i: int| 0 <= i < listed.len() && listed[i] == ext;
        assert(rows[i].0 == ext);
    }
}

/// A file name leads to a language exactly when it is a supported name or
/// starts with a supported prefix.
pub proof fn law_filename_known_iff_supported(filename: Seq<char>)
    ensures
        language_for_filename(filename) is Some <==> registered(Claim::Filename).contains(filename)
            || exists|i: int|
            0 <= i < registered(Claim::Prefix).len() && (#[trigger] registered(
                Claim::Prefix,
            )[i]).is_prefix_of(filename),
{
    let rows = registry(language_order(), Claim::Filename);
    let prefixes = registry(language_order(), Claim::Prefix);
    lemma_entry_known(rows, filename);
    lemma_prefix_known(prefixes, filename);
    let names = registered(Claim::Filename);
    let starts = registered(Claim::Prefix);
    if entry_for(rows, filename) is Some {
        let i = choose|i: int| 0 <= i < rows.len() && (#[trigger] rows[i]).0 == filename;
        assert(names[i] == filename);
    } else if language_for_filename(filename) is Some {
        let i = choose|i: int|
            0 <= i < prefixes.len() && (#[trigger] prefixes[i]).0.is_prefix_of(filename);
        assert(starts[i].is_prefix_of(filename));
    }
    if names.contains(filename) {
        let i = choose|i: int| 0 <= i < names.len() && names[i] == filename;
        assert(rows[i].0 == filename);
    }
    if exists|i: int| 0 <= i < starts.len() && (#[trigger] starts[i]).is_prefix_of(filename) {
        let i = choose|i: int|
            0 <= i < starts.len() && (#[trigger] starts[i]).is_prefix_of(filename);
        assert(prefixes[i].0.is_prefix_of(filename));
    }
}

proof fn lemma_entry_member(rows: Seq<(Seq<char>, Language)>, key: Seq<char>)
    requires
        entry_for(rows, key) is Some,
    ensures
        rows.contains((key, entry_for(rows, key)->0)),
    decreases rows.len(),
{
    if rows[0].0 != key {
        let rest = rows.drop_first();
        lemma_entry_member(rest, key);
        let k = choose|k: int| 0 <= k < rest.len() && rest[k] == (key, entry_for(rest, key)->0);
        assert(rows[k + 1] == rest[k]);
    }
}

proof fn lemma_registry_rows(languages: Seq<Language>, claim: Claim, i: int)
    requires
        0 <= i < registry(languages, claim).len(),
    ensures
        claims(registry(languages, claim)[i].1, claim).contains(registry(languages, claim)[i].0),
    decreases languages.len(),
{
    let rest = registry(languages.drop_last(), claim);
    if i < rest.len() {
        lemma_registry_rows(languages.drop_last(), claim, i);
    } else {
        let list = claims(languages.last(), claim);
        assert(registry(languages, claim)[i] == (list[i - rest.len()], languages.last()));
        assert(list.contains(list[i - rest.len()]));
    }
}

/// The language that an extension leads to claims the extension.
pub proof fn law_language_claims_its_extensions(ext: Seq<char>)
    requires
        language_for_ext(ext) is Some,
    ensures
        language_for_ext(ext)->0.extension_texts().contains(ext),
{
    let rows = registry(language_order(), Claim::Extension);
    lemma_entry_member(rows, ext);
    let i = choose|i: int| 0 <= i < rows.len() && rows[i] == (ext, language_for_ext(ext)->0);
    lemma_registry_rows(language_order(), Claim::Extension, i);
}

/// Every language registers at least one extension.
pub proof fn law_every_language_has_an_extension(language: Language)
    ensures
        language.extension_texts().len() > 0,
{
}

/// The language that a file name leads to claims the name, or claims a prefix of it
/// where no language claims the name itself.
pub proof fn law_language_claims_its_filenames(filename: Seq<char>)
    requires
        language_for_filename(filename) is Some,
    ensures
        ({
            let language = language_for_filename(filename)->0;
            ||| language.filename_texts().contains(filename)
            ||| !registered(Claim::Filename).contains(filename) && exists|k: int|
                0 <= k < language.prefix_texts().len() && (
                #[trigger] language.prefix_texts()[k]).is_prefix_of(filename)
        }),
{
    let rows = registry(language_order(), Claim::Filename);
    let names = registered(Claim::Filename);
    lemma_entry_known(rows, filename);
    if entry_for(rows, filename) is Some {
        lemma_entry_member(rows, filename);
        let i = choose|i: int|
            0 <= i < rows.len() && rows[i] == (filename, entry_for(rows, filename)->0);
        lemma_registry_rows(language_order(), Claim::Filename, i);
    } else {
        if names.contains(filename) {
            let i = choose|i: int| 0 <= i < names.len() && names[i] == filename;
            assert(rows[i].0 == filename);
        }
        let prefixes = registry(language_order(), Claim::Prefix);
        let i = lemma_prefix_member(prefixes, filename);
        lemma_registry_rows(language_order(), Claim::Prefix, i);
        let list = prefixes[i].1.prefix_texts();
        let k = choose|k: int| 0 <= k < list.len() && list[k] == prefixes[i].0;
        assert(list[k].is_prefix_of(filename));
    }
}

proof fn lemma_prefix_member(rows: Seq<(Seq<char>, Language)>, name: Seq<char>) -> (i: int)
    requires
        prefix_entry_for(rows, name) is Some,
    ensures
        0 <= i < rows.len(),
        rows[i].0.is_prefix_of(name),
        prefix_entry_for(rows, name) == Some(rows[i].1),
    decreases rows.len(),
{
    if rows[0].0.is_prefix_of(name) {
        0
    } else {
        let i = lemma_prefix_member(rows.drop_first(), name);
        assert(rows.drop_first()[i] == rows[i + 1]);
        i + 1
    }
}

/// Style sheets have the extensions `css` and `scss`, and claim no other files.
pub proof fn law_style_sheets(support: css::CssSupport)
    ensures
        support.extension_texts() == seq!["css"@, "scss"@],
        support.filename_texts().len() == 0,
        support.prefix_texts().len() == 0,
        support.name_text() == "css"@,
{
}

}
