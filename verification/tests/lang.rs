//! Language definitions.

use slopcount::data;
use slopcount::data::{registry, EXTRAS};
use slopcount::json::{deep_merge, parse};
use slopcount::lang::{unescape, BlockStyle, Registry, RegistryError, OTHER_FAMILY};

fn languages() -> Registry {
    registry().expect("the definitions are valid")
}

#[test]
fn languages_are_stamped_with_their_family() {
    let reg = languages();
    let tsx = reg.by_key("Tsx").unwrap();
    assert_eq!(
        reg.family_of(tsx).map(|f| f.name.as_str()),
        Some("JavaScript")
    );
    assert_eq!(reg.family_name(Some(tsx)), "JavaScript");
    assert_eq!(reg.family_name(None), OTHER_FAMILY);
    assert_eq!(
        reg.resolve_family("javascript"),
        Some(reg.get(tsx).family.unwrap())
    );
}

#[test]
fn a_family_lists_its_members() {
    let reg = languages();
    let family = reg.family(reg.resolve_family("Systems").unwrap());
    assert!(family.languages.contains(&reg.by_key("Rust").unwrap()));
    assert!(family
        .languages
        .iter()
        .all(|id| reg.family_of(*id).is_some_and(|f| f.id == family.id)));
}

#[test]
fn a_family_naming_an_unknown_language_is_an_error() {
    let families = r#"{"families": {"Nope": {"languages": ["NotALanguage"]}}}"#;
    let err = Registry::from_json(&data::languages(), EXTRAS, families)
        .err()
        .expect("unknown language should fail");
    assert!(err.message().contains("NotALanguage"), "{err:?}");
}

#[test]
fn a_language_cannot_be_in_two_families() {
    let families =
        r#"{"families": {"A": {"languages": ["Rust"]}, "B": {"languages": ["Rust"]}}}"#;
    let err = Registry::from_json(&data::languages(), EXTRAS, families)
        .err()
        .expect("a duplicate should fail");
    assert!(err.message().contains("two families"), "{err:?}");
}

#[test]
fn escaped_quote_characters_are_unescaped() {
    // tokei stores these pre-escaped for its code generator.
    assert_eq!(unescape(r#"\""#), "\"");
    assert_eq!(unescape(r"\<"), "<");
    assert_eq!(unescape("plain"), "plain");
    // A trailing lone backslash is dropped rather than panicking.
    assert_eq!(unescape(r"a\"), "a");
}

#[test]
fn quote_delimiters_survive_unescaping() {
    let reg = languages();
    let rust = reg.get(reg.by_key("Rust").unwrap());
    assert!(rust.quotes.contains(&("\"".to_string(), "\"".to_string())));
    assert!(rust
        .verbatim_quotes
        .contains(&("r#\"".to_string(), "\"#".to_string())));
}

#[test]
fn comment_syntax_is_loaded() {
    let reg = languages();
    let rust = reg.get(reg.by_key("Rust").unwrap());
    assert_eq!(rust.line_comments, vec!["//"]);
    assert_eq!(
        rust.multi_line_comments,
        vec![("/*".to_string(), "*/".to_string())]
    );
    assert!(rust.nested);

    let python = reg.get(reg.by_key("Python").unwrap());
    assert_eq!(python.line_comments, vec!["#"]);
    assert!(!python.nested);
    assert_eq!(python.doc_quotes.len(), 2);
}

#[test]
fn display_names_override_keys() {
    let reg = languages();
    assert_eq!(reg.get(reg.by_key("Cpp").unwrap()).name, "C++");
    assert_eq!(reg.get(reg.by_key("Rust").unwrap()).name, "Rust");
}

// -- path resolution -----------------------------------------------------

#[test]
fn resolves_languages_by_extension() {
    let reg = languages();
    let expect = |path: &str, key: &str| {
        assert_eq!(
            reg.from_path(path),
            reg.by_key(key),
            "{path} should be {key}"
        );
    };
    expect("main.rs", "Rust");
    expect("src/deep/main.rs", "Rust");
    expect("a.py", "Python");
    expect("a.go", "Go");
    expect("a.tsx", "Tsx");
    expect("a.md", "Markdown");
}

#[test]
fn extensions_are_matched_case_insensitively() {
    let reg = languages();
    assert_eq!(reg.from_path("MAIN.RS"), reg.by_key("Rust"));
}

#[test]
fn resolves_languages_by_filename() {
    let reg = languages();
    assert_eq!(reg.from_path("Makefile"), reg.by_key("Makefile"));
    assert_eq!(reg.from_path("a/b/Dockerfile"), reg.by_key("Dockerfile"));
}

#[test]
fn unknown_extensions_resolve_to_nothing() {
    let reg = languages();
    assert_eq!(reg.from_path("a.zzzznope"), None);
    assert_eq!(reg.from_path("noextension"), None);
}

#[test]
fn resolves_languages_from_shebangs() {
    let reg = languages();
    assert_eq!(
        reg.from_shebang("#!/usr/bin/env python3"),
        reg.by_key("Python")
    );
    assert_eq!(reg.from_shebang("#!/bin/bash"), reg.by_key("Bash"));
    assert_eq!(reg.from_shebang("#!/usr/bin/env ruby"), reg.by_key("Ruby"));
    // Not a shebang at all.
    assert_eq!(reg.from_shebang("import os"), None);
    assert_eq!(reg.from_shebang(""), None);
}

#[test]
fn resolve_accepts_names_keys_and_extensions() {
    let reg = languages();
    let rust = reg.by_key("Rust");
    assert_eq!(reg.resolve("Rust"), rust);
    assert_eq!(reg.resolve("rust"), rust);
    assert_eq!(reg.resolve("rs"), rust);
    assert_eq!(reg.resolve("c++"), reg.by_key("Cpp"));
    assert_eq!(reg.resolve("not-a-language"), None);
}

// -- the extras overlay --------------------------------------------------

#[test]
fn extras_are_merged_onto_the_base_definitions() {
    let reg = languages();
    let rust = reg.get(reg.by_key("Rust").unwrap());
    // From languages_extra.json...
    assert!(rust.test_blocks.iter().any(|m| m == "#[cfg(test)]"));
    // ...without losing anything from languages.json.
    assert_eq!(rust.line_comments, vec!["//"]);
    assert_eq!(rust.extensions, vec!["rs"]);
}

#[test]
fn deep_merge_combines_objects_and_replaces_arrays() {
    let base = parse(r#"{"keep": 1, "nested": {"a": 1, "b": 2}, "list": [1, 2, 3]}"#).unwrap();
    let overlay =
        parse(r#"{"nested": {"b": 20, "c": 30}, "list": [9], "added": true}"#).unwrap();
    let merged = deep_merge(base, &overlay);
    let expected = parse(
        r#"{"keep": 1, "nested": {"a": 1, "b": 20, "c": 30}, "list": [9], "added": true}"#,
    )
    .unwrap();
    assert_eq!(format!("{merged:?}"), format!("{expected:?}"));
}

#[test]
fn test_path_globs_come_from_both_the_global_and_language_scopes() {
    let reg = languages();
    let go = reg.by_key("Go");
    // Language-scoped.
    assert!(reg.path_is_test("pkg/thing/widget_test.go", go));
    // Global, so it applies whatever the language.
    assert!(reg.path_is_test("src/tests/helpers.rs", reg.by_key("Rust")));
    assert!(reg.path_is_test("app/__tests__/a.js", reg.by_key("JavaScript")));
    // Neither.
    assert!(!reg.path_is_test("pkg/thing/widget.go", go));
    assert!(!reg.path_is_test("src/main.rs", reg.by_key("Rust")));
}

#[test]
fn a_language_test_glob_does_not_apply_to_other_languages() {
    let reg = languages();
    // `*_test.go` is Go's rule; a Python file of that shape is not a test.
    assert!(!reg.path_is_test("a/b_test.go", reg.by_key("Python")));
}

#[test]
fn python_test_paths_match_both_naming_conventions() {
    let reg = languages();
    let py = reg.by_key("Python");
    assert!(reg.path_is_test("pkg/test_thing.py", py));
    assert!(reg.path_is_test("pkg/thing_test.py", py));
    assert!(!reg.path_is_test("pkg/thing.py", py));
}

#[test]
fn languages_with_test_support_are_the_ones_we_configured() {
    let reg = languages();
    for key in ["Rust", "Go", "Python", "TypeScript", "JavaScript", "Java"] {
        let lang = reg.get(reg.by_key(key).unwrap());
        assert!(lang.detects_tests(), "{key} should detect tests");
    }
}

#[test]
fn block_styles_are_read_from_the_overlay() {
    let reg = languages();
    assert_eq!(
        reg.get(reg.by_key("Python").unwrap()).test_block_style,
        BlockStyle::Indent
    );
    assert_eq!(
        reg.get(reg.by_key("Rust").unwrap()).test_block_style,
        BlockStyle::Braces
    );
}

#[test]
fn important_syntax_covers_every_delimiter_that_can_open_a_mode() {
    let reg = languages();
    let rust = reg.get(reg.by_key("Rust").unwrap());
    for needle in ["/*", "\"", "r#\""] {
        assert!(
            rust.important_syntax.is_match(needle),
            "{needle:?} should be important syntax"
        );
    }
}

// -- the definitions as a whole ----------------------------------------------

#[test]
fn the_embedded_definitions_build() {
    let reg = languages();
    assert!(reg.languages().len() > 300, "got {}", reg.languages().len());
}

#[test]
fn the_definitions_describe_every_language_they_list() {
    let reg = languages();
    for (i, language) in reg.languages().iter().enumerate() {
        assert_eq!(language.id.0 as usize, i);
        assert_eq!(reg.by_key(&language.key), Some(language.id));
    }
    for (i, family) in reg.families().iter().enumerate() {
        assert_eq!(family.id.0 as usize, i);
        for id in &family.languages {
            assert_eq!(reg.get(*id).family, Some(family.id));
        }
    }
}

#[test]
fn the_longest_opener_is_tried_first() {
    let base = r#"{"languages": {"X": {"quotes": [["'", "'"], ["'''", "'''"]],
        "line_comment": ["/", "//"]}}}"#;
    let reg = Registry::from_json(base, "{}", "{}").unwrap();
    let x = reg.get(reg.by_key("X").unwrap());
    assert_eq!(x.quotes[0].0, "'''");
    assert_eq!(x.line_comments, vec!["//", "/"]);
}

#[test]
fn the_longest_path_suffix_wins() {
    let base = r#"{"languages": {
        "Long": {"path_suffixes": [".blade.php"]},
        "Short": {"path_suffixes": [".php"]}}}"#;
    let reg = Registry::from_json(base, "{}", "{}").unwrap();
    assert_eq!(reg.from_path("a.blade.php"), reg.by_key("Long"));
    assert_eq!(reg.from_path("a.php"), reg.by_key("Short"));
    let ours = languages();
    assert_eq!(ours.from_path("view.blade.php"), ours.by_key("Blade"));
}

#[test]
fn the_first_language_to_claim_an_extension_keeps_it() {
    let base = r#"{"languages": {"A": {"extensions": ["x"]}, "B": {"extensions": ["x"]}}}"#;
    let reg = Registry::from_json(base, "{}", "{}").unwrap();
    assert_eq!(reg.from_path("f.x"), reg.by_key("A"));
}

#[test]
fn an_overlay_can_add_a_language() {
    let extra = r#"{"languages": {"New": {"extensions": ["new"], "name": "Newest"}}}"#;
    let reg = Registry::from_json(r#"{"languages": {}}"#, extra, "{}").unwrap();
    assert_eq!(reg.get(reg.by_key("New").unwrap()).name, "Newest");
    assert_eq!(reg.from_path("a.new"), reg.by_key("New"));
}

// -- errors ------------------------------------------------------------------

#[test]
fn what_is_not_json_is_refused() {
    let unfinished = "EOF while parsing an object at line 1 column 1";
    let word = "expected ident at line 1 column 2";
    let nothing = "EOF while parsing a value at line 1 column 0";
    for (texts, why) in [
        (("{", "{}", "{}"), unfinished),
        (("{}", "nope", "{}"), word),
        (("{}", "{}", ""), nothing),
        // The first that is wrong is reported.
        (("{", "nope", ""), unfinished),
        (("{}", "nope", ""), word),
    ] {
        let err = Registry::from_json(texts.0, texts.1, texts.2).err().unwrap();
        assert!(matches!(err, RegistryError::Json(_)), "{err:?}");
        assert_eq!(err.message(), why);
    }
}

#[test]
fn languages_have_to_be_a_table() {
    let err = Registry::from_json(r#"{"languages": [1]}"#, "{}", "{}").err().unwrap();
    assert!(matches!(err, RegistryError::NotATable), "{err:?}");
    assert_eq!(err.message(), "`languages` is not an object");
}

#[test]
fn test_paths_have_to_be_globs() {
    let extra = r#"{"global": {"test_paths": ["a/**", "["]}}"#;
    let err = Registry::from_json("{}", extra, "{}").err().unwrap();
    assert!(matches!(err, RegistryError::GlobalTestPaths(_)), "{err:?}");
    assert_eq!(
        err.message(),
        "error parsing glob '[': unclosed character class; missing ']'"
    );

    let base = r#"{"languages": {"X": {"test_paths": ["["]}}}"#;
    let err = Registry::from_json(base, "{}", "{}").err().unwrap();
    assert!(matches!(err, RegistryError::Language { .. }), "{err:?}");
    assert_eq!(
        err.message(),
        "error parsing glob '[': unclosed character class; missing ']'"
    );
}

#[test]
fn family_errors_name_everyone_involved() {
    let base = r#"{"languages": {"X": {}}}"#;
    let unknown = r#"{"families": {"F": {"languages": ["Y"]}}}"#;
    let err = Registry::from_json(base, "{}", unknown).err().unwrap();
    assert_eq!(err.message(), r#"family "F" names unknown language "Y""#);

    let twice = r#"{"families": {"A": {"languages": ["X"]}, "B": {"languages": ["X"]}}}"#;
    let err = Registry::from_json(base, "{}", twice).err().unwrap();
    assert_eq!(err.message(), r#"language "X" is in two families: Some("A") and "B""#);
}

#[test]
fn more_languages_than_ids_are_refused() {
    let mut text = String::from("{\"languages\": {");
    for i in 0..65537 {
        if i > 0 {
            text.push(',');
        }
        text.push_str(&format!("\"L{i}\": {{}}"));
    }
    text.push_str("}}");
    let err = Registry::from_json(&text, "{}", "{}").err().unwrap();
    assert!(matches!(err, RegistryError::TooManyLanguages), "{err:?}");
    assert_eq!(err.message(), "out of range integral type conversion attempted");
}

#[test]
fn more_families_than_ids_are_refused() {
    let mut text = String::from("{\"families\": {");
    for i in 0..65537 {
        if i > 0 {
            text.push(',');
        }
        text.push_str(&format!("\"F{i}\": {{}}"));
    }
    text.push_str("}}");
    let err = Registry::from_json("{}", "{}", &text).err().unwrap();
    assert!(matches!(err, RegistryError::TooManyFamilies), "{err:?}");
}
