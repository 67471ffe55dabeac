//! Paths, numbers, texts and maps.

use slopcount::numbers::{decimal_of, number_text, render_share};
use slopcount::ordmap::OrdMap;
use slopcount::path::{
    directory_of, extension_of, file_name_of, join, parent_of, strip_prefix, PathKey,
};
use slopcount::text::{
    cut_before, has_char, lower, replace, split_at_each, split_words, trim_end_of, trim_of,
    trim_start_of, CharClass,
};

#[test]
fn names_and_extensions_come_from_the_last_part() {
    assert_eq!(file_name_of("a/b.rs"), Some("b.rs".to_string()));
    assert_eq!(file_name_of("a/b/"), Some("b".to_string()));
    assert_eq!(file_name_of("a/.."), None);
    assert_eq!(file_name_of("/"), None);
    assert_eq!(extension_of("a/b.tar.gz"), Some("gz".to_string()));
    assert_eq!(extension_of(".bashrc"), None);
    assert_eq!(extension_of("a."), Some(String::new()));
    assert_eq!(extension_of("a.b/c"), None);
}

#[test]
fn parents_and_directories() {
    assert_eq!(parent_of("a/b/c.rs"), "a/b");
    assert_eq!(parent_of("a"), "");
    assert_eq!(parent_of("/a"), "/");
    assert_eq!(directory_of("a/b/c.rs", 1), "a");
    assert_eq!(directory_of("a/b/c.rs", 9), "a/b");
    assert_eq!(directory_of("c.rs", 1), ".");
    assert_eq!(directory_of("a/b", 0), ".");
}

#[test]
fn paths_below_other_paths() {
    assert_eq!(strip_prefix("a/b/c", "a"), Some("b/c".to_string()));
    assert_eq!(strip_prefix("a/b/c", ""), Some("a/b/c".to_string()));
    assert_eq!(strip_prefix("a//b/./c", "a/"), Some("b/c".to_string()));
    assert_eq!(strip_prefix("a/b", "a/b"), Some(String::new()));
    assert_eq!(strip_prefix("ab/c", "a"), None);
    assert_eq!(strip_prefix("a", "a/b"), None);
    assert_eq!(strip_prefix("/a", ""), Some("/a".to_string()));
    assert_eq!(strip_prefix("/a/b", "/"), Some("a/b".to_string()));
}

#[test]
fn joining_paths() {
    assert_eq!(join("a", "b"), "a/b");
    assert_eq!(join("a/", "b"), "a/b");
    assert_eq!(join("", "b"), "b");
    assert_eq!(join("a", "/b"), "/b");
    assert_eq!(join("a", ""), "a/");
}

#[test]
fn texts_are_cut_and_changed() {
    assert_eq!(cut_before("one, at /x, at /y", ", at /"), "one");
    assert_eq!(cut_before("one", "zz"), "one");
    assert_eq!(trim_of("  a b\u{a0}\n", CharClass::Space), "a b");
    assert_eq!(trim_start_of("//a/", CharClass::Only('/')), "a/");
    assert_eq!(trim_end_of("/a//", CharClass::Only('/')), "/a");
    assert_eq!(replace("a\\b\\c", '\\', '/'), "a/b/c");
    assert!(has_char("a/b", '/'));
    assert!(!has_char("", '/'));
    assert_eq!(lower("AbÇ"), "abÇ");
    assert_eq!(split_at_each("a//b", '/'), vec!["a", "", "b"]);
    assert_eq!(split_words("  a\tb \n"), vec!["a", "b"]);
}

#[test]
fn numbers_are_grouped_and_signed() {
    assert_eq!(decimal_of(0), "0");
    assert_eq!(decimal_of(-12), "-12");
    assert_eq!(number_text(1234567, false), "1,234,567");
    assert_eq!(number_text(999, false), "999");
    assert_eq!(number_text(-1234, false), "-1,234");
    assert_eq!(number_text(5, true), "+5");
    assert_eq!(number_text(0, true), "0");
}

#[test]
fn shares_are_rounded() {
    assert_eq!(render_share(1, 3), "33%");
    assert_eq!(render_share(2, 3), "67%");
    assert_eq!(render_share(1, 8), "12%");
    assert_eq!(render_share(3, 8), "38%");
    assert_eq!(render_share(0, 0), "—");
}

#[test]
fn a_map_keeps_its_keys_in_order() {
    let mut map: OrdMap<String, u32> = OrdMap::new();
    for (key, value) in [("b", 1), ("a", 2), ("c", 3), ("a", 4)] {
        map.insert(key.to_string(), value);
    }
    assert_eq!(map.len(), 3);
    assert_eq!(map.get(&"a".to_string()), Some(&4));
    assert!(!map.contains(&"d".to_string()));
    let keys: Vec<String> = map.into_entries().into_iter().map(|e| e.0).collect();
    assert_eq!(keys, vec!["a", "b", "c"]);
}

#[test]
fn paths_are_ordered_part_by_part() {
    let mut map: OrdMap<PathKey, ()> = OrdMap::new();
    for path in ["a-b", "a/b", "a", "/a", "../a"] {
        map.insert(
            PathKey {
                text: path.to_string(),
            },
            (),
        );
    }
    let order: Vec<String> = map.into_entries().into_iter().map(|e| e.0.text).collect();
    assert_eq!(order, vec!["/a", "../a", "a", "a/b", "a-b"]);
}
