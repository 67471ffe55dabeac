//! Hiding what ignore files exclude.

use std::collections::BTreeSet;

use slopcount::gitignore::{lines_of, RulesFault};
use slopcount::vfs::ignore_vfs::{ignore_files_among, IgnoreFault, Listing, Matcher};
use slopcount::vfs::{Entry, IgnoreRules, IgnoreState, Mask};

/// Files held in memory, masked by the rules.
fn masked(files: &[(&str, &str)], rules: &IgnoreRules) -> Result<IgnoreState, IgnoreFault> {
    let entries: Vec<Entry> = files.iter().map(|(path, _)| Entry::new(path)).collect();
    let texts = ignore_files_among(rules, &entries)
        .iter()
        .map(|wanted| files.iter().find(|(path, _)| path == wanted).unwrap().1.to_string())
        .collect();
    IgnoreState::build(rules, entries, &texts)
}

fn visible(files: &[(&str, &str)], rules: IgnoreRules) -> BTreeSet<String> {
    masked(files, &rules)
        .expect("the ignore files are valid")
        .visible(&rules)
        .into_iter()
        .map(|entry| entry.path)
        .collect()
}

fn set(items: &[&str]) -> BTreeSet<String> {
    items.iter().map(|s| s.to_string()).collect()
}

/// The default rules, but keeping dotfiles, so tests can see the ignore
/// files themselves and assert on the gitignore logic in isolation.
fn rules_showing_hidden() -> IgnoreRules {
    IgnoreRules {
        include_hidden: true,
        ..IgnoreRules::default()
    }
}

// -- pass-through --------------------------------------------------------

#[test]
fn a_tree_with_no_ignore_files_is_unchanged() {
    let files = [("a.rs", ""), ("src/b.rs", "")];
    assert_eq!(
        visible(&files, IgnoreRules::default()),
        set(&["a.rs", "src/b.rs"])
    );
}

// -- gitignore semantics -------------------------------------------------

#[test]
fn a_root_ignore_file_hides_matching_paths() {
    let files = [
        (".gitignore", "target/\n*.log\n"),
        ("a.rs", ""),
        ("target/b.rs", ""),
        ("target/deep/c.rs", ""),
        ("d.log", ""),
    ];
    assert_eq!(
        visible(&files, rules_showing_hidden()),
        set(&[".gitignore", "a.rs"])
    );
}

#[test]
fn a_directory_rule_hides_everything_beneath_it() {
    let files = [
        (".gitignore", "vendor\n"),
        ("vendor/a/b/c.rs", ""),
        ("keep.rs", ""),
    ];
    assert_eq!(
        visible(&files, rules_showing_hidden()),
        set(&[".gitignore", "keep.rs"])
    );
}

#[test]
fn a_nested_ignore_file_only_governs_its_own_subtree() {
    let files = [
        ("sub/.gitignore", "*.rs\n"),
        ("a.rs", ""),
        ("sub/b.rs", ""),
        ("sub/deep/c.rs", ""),
        ("sub/d.txt", ""),
    ];
    assert_eq!(
        visible(&files, rules_showing_hidden()),
        set(&["a.rs", "sub/.gitignore", "sub/d.txt"])
    );
}

#[test]
fn a_nested_negation_overrides_a_parent_rule() {
    let files = [
        (".gitignore", "*.rs\n"),
        ("sub/.gitignore", "!keep.rs\n"),
        ("a.rs", ""),
        ("sub/keep.rs", ""),
        ("sub/other.rs", ""),
    ];
    assert_eq!(
        visible(&files, rules_showing_hidden()),
        set(&[".gitignore", "sub/.gitignore", "sub/keep.rs"])
    );
}

#[test]
fn a_later_line_wins_within_one_ignore_file() {
    let files = [
        (".gitignore", "*.rs\n!keep.rs\n"),
        ("keep.rs", ""),
        ("drop.rs", ""),
    ];
    assert_eq!(
        visible(&files, rules_showing_hidden()),
        set(&[".gitignore", "keep.rs"])
    );
}

#[test]
fn comments_and_blank_lines_in_an_ignore_file_are_ignored() {
    let files = [
        (".gitignore", "# a comment\n\n*.log\n"),
        ("a.rs", ""),
        ("b.log", ""),
    ];
    assert_eq!(
        visible(&files, rules_showing_hidden()),
        set(&[".gitignore", "a.rs"])
    );
}

#[test]
fn every_configured_ignore_file_name_is_read() {
    let files = [
        (".gitignore", "a.rs\n"),
        (".ignore", "b.rs\n"),
        (".slopcountignore", "c.rs\n"),
        ("a.rs", ""),
        ("b.rs", ""),
        ("c.rs", ""),
        ("d.rs", ""),
    ];
    assert_eq!(
        visible(&files, rules_showing_hidden()),
        set(&[".gitignore", ".ignore", ".slopcountignore", "d.rs"])
    );
}

#[test]
fn git_tree_rules_skip_gitignore_but_honour_the_others() {
    // A file git tracks despite `.gitignore` was committed on purpose.
    let files = [
        (".gitignore", "tracked.rs\n"),
        (".slopcountignore", "generated.rs\n"),
        ("tracked.rs", ""),
        ("generated.rs", ""),
    ];
    let rules = IgnoreRules {
        include_hidden: true,
        ..IgnoreRules::for_git_tree()
    };
    assert_eq!(
        visible(&files, rules),
        set(&[".gitignore", ".slopcountignore", "tracked.rs"])
    );
}

// -- hidden and VCS directories ------------------------------------------

#[test]
fn hidden_files_are_masked_by_default() {
    let files = [("a.rs", ""), (".hidden/b.rs", ""), (".dotfile", "")];
    assert_eq!(
        visible(&files, IgnoreRules::default()),
        set(&["a.rs"])
    );
    assert_eq!(
        visible(&files, rules_showing_hidden()),
        set(&["a.rs", ".hidden/b.rs", ".dotfile"])
    );
}

#[test]
fn vcs_directories_are_masked_even_when_hidden_files_are_shown() {
    let files = [("a.rs", ""), (".git/config", ""), (".hg/store", "")];
    assert_eq!(
        visible(&files, rules_showing_hidden()),
        set(&["a.rs"])
    );
}

#[test]
fn rules_that_hide_nothing_pass_everything_through() {
    let files = [
        (".gitignore", "*.rs\n"),
        ("a.rs", ""),
        (".git/config", ""),
        (".hidden", ""),
    ];
    assert_eq!(
        visible(&files, IgnoreRules::none()),
        set(&[".gitignore", "a.rs", ".git/config", ".hidden"])
    );
}

// -- single paths ------------------------------------------------------------

#[test]
fn opening_an_ignored_file_is_an_error() {
    let rules = rules_showing_hidden();
    let state = masked(&[(".gitignore", "secret.rs\n"), ("secret.rs", "x")], &rules).unwrap();
    assert!(state.is_ignored(&rules, "secret.rs"));
    assert!(!state.is_ignored(&rules, ".gitignore"));
    let err = state.refusal(&rules, "secret.rs").expect("an ignored file should not open");
    assert!(err.contains("ignored"), "got: {err}");
    assert_eq!(err, "secret.rs is ignored");
    assert_eq!(state.refusal(&rules, ".gitignore"), None);
}

#[test]
fn opening_a_hidden_file_is_an_error() {
    let rules = IgnoreRules::default();
    let state = masked(&[(".env", "SECRET=1")], &rules).unwrap();
    assert!(state.is_ignored(&rules, ".env"));
    assert_eq!(state.refusal(&rules, ".env").unwrap(), ".env is ignored");
}

#[test]
fn open_delegates_for_a_visible_file() {
    let rules = IgnoreRules::default();
    let state = masked(&[("a.rs", "contents")], &rules).unwrap();
    assert!(!state.is_ignored(&rules, "a.rs"));
    assert!(state.refusal(&rules, "a.rs").is_none());
}

#[test]
fn a_file_opens_exactly_where_it_is_listed() {
    let files = [
        (".gitignore", "*.log\n!keep.log\n"),
        ("a.rs", ""),
        ("b.log", ""),
        ("keep.log", ""),
        ("sub/.git/config", ""),
        (".hidden/c.rs", ""),
    ];
    for rules in [
        IgnoreRules::default(),
        rules_showing_hidden(),
        IgnoreRules::for_git_tree(),
    ] {
        let state = masked(&files, &rules).unwrap();
        let listed: BTreeSet<String> = state
            .visible(&rules)
            .into_iter()
            .map(|entry| entry.path)
            .collect();
        for (path, _) in files {
            assert_eq!(
                state.refusal(&rules, path).is_none(),
                listed.contains(path),
                "{path}"
            );
        }
    }
}

#[test]
fn the_wrapped_source_is_listed_once_for_all_calls() {
    let files = [(".gitignore", "b.rs\n"), ("a.rs", "x"), ("b.rs", "y")];
    let mut mask = Mask::new(rules_showing_hidden());
    let mut lists = 0;
    // List, list again, then open.
    for _ in 0..3 {
        if mask.wants_listing() {
            lists += 1;
            let state = masked(&files, mask.rules()).unwrap();
            mask.learn(state);
        }
    }
    assert_eq!(lists, 1);
    let shown = match mask.list() {
        Listing::Shown(entries) => entries,
        Listing::Wrapped => panic!("something is hidden"),
    };
    let paths: Vec<String> = shown.into_iter().map(|entry| entry.path).collect();
    assert_eq!(paths, vec![".gitignore", "a.rs"]);
    assert_eq!(mask.refusal("a.rs"), None);
    assert_eq!(mask.refusal("b.rs").unwrap(), "b.rs is ignored");
}

#[test]
fn rules_that_hide_nothing_leave_every_call_to_the_wrapped_source() {
    let mask = Mask::new(IgnoreRules::none());
    assert!(!mask.wants_listing());
    assert!(matches!(mask.list(), Listing::Wrapped));
    assert_eq!(mask.refusal(".git/config"), None);
}

#[test]
fn ignore_files_can_be_taken_one_at_a_time() {
    let rules = rules_showing_hidden();
    let entries = vec![
        Entry::new(".gitignore"),
        Entry::new("sub/.gitignore"),
        Entry::new("a.log"),
        Entry::new("sub/a.log"),
    ];
    let matchers = vec![
        Matcher::read(".gitignore", "*.log\n").unwrap(),
        Matcher::read("sub/.gitignore", "!a.log\n").unwrap(),
    ];
    let state = IgnoreState::new(entries, matchers);
    assert!(state.is_ignored(&rules, "a.log"));
    // The deeper file is asked first.
    assert!(!state.is_ignored(&rules, "sub/a.log"));

    let fault = Matcher::read("sub/.gitignore", "a{b\n").err().unwrap();
    assert_eq!(fault.path, "sub/.gitignore");
    assert!(matches!(fault.fault, RulesFault::Line(_)));
}

#[test]
fn rooted_and_relative_paths_are_matched_alike() {
    let rules = rules_showing_hidden();
    let state = masked(&[(".gitignore", "*.log\n")], &rules).unwrap();
    for path in ["a.log", "./a.log", "/a.log", "//x//a.log", "../a.log"] {
        assert!(state.is_ignored(&rules, path), "{path}");
    }
    assert!(!state.is_ignored(&rules, "."));
    assert!(!state.is_ignored(&rules, ""));
}

// -- composition -------------------------------------------------------------

#[test]
fn wrappers_compose() {
    let inner_rules = rules_showing_hidden();
    let files = [
        (".slopcountignore", "generated.rs\n"),
        ("a.rs", ""),
        ("generated.rs", ""),
        ("b.log", ""),
    ];
    let inner = masked(&files, &inner_rules).unwrap().visible(&inner_rules);
    let outer_rules = IgnoreRules {
        ignore_files: vec![".slopcountignore".to_string()],
        include_hidden: false,
        skip_vcs_dirs: true,
    };
    let texts = vec!["generated.rs\n".to_string()];
    let outer = IgnoreState::build(&outer_rules, inner, &texts).unwrap();
    // The inner rules drop `generated.rs`; the outer ones drop the dotfile they
    // used to do so.
    let paths: BTreeSet<String> = outer
        .visible(&outer_rules)
        .into_iter()
        .map(|entry| entry.path)
        .collect();
    assert_eq!(paths, set(&["a.rs", "b.log"]));
}

#[test]
fn hiding_twice_hides_no_more() {
    let rules = rules_showing_hidden();
    let files = [(".gitignore", "*.log\n"), ("a.rs", ""), ("b.log", "")];
    let once = masked(&files, &rules).unwrap().visible(&rules);
    let texts = vec!["*.log\n".to_string()];
    let twice = IgnoreState::build(&rules, once.clone(), &texts)
        .unwrap()
        .visible(&rules);
    assert_eq!(once, twice);
}

// -- errors ------------------------------------------------------------------

#[test]
fn a_malformed_ignore_file_is_reported_with_its_path() {
    let err = masked(&[("sub/.gitignore", "a{b\n")], &rules_showing_hidden())
        .err()
        .unwrap();
    assert!(matches!(err.fault, RulesFault::Line(_)));
    assert!(
        err.message().contains("sub/.gitignore"),
        "unhelpful error: {err:?}"
    );
    assert!(err.message().starts_with("in sub/.gitignore: "));
}

// -- rules -------------------------------------------------------------------

#[test]
fn only_rules_that_hide_nothing_are_without_effect() {
    assert!(IgnoreRules::none().is_noop());
    assert!(!IgnoreRules::default().is_noop());
    assert!(!IgnoreRules::for_git_tree().is_noop());
    assert_eq!(
        IgnoreRules::for_git_tree().ignore_files,
        vec![".ignore", ".slopcountignore"]
    );
}

#[test]
fn lines_end_with_a_feed_and_may_have_a_return_before_it() {
    assert_eq!(lines_of("a\r\nb\n\nc\r"), vec!["a", "b", "", "c\r"]);
    assert_eq!(lines_of("a\n"), vec!["a"]);
    assert!(lines_of("").is_empty());
}
