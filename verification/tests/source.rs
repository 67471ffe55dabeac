//! Which sources are counted.

use slopcount::cli::Cli;
use slopcount::path_ref::PathRef;
use slopcount::source::{
    baseline, default_branch, default_plan, fallbacks, on_branch, DefaultPlan, Request,
};
use slopcount::vfs::git::{describe, entry, inner_path, merge_base_label, tidy};
use slopcount::vfs::EmptyVfs;

// -- the default branch ------------------------------------------------------

/// The default branch of a repository with these branches, and a remote whose
/// own `HEAD` points at one of them.
fn branch_of(branches: &[&str], origin_head: Option<&str>) -> Option<String> {
    let head = origin_head.map(|branch| format!("refs/remotes/origin/{branch}"));
    let known = fallbacks()
        .iter()
        .map(|name| branches.contains(&name.as_str()))
        .collect();
    default_branch(head.as_deref(), &known)
}

#[test]
fn origin_head_is_authoritative() {
    let found = branch_of(&["main", "origin/main"], Some("main"));
    assert_eq!(found.as_deref(), Some("origin/main"));
}

#[test]
fn origin_head_is_honoured_whatever_the_branch_is_called() {
    let found = branch_of(&["main", "origin/trunk"], Some("trunk"));
    assert_eq!(found.as_deref(), Some("origin/trunk"));
}

#[test]
fn origin_head_beats_the_conventional_names() {
    // Both `origin/main` and `origin/trunk` exist; `origin/HEAD` decides.
    let found = branch_of(&["main", "origin/main", "origin/trunk"], Some("trunk"));
    assert_eq!(found.as_deref(), Some("origin/trunk"));
}

#[test]
fn a_remote_branch_is_preferred_over_a_local_one() {
    let found = branch_of(&["main", "origin/main"], None);
    assert_eq!(found.as_deref(), Some("origin/main"));
}

#[test]
fn a_local_branch_is_the_last_resort() {
    // No remote at all, as in a repository that was never cloned.
    assert_eq!(branch_of(&["main"], None).as_deref(), Some("main"));
}

#[test]
fn master_is_recognised_as_well_as_main() {
    assert_eq!(branch_of(&["master"], None).as_deref(), Some("master"));
}

#[test]
fn there_is_no_default_branch_without_a_conventional_name() {
    assert_eq!(branch_of(&["some-other-name"], None), None);
}

#[test]
fn conventional_branches_are_tried_in_order() {
    assert_eq!(
        fallbacks(),
        vec!["origin/main", "origin/master", "main", "master"]
    );
    let all = ["origin/main", "origin/master", "main", "master"];
    for first in 0..4 {
        assert_eq!(
            branch_of(&all[first..], None).as_deref(),
            Some(all[first])
        );
    }
}

#[test]
fn a_head_that_is_no_remote_branch_is_passed_over() {
    assert_eq!(
        default_branch(Some("refs/heads/odd"), &vec![false, false, true, false]),
        Some("main".to_string())
    );
}

#[test]
fn a_detached_head_is_on_no_branch() {
    assert!(!on_branch(None, "main"));
}

#[test]
fn the_local_branch_counts_as_its_remote_one() {
    // The default branch is named `origin/main`; HEAD is on `main`.
    assert!(on_branch(Some("main"), "origin/main"));
    assert!(on_branch(Some("main"), "main"));
    assert!(!on_branch(Some("main"), "origin/master"));
    // Only `origin` is stripped.
    assert!(!on_branch(Some("main"), "upstream/main"));
}

#[test]
fn another_branch_is_not_the_default_one() {
    assert!(!on_branch(Some("topic"), "origin/main"));
    assert!(on_branch(Some("topic"), "origin/topic"));
}

#[test]
fn without_sources_the_surroundings_decide() {
    let plan = |tree, branch, head, dirty| default_plan(tree, branch, head, dirty);
    assert_eq!(plan(false, Some("main"), Some("main"), true), DefaultPlan::Here);
    assert_eq!(plan(true, None, Some("main"), true), DefaultPlan::NoBranch);
    assert_eq!(
        plan(true, Some("origin/main"), Some("main"), false),
        DefaultPlan::Tree
    );
    let compare = DefaultPlan::Compare("origin/main".to_string());
    assert_eq!(plan(true, Some("origin/main"), Some("main"), true), compare);
    assert_eq!(plan(true, Some("origin/main"), Some("topic"), false), compare);
    assert_eq!(plan(true, Some("origin/main"), None, false), compare);
}

// -- what the arguments ask for ----------------------------------------------

#[test]
fn the_number_of_sources_says_what_is_asked_for() {
    let with = |refs: &[&str]| Cli {
        refs: refs.iter().map(|r| PathRef::parse(r).unwrap()).collect(),
        ..Cli::default()
    };
    assert!(matches!(with(&[]).request(), Request::Default));
    match with(&["git:HEAD"]).request() {
        Request::Single(source) => assert_eq!(source.to_string(), "git:HEAD"),
        other => panic!("{other:?}"),
    }
    match with(&["one", "two"]).request() {
        Request::Change(before, after) => {
            assert_eq!((before.to_string(), after.to_string()), ("one".into(), "two".into()))
        }
        other => panic!("{other:?}"),
    }
}

#[test]
fn paths_are_resolved_against_the_directory_to_run_in() {
    let args = Cli {
        repo: Some("/work".to_string()),
        ..Cli::default()
    };
    assert_eq!(args.fs_root("src"), "/work/src");
    assert_eq!(args.fs_root("/abs"), "/abs");
    assert_eq!(args.base_dir(), "/work");
    assert_eq!(Cli::default().fs_root("src"), "src");
    assert_eq!(Cli::default().base_dir(), ".");
}

#[test]
fn a_missing_side_is_called_what_it_would_have_been() {
    let args = Cli {
        subdir: Some("src/".to_string()),
        repo: Some("base".to_string()),
        ..Cli::default()
    };
    let name = |text: &str| args.absent(&PathRef::parse(text).unwrap()).describe();
    assert_eq!(name("git:v1"), "v1:src (absent)");
    assert_eq!(name("git-merge:a:b"), "merge-base(a, b):src (absent)");
    assert_eq!(name("tree"), "base/tree/src (absent)");
    assert_eq!(
        Cli::default()
            .absent(&PathRef::parse("git:v1").unwrap())
            .describe(),
        "v1 (absent)"
    );
    assert_eq!(args.narrow("root"), "root/src");
    assert_eq!(Cli::default().narrow("root"), "root");
}

// -- git trees ---------------------------------------------------------------

#[test]
fn gix_source_locations_are_stripped_from_messages() {
    assert_eq!(
        tidy("couldn't parse revision: \"x\", at /home/u/.cargo/registry/a/b.rs:496"),
        "couldn't parse revision: \"x\""
    );
    assert_eq!(tidy("a plain message"), "a plain message");
}

#[test]
fn a_tree_is_called_by_its_revision_and_subdirectory() {
    assert_eq!(describe("HEAD", None), "HEAD");
    assert_eq!(describe("HEAD", Some("")), "HEAD");
    assert_eq!(describe("HEAD", Some("src")), "HEAD:src");
    assert_eq!(merge_base_label("main", "topic"), "merge-base(main, topic)");
}

#[test]
fn a_subdirectory_of_a_tree_has_no_slashes_at_its_ends() {
    assert_eq!(inner_path("/src/"), Some("src".to_string()));
    assert_eq!(inner_path("a\\b"), Some("a/b".to_string()));
    assert_eq!(inner_path("/"), None);
    assert_eq!(inner_path(""), None);
}

#[test]
fn only_blobs_are_entries() {
    let file = entry(true, "a.rs", "abc").unwrap();
    assert_eq!(file.path, "a.rs");
    assert_eq!(file.content_id, Some("abc".to_string()));
    assert_eq!(file.size, None);
    assert!(entry(false, "src", "abc").is_none());
}

// -- empty sources -----------------------------------------------------------

#[test]
fn it_lists_nothing() {
    let vfs = EmptyVfs::new("origin/main:src (absent)");
    assert!(vfs.entries().is_empty());
}

#[test]
fn describe_still_says_what_was_looked_for() {
    let vfs = EmptyVfs::new("origin/main:src (absent)");
    assert_eq!(vfs.describe(), "origin/main:src (absent)");
}

#[test]
fn opening_anything_is_an_error() {
    let vfs = EmptyVfs::new("nothing");
    assert_eq!(
        vfs.refusal("a.rs"),
        "nothing is empty, so a.rs cannot be read"
    );
}

#[test]
fn the_baseline_is_where_the_branch_was_left() {
    assert_eq!(
        baseline("origin/main", true),
        PathRef::GitMergeBase("origin/main".to_string(), "HEAD".to_string())
    );
    assert_eq!(
        baseline("origin/main", false),
        PathRef::GitCommitish("origin/main".to_string())
    );
}
