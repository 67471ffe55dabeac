//! How sources are named.

use slopcount::path_ref::PathRef;

fn parse(s: &str) -> Result<PathRef, String> {
    s.parse()
}

fn git(revision: &str) -> PathRef {
    PathRef::GitCommitish(revision.to_string())
}

fn merge(one: &str, two: &str) -> PathRef {
    PathRef::GitMergeBase(one.to_string(), two.to_string())
}

fn fs(path: &str) -> PathRef {
    PathRef::Fs(path.to_string())
}

#[test]
fn a_bare_word_is_a_filesystem_path() {
    assert_eq!(parse("."), Ok(fs(".")));
    assert_eq!(parse("./*"), Ok(fs("./*")));
    assert_eq!(parse("src"), Ok(fs("src")));
    assert_eq!(parse("../other/project"), Ok(fs("../other/project")));
    assert_eq!(parse("/abs/path"), Ok(fs("/abs/path")));
}

#[test]
fn a_git_prefix_is_a_revision() {
    assert_eq!(parse("git:fefefefe"), Ok(git("fefefefe")));
    assert_eq!(parse("git:origin/main"), Ok(git("origin/main")));
    assert_eq!(parse("git:HEAD~2"), Ok(git("HEAD~2")));
    assert_eq!(parse("git:v1.0"), Ok(git("v1.0")));
}

#[test]
fn the_prefix_is_only_stripped_once() {
    // A branch really named `git:thing` would be written `git:git:thing`.
    assert_eq!(parse("git:git:thing"), Ok(git("git:thing")));
}

#[test]
fn a_path_that_merely_contains_the_prefix_is_still_a_path() {
    assert_eq!(parse("a/git:b"), Ok(fs("a/git:b")));
    assert_eq!(parse("mygit:thing"), Ok(fs("mygit:thing")));
    assert_eq!(parse("a/git-merge:b:c"), Ok(fs("a/git-merge:b:c")));
}

#[test]
fn a_git_merge_prefix_is_a_pair_of_revisions() {
    assert_eq!(
        parse("git-merge:origin/main:HEAD"),
        Ok(merge("origin/main", "HEAD"))
    );
    assert_eq!(parse("git-merge:main:topic"), Ok(merge("main", "topic")));
    assert_eq!(parse("git-merge:HEAD~2:v1.0"), Ok(merge("HEAD~2", "v1.0")));
}

#[test]
fn a_merge_base_splits_on_its_first_colon() {
    // Git forbids `:` in ref names, so anything after the second one
    // belongs to the right-hand revision.
    assert_eq!(parse("git-merge:a:b:c"), Ok(merge("a", "b:c")));
}

#[test]
fn a_merge_base_needs_both_sides() {
    for text in [
        "git-merge:",
        "git-merge:main",
        "git-merge::main",
        "git-merge:main:",
    ] {
        let err = parse(text).unwrap_err();
        assert!(
            err.contains("git-merge:origin/main:HEAD"),
            "unhelpful error for {text:?}: {err}"
        );
    }
}

#[test]
fn an_empty_revision_is_rejected() {
    let err = parse("git:").unwrap_err();
    assert!(err.contains("git:origin/main"), "unhelpful error: {err}");
}

#[test]
fn an_empty_argument_is_rejected() {
    assert!(parse("").is_err());
}

#[test]
fn display_round_trips_through_parsing() {
    for text in [
        ".",
        "src/deep",
        "git:origin/main",
        "git:HEAD~2",
        "git-merge:origin/main:HEAD",
    ] {
        let parsed = parse(text).unwrap();
        assert_eq!(parsed.to_string(), text);
        assert_eq!(parse(&parsed.to_string()), Ok(parsed));
    }
}

#[test]
fn here_is_the_current_directory() {
    assert_eq!(PathRef::here(), fs("."));
}

#[test]
fn a_parsed_source_is_the_same_through_the_parsing_function() {
    assert_eq!(PathRef::parse("git:v1.0"), Ok(git("v1.0")));
    assert_eq!(PathRef::parse("src"), Ok(fs("src")));
    assert_eq!(PathRef::parse("git:HEAD").unwrap().copy(), git("HEAD"));
}

#[test]
fn an_empty_git_revision_is_rejected() {
    assert_eq!(
        PathRef::parse("git:"),
        Err("`git:` needs a revision after it, such as `git:origin/main`".to_string())
    );
}

#[test]
fn a_merge_base_with_one_revision_is_rejected() {
    assert_eq!(
        PathRef::parse("git-merge:main"),
        Err(
            "`git-merge:` needs two revisions separated by `:`, \
             such as `git-merge:origin/main:HEAD`"
                .to_string()
        )
    );
    assert_eq!(
        PathRef::parse(""),
        Err("expected a path or a `git:` revision".to_string())
    );
}

#[test]
fn a_bare_word_is_treated_as_a_path_not_a_revision() {
    assert_eq!(PathRef::parse("main"), Ok(fs("main")));
    assert_eq!(PathRef::parse("git:main"), Ok(git("main")));
}
