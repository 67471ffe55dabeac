//! Which files are counted, with the files held in memory.

use std::collections::BTreeSet;

use slopcount::data::registry;
use slopcount::globs::GlobFault;
use slopcount::lang::Registry;
use slopcount::report::{Counts, FileReport, Report};
use slopcount::vfs::{DirVfs, Entry, IgnoreConfig};
use slopcount::walk::{
    build, candidates, changed_paths, collect, count_entry, plan, report_on, shebang_of,
    wants_shebang, Globs, PathSet, WalkConfig, WalkError, CONCURRENCY, MAX_FILE_SIZE, PEEK,
};

fn languages() -> Registry {
    registry().expect("the definitions are valid")
}

type Tree = Vec<(String, Vec<u8>)>;

fn tree(files: &[(&str, &str)]) -> Tree {
    files
        .iter()
        .map(|(path, contents)| (path.to_string(), contents.as_bytes().to_vec()))
        .collect()
}

fn run(files: &Tree, globs: &Globs, config: &WalkConfig) -> Report {
    let registry = languages();
    let globs = globs.compile().unwrap();
    let entries = files
        .iter()
        .map(|(path, bytes)| Entry {
            path: path.clone(),
            size: Some(bytes.len() as u64),
            content_id: None,
        })
        .collect();
    let results = candidates(entries, &globs, config)
        .iter()
        .map(|entry| {
            let bytes = &files.iter().find(|(path, _)| *path == entry.path).unwrap().1;
            Ok(count_entry(&registry, config, &entry.path, bytes))
        })
        .collect();
    let (report, errors) = collect(results);
    assert!(errors.is_empty());
    report
}

fn counted(report: &Report) -> BTreeSet<String> {
    report.files.iter().map(|f| f.path.clone()).collect()
}

fn set(items: &[&str]) -> BTreeSet<String> {
    items.iter().map(|s| s.to_string()).collect()
}

// -- the happy path ----------------------------------------------------------

#[test]
fn counts_every_recognised_file() {
    let dir = tree(&[("a.rs", "fn a() {}\n// c\n\n"), ("b.py", "x = 1\n# c\n")]);
    let report = run(&dir, &Globs::default(), &WalkConfig::default());
    assert_eq!(counted(&report), set(&["a.rs", "b.py"]));
    assert_eq!(
        report.totals().prod,
        Counts {
            code: 2,
            comments: 2,
            blanks: 1,
        }
    );
}

#[test]
fn language_and_test_flags_are_attached_to_each_file() {
    let dir = tree(&[("src/a.rs", "fn a() {}\n"), ("tests/it.rs", "fn t() {}\n")]);
    let report = run(&dir, &Globs::default(), &WalkConfig::default());

    let file = |name: &str| report.files.iter().find(|f| f.path == name).unwrap();
    assert_eq!(file("src/a.rs").language, languages().by_key("Rust"));
    assert!(!file("src/a.rs").is_test_file);
    assert!(file("tests/it.rs").is_test_file);
    assert_eq!(file("tests/it.rs").stats.test.code, 1);
}

#[test]
fn an_empty_tree_gives_an_empty_report() {
    let report = run(&tree(&[]), &Globs::default(), &WalkConfig::default());
    assert!(report.is_empty());
}

#[test]
fn counting_many_files_concurrently_is_complete() {
    let files: Vec<(String, Vec<u8>)> = (0..200)
        .map(|i| (format!("f{i}.rs"), b"fn a() {}\n".to_vec()))
        .collect();
    let report = run(&files, &Globs::default(), &WalkConfig::default());
    assert_eq!(report.len(), 200);
    assert_eq!(report.totals().prod.code, 200);
}

// -- filtering ---------------------------------------------------------------

#[test]
fn unknown_languages_are_skipped_unless_asked_for() {
    let dir = tree(&[("a.rs", "fn a() {}\n"), ("b.zzzznope", "line\n")]);

    let default = run(&dir, &Globs::default(), &WalkConfig::default());
    assert_eq!(counted(&default), set(&["a.rs"]));

    let config = WalkConfig {
        include_unknown: true,
        ..WalkConfig::default()
    };
    let with_unknown = run(&dir, &Globs::default(), &config);
    assert_eq!(counted(&with_unknown), set(&["a.rs", "b.zzzznope"]));
}

#[test]
fn an_include_glob_restricts_the_walk() {
    let dir = tree(&[("a.rs", "x\n"), ("b.py", "x\n"), ("src/c.rs", "x\n")]);

    let only_rust = Globs::new(vec!["*.rs".into()], vec![]);
    let report = run(&dir, &only_rust, &WalkConfig::default());
    assert_eq!(counted(&report), set(&["a.rs", "src/c.rs"]));
}

#[test]
fn an_include_glob_with_a_slash_is_anchored_at_the_root() {
    let dir = tree(&[
        ("a.rs", "x\n"),
        ("src/c.rs", "x\n"),
        ("deep/src/d.rs", "x\n"),
    ]);
    let report = run(
        &dir,
        &Globs::new(vec!["src/*.rs".into()], vec![]),
        &WalkConfig::default(),
    );
    assert_eq!(counted(&report), set(&["src/c.rs"]));
}

#[test]
fn a_trailing_slash_means_everything_under_that_directory() {
    let dir = tree(&[
        ("a.rs", "x\n"),
        ("src/c.rs", "x\n"),
        ("src/deep/d.rs", "x\n"),
    ]);
    let report = run(
        &dir,
        &Globs::new(vec!["src/".into()], vec![]),
        &WalkConfig::default(),
    );
    assert_eq!(counted(&report), set(&["src/c.rs", "src/deep/d.rs"]));
}

#[test]
fn an_exclude_glob_wins_over_an_include() {
    let dir = tree(&[("a.rs", "x\n"), ("vendor/b.rs", "x\n")]);
    let globs = Globs::new(vec!["*.rs".into()], vec!["vendor/".into()]);
    let report = run(&dir, &globs, &WalkConfig::default());
    assert_eq!(counted(&report), set(&["a.rs"]));
}

#[test]
fn a_language_filter_keeps_only_that_language() {
    let dir = tree(&[("a.rs", "x\n"), ("b.py", "x\n")]);
    let config = WalkConfig {
        languages: Some(vec![languages().by_key("Rust").unwrap()]),
        ..WalkConfig::default()
    };
    let report = run(&dir, &Globs::default(), &config);
    assert_eq!(counted(&report), set(&["a.rs"]));
}

#[test]
fn a_language_filter_excludes_unknown_files() {
    let dir = tree(&[("a.rs", "x\n"), ("b.zzzznope", "x\n")]);
    let config = WalkConfig {
        languages: Some(vec![languages().by_key("Rust").unwrap()]),
        include_unknown: true,
        ..WalkConfig::default()
    };
    let report = run(&dir, &Globs::default(), &config);
    assert_eq!(counted(&report), set(&["a.rs"]));
}

#[test]
fn oversized_files_are_skipped() {
    let big = format!("fn a() {{}}\n{}", "// pad\n".repeat(2000));
    let dir = tree(&[("small.rs", "fn a() {}\n"), ("big.rs", big.as_str())]);
    let config = WalkConfig {
        max_file_size: Some(100),
        ..WalkConfig::default()
    };
    let report = run(&dir, &Globs::default(), &config);
    assert_eq!(counted(&report), set(&["small.rs"]));
}

#[test]
fn the_size_limit_can_be_lifted() {
    let dir = tree(&[("big.rs", "fn a() {}\n")]);
    let config = WalkConfig {
        max_file_size: None,
        ..WalkConfig::default()
    };
    assert_eq!(run(&dir, &Globs::default(), &config).len(), 1);
}

#[test]
fn binary_files_are_skipped() {
    let dir = tree(&[("a.rs", "fn a() {}\n"), ("b.rs", "\x00\x01\x02binary\n")]);
    let report = run(&dir, &Globs::default(), &WalkConfig::default());
    assert_eq!(counted(&report), set(&["a.rs"]));
}

#[test]
fn only_paths_restricts_the_walk() {
    let dir = tree(&[("a.rs", "fn a() {}\n"), ("b.rs", "fn b() {}\n")]);
    let config = WalkConfig {
        only_paths: Some(PathSet::of(&vec!["a.rs".to_string()])),
        ..WalkConfig::default()
    };
    let report = run(&dir, &Globs::default(), &config);
    assert_eq!(counted(&report), set(&["a.rs"]));
}

#[test]
fn an_invalid_glob_is_an_error() {
    let globs = Globs::new(vec!["[".into()], vec![]);
    match globs.compile() {
        Err(GlobFault::Pattern { pattern, .. }) => assert_eq!(pattern, "["),
        _ => panic!("an invalid glob should not compile"),
    }
    let fault = build(&vec!["ok".to_string(), "x[".to_string()]).err().unwrap();
    assert_eq!(
        fault.message(),
        "error parsing glob 'x[': unclosed character class; missing ']'"
    );
    assert!(build(&vec!["  ".to_string(), " *.rs ".to_string()]).is_ok());
}

#[test]
fn the_defaults_are_sensible() {
    let config = WalkConfig::default();
    assert_eq!(config.max_file_size, Some(2 * 1024 * 1024));
    assert_eq!(MAX_FILE_SIZE, 2 * 1024 * 1024);
    assert_eq!(config.concurrency, 64);
    assert_eq!(CONCURRENCY, 64);
    assert!(config.use_shebangs);
    assert!(config.only_paths.is_none());
}

// -- shebangs ----------------------------------------------------------------

#[test]
fn extension_less_scripts_are_identified_by_their_shebang() {
    let dir = tree(&[("script", "#!/usr/bin/env python3\n# c\nx = 1\n")]);
    let report = run(&dir, &Globs::default(), &WalkConfig::default());
    assert_eq!(counted(&report), set(&["script"]));
    assert_eq!(report.files[0].language, languages().by_key("Python"));
    assert_eq!(report.files[0].stats.prod.comments, 2);
}

#[test]
fn shebang_detection_can_be_switched_off() {
    let dir = tree(&[("script", "#!/usr/bin/env python3\nx = 1\n")]);
    let config = WalkConfig {
        use_shebangs: false,
        ..WalkConfig::default()
    };
    assert!(run(&dir, &Globs::default(), &config).is_empty());
}

#[test]
fn an_extension_less_file_without_a_shebang_stays_unknown() {
    let dir = tree(&[("NOTES", "just text\n")]);
    assert!(run(&dir, &Globs::default(), &WalkConfig::default()).is_empty());
}

#[test]
fn only_the_start_of_a_file_is_searched_for_a_shebang() {
    let registry = languages();
    let python = registry.by_key("Python");
    assert_eq!(shebang_of(&registry, b"#!/usr/bin/env python3"), python);
    assert_eq!(shebang_of(&registry, b"#!/usr/bin/env python3\n\xff"), python);
    assert_eq!(shebang_of(&registry, b"\n#!/usr/bin/env python3\n"), None);
    assert_eq!(shebang_of(&registry, b"#!/bin/\xff\xfe\n"), None);
    // The interpreter is cut off where the head of the file ends.
    let long = format!("#!/{}/python3\n", "x".repeat(PEEK));
    assert_eq!(shebang_of(&registry, long.as_bytes()), None);
}

#[test]
fn a_plan_follows_the_name_before_the_first_line() {
    let registry = languages();
    let config = WalkConfig::default();
    let python = registry.by_key("Python");
    assert!(wants_shebang(&registry, &config, "bin/tool"));
    assert!(!wants_shebang(&registry, &config, "tool.zzzznope"));
    assert!(!wants_shebang(&registry, &config, "main.rs"));

    let job = plan(&registry, &config, "main.rs", python).unwrap();
    assert_eq!(job.language, registry.by_key("Rust"));
    let job = plan(&registry, &config, "tests/tool", python).unwrap();
    assert_eq!(job.language, python);
    assert!(job.is_test_file);
    assert!(plan(&registry, &config, "tool", None).is_none());

    let file = report_on(&registry, &config, "tests/tool", job, b"x = 1\n").unwrap();
    assert_eq!(file.stats.test.code, 1);
}

// -- bringing the counts together --------------------------------------------

#[test]
fn failures_are_kept_apart_from_files() {
    let registry = languages();
    let config = WalkConfig::default();
    let file = |path: &str| -> Option<FileReport> {
        count_entry(&registry, &config, path, b"fn a() {}\n")
    };
    let results = vec![
        Ok(file("b.rs")),
        Err(WalkError {
            path: "c.rs".to_string(),
            error: "unreadable".to_string(),
        }),
        Ok(file("NOTES")),
        Ok(file("a.rs")),
    ];
    let (report, errors) = collect(results);
    let paths: Vec<&str> = report.files.iter().map(|f| f.path.as_str()).collect();
    assert_eq!(paths, vec!["b.rs", "a.rs"]);
    assert_eq!(errors.len(), 1);
    assert_eq!(errors[0].path, "c.rs");
    assert_eq!(errors[0].error, "unreadable");
}

// -- change detection --------------------------------------------------------

fn identified(path: &str, id: &str) -> Entry {
    Entry {
        path: path.to_string(),
        size: None,
        content_id: Some(id.into()),
    }
}

#[test]
fn identical_listings_have_no_changes() {
    let entries = vec![identified("a.rs", "aaa"), identified("b.rs", "bbb")];
    assert!(changed_paths(&entries, &entries).is_empty());
}

#[test]
fn added_modified_and_deleted_paths_are_all_changes() {
    let before = vec![
        identified("same.rs", "aaa"),
        identified("edited.rs", "bbb"),
        identified("deleted.rs", "ccc"),
    ];
    let after = vec![
        identified("same.rs", "aaa"),
        identified("edited.rs", "BBB"),
        identified("added.rs", "ddd"),
    ];
    let changed = changed_paths(&before, &after);
    let paths: BTreeSet<String> = changed.paths().into_iter().collect();
    assert_eq!(paths, set(&["edited.rs", "deleted.rs", "added.rs"]));
}

#[test]
fn a_source_without_content_ids_reports_everything_as_changed() {
    let before = vec![Entry::new("a.rs")];
    let after = vec![Entry::new("a.rs")];
    assert_eq!(changed_paths(&before, &after).len(), 1);
}

#[test]
fn a_path_is_the_same_however_it_is_written() {
    let set = PathSet::new().with("a//b/./c").with("x").with("a/b/c");
    assert_eq!(set.len(), 2);
    assert!(set.contains("a/b/c/"));
    assert!(!set.contains("./a/b/c"));
    assert!(!set.is_empty());
    assert!(PathSet::new().is_empty());
    assert_eq!(set.clone().paths(), set.paths());
}

// -- directories -------------------------------------------------------------

#[test]
fn a_directory_shows_its_regular_files() {
    let vfs = DirVfs::new("/data/project", IgnoreConfig::default());
    assert_eq!(vfs.root(), "/data/project");
    assert_eq!(vfs.describe(), "/data/project");
    let found = vfs.entry("/data/project/src/a.rs", true, Some(3)).unwrap();
    assert_eq!(found.path, "src/a.rs");
    assert_eq!(found.size, Some(3));
    assert_eq!(found.content_id, None);
    assert!(vfs.entry("/data/project/src", false, None).is_none());
    assert!(vfs.entry("/elsewhere/a.rs", true, None).is_none());
    assert_eq!(vfs.location("src/a.rs"), "/data/project/src/a.rs");
}

#[test]
fn the_options_of_a_walk_follow_the_configuration() {
    let options = DirVfs::new(".", IgnoreConfig::default()).options();
    assert!(options.skip_hidden && options.git_rules && options.ignore_rules);
    assert!(!options.follow_links);
    assert_eq!(options.custom_names, vec![".slopcountignore"]);
    assert_eq!(
        options.overrides,
        vec!["!.git", "!.hg", "!.svn", "!.jj"]
    );

    let mut config = IgnoreConfig::none();
    config.custom_ignore_files = vec!["ignored".to_string()];
    config.skip_vcs_dirs = false;
    let options = DirVfs::new(".", config).options();
    assert!(!options.skip_hidden && !options.git_rules && !options.ignore_rules);
    assert!(options.custom_names.is_empty());
    assert!(options.overrides.is_empty());
}

#[test]
fn version_control_is_left_out_at_any_depth() {
    let vfs = DirVfs::new("/data/project", IgnoreConfig::none());
    for path in [
        ".git/config",
        "sub/.git/config",
        "sub/deep/.git/objects/ab/cd",
        "sub/.hg/store",
        "sub/.svn/entries",
        "sub/.jj/repo",
        // A regular file, as in a worktree or a submodule.
        "sub/.git",
    ] {
        let found = format!("/data/project/{path}");
        assert!(vfs.entry(&found, true, None).is_none(), "{path}");
    }
    for path in [".gitignore", "sub/.github/ci.yml", "git/a.rs", "a.git"] {
        let found = format!("/data/project/{path}");
        assert_eq!(vfs.entry(&found, true, None).unwrap().path, path);
    }

    let mut config = IgnoreConfig::none();
    config.skip_vcs_dirs = false;
    let vfs = DirVfs::new("/data/project", config);
    assert!(vfs.entry("/data/project/sub/.git/config", true, None).is_some());

    // What stands above the root does not matter.
    let vfs = DirVfs::new("/data/.git/modules", IgnoreConfig::none());
    let found = vfs.entry("/data/.git/modules/a.rs", true, None).unwrap();
    assert_eq!(found.path, "a.rs");
}
