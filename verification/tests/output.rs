//! From a tree of files to what is printed, with the tree held in memory.

use serde_json::Value;

use slopcount::cli::{Cli, Color, Dimension, Format, Sort};
use slopcount::data::registry;
use slopcount::lang::Registry;
use slopcount::listing::{list_families, list_languages};
use slopcount::output::{change_label, show, show_change, TooLarge};
use slopcount::path::strip_prefix;
use slopcount::path_ref::PathRef;
use slopcount::report::{Counts, FileReport, Report, Stats};
use slopcount::vfs::git::{describe, merge_base_label};
use slopcount::vfs::ignore_vfs::ignore_files_among;
use slopcount::vfs::{Entry, IgnoreRules, IgnoreState};
use slopcount::walk::{candidates, changed_paths, collect, count_entry, Globs, WalkConfig};

fn languages() -> Registry {
    registry().expect("the definitions are valid")
}

const LIB_RS: &str = "\
//! Docs.

pub fn add(a: i32, b: i32) -> i32 {
    a + b
}

#[cfg(test)]
mod tests {
    #[test]
    fn it_works() {
        assert!(true);
    }
}
";

/// A tree of files: paths and contents.
type Tree = Vec<(String, String)>;

fn tree(files: &[(&str, &str)]) -> Tree {
    files
        .iter()
        .map(|(path, contents)| (path.to_string(), contents.to_string()))
        .collect()
}

fn contents<'a>(files: &'a Tree, path: &str) -> &'a str {
    &files.iter().find(|(p, _)| p == path).unwrap().1
}

/// The entries of a tree, each identified by its contents.
fn listing(files: &Tree) -> Vec<Entry> {
    files
        .iter()
        .map(|(path, contents)| Entry {
            path: path.clone(),
            size: Some(contents.len() as u64),
            content_id: Some(contents.clone()),
        })
        .collect()
}

/// The entries that the rules leave visible.
fn visible(rules: &IgnoreRules, files: &Tree) -> Vec<Entry> {
    let entries = listing(files);
    let texts = ignore_files_among(rules, &entries)
        .iter()
        .map(|path| contents(files, path).to_string())
        .collect();
    IgnoreState::build(rules, entries, &texts)
        .unwrap()
        .visible(rules)
}

/// The part of a tree below the subdirectory that is asked for.
fn narrowed(args: &Cli, files: &Tree) -> Tree {
    match args.subdir() {
        Some(subdir) => files
            .iter()
            .filter_map(|(path, contents)| {
                strip_prefix(path, &subdir).map(|rest| (rest, contents.clone()))
            })
            .collect(),
        None => files.clone(),
    }
}

fn walk(args: &Cli, registry: &Registry, files: &Tree, config: &WalkConfig) -> Report {
    let globs = Globs::new(args.included.clone(), args.excluded.clone())
        .compile()
        .unwrap();
    let entries = visible(&args.git_rules(), files);
    let results = candidates(entries, &globs, config)
        .into_iter()
        .map(|entry| {
            Ok(count_entry(
                registry,
                config,
                &entry.path,
                contents(files, &entry.path).as_bytes(),
            ))
        })
        .collect();
    let (report, errors) = collect(results);
    assert!(errors.is_empty());
    report
}

/// Counts one tree.
fn run(args: &Cli, source: &str, files: &Tree) -> String {
    let registry = languages();
    let config = args.walk_config(&registry).unwrap();
    let files = narrowed(args, files);
    let report = walk(args, &registry, &files, &config);
    show(args, &registry, &report, source, args.color(false, None)).unwrap()
}

/// Compares two trees.
fn compare(args: &Cli, before: (&str, &Tree), after: (&str, &Tree)) -> String {
    let registry = languages();
    let (old, new) = (narrowed(args, before.1), narrowed(args, after.1));
    let config = WalkConfig {
        only_paths: Some(changed_paths(
            &visible(&args.git_rules(), &old),
            &visible(&args.git_rules(), &new),
        )),
        ..args.walk_config(&registry).unwrap()
    };
    let source = change_label(before.0, after.0);
    let before = walk(args, &registry, &old, &config);
    let after = walk(args, &registry, &new, &config);
    show_change(args, &registry, &before, &after, &source, args.color(false, None)).unwrap()
}

fn json_args() -> Cli {
    Cli {
        format: Format::Json,
        ..Cli::default()
    }
}

fn json_with(args: &Cli, files: &Tree) -> Value {
    serde_json::from_str(&run(args, "tree", files)).expect("valid json")
}

fn json(files: &Tree) -> Value {
    json_with(&json_args(), files)
}

fn json_change(args: &Cli, before: (&str, &Tree), after: (&str, &Tree)) -> Value {
    serde_json::from_str(&compare(args, before, after)).expect("valid json")
}

fn table(files: &Tree) -> String {
    run(&Cli::default(), "tree", files)
}

fn csv(files: &Tree) -> String {
    let args = Cli {
        format: Format::Csv,
        ..Cli::default()
    };
    run(&args, "tree", files)
}

fn row<'a>(value: &'a Value, label: &str) -> &'a Value {
    value["rows"]
        .as_array()
        .unwrap()
        .iter()
        .find(|r| r["label"] == label)
        .unwrap_or_else(|| panic!("no row {label:?} in {value}"))
}

// -- one tree ----------------------------------------------------------------

#[test]
fn counts_a_directory_and_separates_test_code() {
    let out = json(&tree(&[("src/lib.rs", LIB_RS)]));

    let rust = row(&out, "Rust");
    assert_eq!(rust["files"], 1);
    // The `#[cfg(test)]` block, but not the function above it.
    assert_eq!(rust["test"]["code"], 7);
    assert_eq!(rust["impl"]["code"], 3);
    assert_eq!(rust["impl"]["comments"], 1);
    assert_eq!(out["diff"], false);
}

#[test]
fn the_table_output_names_its_columns_and_totals() {
    let table = table(&tree(&[("src/lib.rs", LIB_RS)]));
    for expected in [
        "LANGUAGE", "IMPL", "DOC", "TEST", "TOTAL", "DOC%", "TEST%", "Rust",
    ] {
        assert!(
            table.contains(expected),
            "missing {expected:?} in:\n{table}"
        );
    }
    assert!(table.contains("of code"), "no summary line in:\n{table}");
}

#[test]
fn the_impl_column_excludes_test_lines() {
    let args = Cli {
        color: Color::Never,
        ..Cli::default()
    };
    let table = run(&args, "tree", &tree(&[("src/lib.rs", LIB_RS)]));
    let total = table
        .lines()
        .find(|l| l.starts_with("TOTAL"))
        .unwrap_or_else(|| panic!("no TOTAL row in:\n{table}"));
    let cells: Vec<&str> = total.split_whitespace().skip(1).collect();
    // FILES, IMPL, DOC, TEST: the 3 production code lines, not all 10.
    assert_eq!(&cells[..4], &["1", "3", "1", "7"], "in:\n{table}");
    assert!(
        table.contains("3 implementation · 7 test"),
        "summary does not separate impl from test in:\n{table}"
    );
}

#[test]
fn csv_output_has_a_header_and_a_total_row() {
    let csv = csv(&tree(&[("src/lib.rs", LIB_RS)]));
    let mut lines = csv.lines();
    assert_eq!(
        lines.next().unwrap(),
        "family,language,files,impl_code,impl_comments,impl_blanks,test_code,test_comments,test_blanks,total"
    );
    assert!(csv.lines().any(|l| l.starts_with("Systems,Rust,")));
    assert!(csv.lines().any(|l| l.starts_with(",TOTAL,")));
}

#[test]
fn json_counts_are_disjoint_and_sum_to_the_line_count() {
    let out = json(&tree(&[("src/lib.rs", LIB_RS)]));
    let total = &out["total"];

    let n = |bucket: &str, field: &str| total[bucket][field].as_i64().unwrap();
    let summed: i64 = ["impl", "test"]
        .iter()
        .flat_map(|b| ["code", "comments", "blanks"].map(|f| n(b, f)))
        .sum();
    assert_eq!(summed, total["lines"].as_i64().unwrap(), "in {out}");

    for rolled_up in ["code", "comments", "blanks", "prod"] {
        assert!(
            total.get(rolled_up).is_none(),
            "{rolled_up:?} spans impl and test; it would double-count in {out}"
        );
    }
}

#[test]
fn csv_counts_are_disjoint_and_sum_to_the_total_column() {
    let csv = csv(&tree(&[("src/lib.rs", LIB_RS)]));
    let total = csv
        .lines()
        .find(|l| l.starts_with(",TOTAL,"))
        .unwrap_or_else(|| panic!("no TOTAL row in:\n{csv}"));
    // family, label, files, then the six disjoint cells and the total.
    let cells: Vec<i64> = total
        .split(',')
        .skip(3)
        .map(|c| c.parse().unwrap())
        .collect();
    let (counts, total_cell) = cells.split_at(6);
    assert_eq!(counts.iter().sum::<i64>(), total_cell[0], "in:\n{csv}");
}

#[test]
fn an_empty_directory_reports_zero() {
    let out = json(&tree(&[]));
    assert_eq!(out["total"]["impl"]["code"], 0);
    assert!(out["rows"].as_array().unwrap().is_empty());
}

// -- families ----------------------------------------------------------------

#[test]
fn the_table_groups_languages_under_their_family() {
    let table = table(&tree(&[
        ("src/lib.rs", LIB_RS),
        ("web/app.ts", "export const a = 1;\n"),
        ("web/app.tsx", "export const b = 1;\n"),
    ]));

    for expected in ["LANGUAGE", "JavaScript", "Systems", "├─  ", "└─  "] {
        assert!(
            table.contains(expected),
            "missing {expected:?} in:\n{table}"
        );
    }
    // The family roll-up comes before the languages it covers.
    let family = table.find("JavaScript").unwrap();
    assert!(family < table.find("TypeScript").unwrap());
    assert!(family < table.find("TSX").unwrap());
}

#[test]
fn families_can_be_turned_off() {
    let args = Cli {
        no_families: true,
        ..Cli::default()
    };
    let table = run(&args, "tree", &tree(&[("web/app.ts", "export const a = 1;\n")]));
    assert!(
        !table.contains("├─") && !table.contains("└─"),
        "still grouped:\n{table}"
    );
    assert!(table.contains("TypeScript"));
}

#[test]
fn a_family_row_sums_the_languages_in_it() {
    let files = tree(&[
        ("a.ts", "export const a = 1;\n"),
        ("b.tsx", "export const b = 1;\n"),
        ("c.rs", "fn c() {}\n"),
    ]);
    let args = Cli {
        by: Dimension::Family,
        ..json_args()
    };
    let out = json_with(&args, &files);
    assert_eq!(row(&out, "JavaScript")["impl"]["code"], 2);
    assert_eq!(row(&out, "JavaScript")["files"], 2);
    assert_eq!(row(&out, "Systems")["impl"]["code"], 1);
}

#[test]
fn json_rows_carry_the_family_of_each_language() {
    let out = json(&tree(&[("a.tsx", "export const a = 1;\n")]));
    assert_eq!(row(&out, "TSX")["family"], "JavaScript");
}

#[test]
fn a_language_no_family_claims_lands_in_other() {
    // No family lists Hex0.
    let out = json(&tree(&[("a.hex0", "00\n")]));
    assert_eq!(row(&out, "Hex0")["family"], "Other");
}

#[test]
fn listing_families_names_their_languages() {
    let out = list_families(&languages());
    assert!(out.contains("FAMILY"));
    let line = out
        .lines()
        .find(|l| l.starts_with("JavaScript"))
        .expect("a JavaScript family");
    for language in ["TypeScript", "TSX", "JSX"] {
        assert!(line.contains(language), "missing {language:?} in {line:?}");
    }
}

#[test]
fn color_is_off_unless_asked_for() {
    let files = tree(&[("a.rs", "fn a() {}\n")]);
    // The output is not a terminal here, so `auto` means no escapes.
    assert!(!table(&files).contains('\x1b'));
    let with = |color: Color| Cli {
        color,
        ..Cli::default()
    };
    assert!(run(&with(Color::Always), "tree", &files).contains('\x1b'));
    assert!(!run(&with(Color::Never), "tree", &files).contains('\x1b'));
}

#[test]
fn automatic_color_asks_the_terminal_and_the_environment() {
    let args = Cli::default();
    assert!(args.color(true, None));
    assert!(args.color(true, Some("")));
    assert!(!args.color(true, Some("1")));
    assert!(!args.color(false, None));
}

// -- dimensions and filters --------------------------------------------------

#[test]
fn every_dimension_produces_rows() {
    let files = tree(&[
        ("src/lib.rs", LIB_RS),
        ("web/app.ts", "export const a = 1;\n"),
    ]);
    let by = |by: Dimension| {
        json_with(
            &Cli {
                by,
                ..json_args()
            },
            &files,
        )
    };
    assert!(row(&by(Dimension::Language), "Rust")["impl"]["code"].is_number());
    assert!(row(&by(Dimension::Extension), "rs")["impl"]["code"].is_number());
    assert!(row(&by(Dimension::Directory), "src")["impl"]["code"].is_number());

    let by_file = json_with(
        &Cli {
            files: true,
            ..json_args()
        },
        &files,
    );
    assert!(row(&by_file, "src/lib.rs")["impl"]["code"].is_number());
}

#[test]
fn a_language_filter_restricts_the_report() {
    let args = Cli {
        language: vec!["rust".to_string()],
        ..json_args()
    };
    let out = json_with(&args, &tree(&[("a.rs", "fn a() {}\n"), ("b.py", "x = 1\n")]));
    assert_eq!(out["rows"].as_array().unwrap().len(), 1);
    assert_eq!(out["rows"][0]["label"], "Rust");
}

#[test]
fn include_and_exclude_globs_apply() {
    let files = tree(&[
        ("keep.rs", "fn a() {}\n"),
        ("vendor/skip.rs", "fn b() {}\n"),
    ]);

    let excluded = json_with(
        &Cli {
            excluded: vec!["vendor/".to_string()],
            ..json_args()
        },
        &files,
    );
    assert_eq!(excluded["total"]["impl"]["code"], 1);

    let included = json_with(
        &Cli {
            included: vec!["vendor/".to_string()],
            ..json_args()
        },
        &files,
    );
    assert_eq!(included["total"]["impl"]["code"], 1);
    assert_eq!(row(&included, "Rust")["files"], 1);
}

#[test]
fn top_limits_the_number_of_rows() {
    let args = Cli {
        top: Some(2),
        ..json_args()
    };
    let out = json_with(
        &args,
        &tree(&[
            ("a.rs", "fn a() {}\n"),
            ("b.py", "x = 1\n"),
            ("c.ts", "const a = 1;\n"),
        ]),
    );
    assert_eq!(out["rows"].as_array().unwrap().len(), 2);
}

#[test]
fn sorting_by_name_orders_rows_alphabetically() {
    let args = Cli {
        sort: Sort::Name,
        ..json_args()
    };
    let out = json_with(&args, &tree(&[("a.rs", "fn a() {}\n"), ("b.py", "x = 1\n")]));
    let labels: Vec<&str> = out["rows"]
        .as_array()
        .unwrap()
        .iter()
        .map(|r| r["label"].as_str().unwrap())
        .collect();
    assert_eq!(labels, ["Python", "Rust"]);
}

#[test]
fn test_block_detection_can_be_disabled() {
    let args = Cli {
        no_test_blocks: true,
        ..json_args()
    };
    let out = json_with(&args, &tree(&[("src/lib.rs", LIB_RS)]));
    assert_eq!(row(&out, "Rust")["test"]["code"], 0);
}

#[test]
fn an_unknown_language_fails_with_a_message() {
    let args = Cli {
        language: vec!["rust".to_string(), "nosuchlang".to_string()],
        ..Cli::default()
    };
    assert_eq!(
        args.walk_config(&languages()).err(),
        Some("nosuchlang".to_string())
    );
}

#[test]
fn listing_languages_shows_which_ones_detect_tests() {
    let out = list_languages(&languages());
    assert!(out.contains("LANGUAGE"));
    assert!(out.contains("Rust"));
    assert!(out.lines().count() > 300);
    assert_eq!(out.lines().count(), languages().languages().len() + 1);
    let rust = out.lines().find(|l| l.starts_with("Rust ")).unwrap();
    assert!(rust.ends_with("  yes    rs"), "{rust:?}");
    let json = out.lines().find(|l| l.starts_with("JSON ")).unwrap();
    assert!(json.ends_with("  -      json"), "{json:?}");
}

// -- revisions ---------------------------------------------------------------

#[test]
fn counts_a_single_git_revision() {
    let out: Value =
        serde_json::from_str(&run(&json_args(), "HEAD", &tree(&[("src/lib.rs", LIB_RS)])))
            .unwrap();
    assert_eq!(out["source"], "HEAD");
    assert_eq!(row(&out, "Rust")["test"]["code"], 7);
}

#[test]
fn a_revision_sees_the_tree_as_it_was() {
    let before = tree(&[("a.rs", "fn a() {}\n")]);
    let after = tree(&[("a.rs", "fn a() {}\nfn b() {}\nfn c() {}\n")]);
    assert_eq!(json(&before)["total"]["impl"]["code"], 1);
    assert_eq!(json(&after)["total"]["impl"]["code"], 3);
}

#[test]
fn a_range_reports_the_net_change() {
    let before = tree(&[("src/lib.rs", "pub fn a() {}\n")]);
    let after = tree(&[(
        "src/lib.rs",
        "pub fn a() {}\npub fn b() {}\n\n#[cfg(test)]\nmod t {\n    #[test]\n    fn x() {}\n}\n",
    )]);
    let out = json_change(&json_args(), ("HEAD~1", &before), ("HEAD", &after));
    assert_eq!(out["diff"], true);
    let rust = row(&out, "Rust");
    // One production line added, and the whole five-line test block.
    assert_eq!(rust["impl"]["code"], 1);
    assert_eq!(rust["test"]["code"], 5);
    // The file existed before and after, so the file count does not move.
    assert_eq!(rust["files"], 0);
}

#[test]
fn a_range_reports_deletions_as_negative() {
    let before = tree(&[("a.rs", "fn a() {}\nfn b() {}\nfn c() {}\n")]);
    let after = tree(&[("a.rs", "fn a() {}\n")]);
    let out = json_change(&json_args(), ("HEAD~1", &before), ("HEAD", &after));
    assert_eq!(out["total"]["impl"]["code"], -2);
}

#[test]
fn a_deleted_file_shows_as_a_negative_file_count() {
    let before = tree(&[("a.rs", "fn a() {}\n"), ("b.rs", "fn b() {}\n")]);
    let after = tree(&[("a.rs", "fn a() {}\n")]);
    let out = json_change(&json_args(), ("HEAD~1", &before), ("HEAD", &after));
    assert_eq!(row(&out, "Rust")["files"], -1);
}

#[test]
fn an_unchanged_range_reports_nothing() {
    let files = tree(&[("a.rs", "fn a() {}\n")]);
    let out = json_change(&json_args(), ("HEAD~1", &files), ("HEAD", &files));
    assert!(out["rows"].as_array().unwrap().is_empty());
    assert_eq!(out["total"]["impl"]["code"], 0);
}

#[test]
fn a_git_tree_can_be_narrowed_with_an_include_glob() {
    let args = Cli {
        included: vec!["src/".to_string()],
        ..json_args()
    };
    let files = tree(&[
        ("src/a.rs", "fn a() {}\n"),
        ("other/b.rs", "fn b() {}\nfn c() {}\n"),
    ]);
    assert_eq!(json_with(&args, &files)["total"]["impl"]["code"], 1);
}

#[test]
fn a_git_tree_honours_a_committed_slopcountignore() {
    let files = tree(&[
        ("a.rs", "fn a() {}\n"),
        ("generated/b.rs", "fn b() {}\nfn c() {}\n"),
        (".slopcountignore", "generated/\n"),
    ]);
    assert_eq!(json(&files)["total"]["impl"]["code"], 1);
    // ...unless the rules are switched off, which also reveals the dotfile.
    let args = Cli {
        no_ignore: true,
        hidden: true,
        ..json_args()
    };
    assert_eq!(json_with(&args, &files)["total"]["impl"]["code"], 3);
}

#[test]
fn a_git_tree_still_counts_files_that_gitignore_would_exclude() {
    // git tracks it despite `.gitignore`, so it was committed on purpose.
    let files = tree(&[(".gitignore", "tracked.rs\n"), ("tracked.rs", "fn a() {}\n")]);
    assert_eq!(json(&files)["total"]["impl"]["code"], 1);
}

#[test]
fn a_git_tree_hides_dotfiles_like_a_directory_walk_does() {
    let files = tree(&[("a.rs", "fn a() {}\n"), (".config/b.rs", "fn b() {}\n")]);
    assert_eq!(json(&files)["total"]["impl"]["code"], 1);
    let args = Cli {
        hidden: true,
        ..json_args()
    };
    assert_eq!(json_with(&args, &files)["total"]["impl"]["code"], 2);
}

// -- two sources -------------------------------------------------------------

#[test]
fn two_directories_are_compared() {
    let before = tree(&[("src/lib.rs", "fn a() {}\nfn b() {}\n")]);
    let after = tree(&[
        ("src/lib.rs", "fn a() {}\n"),
        ("src/extra.rs", "fn c() {}\nfn d() {}\n"),
    ]);
    let out = json_change(&json_args(), ("one", &before), ("two", &after));
    assert_eq!(out["diff"], true);
    assert_eq!(out["total"]["impl"]["code"], 1);
    assert_eq!(out["total"]["files"], 1);
}

#[test]
fn two_revisions_of_different_branches_are_compared() {
    let before = tree(&[("a.rs", "fn a() {}\n")]);
    let after = tree(&[(
        "a.rs",
        "fn a() {}\n\n#[cfg(test)]\nmod t {\n    #[test]\n    fn x() {}\n}\n",
    )]);
    let out = json_change(&json_args(), ("main", &before), ("topic", &after));
    assert_eq!(out["source"], "main → topic");
    // Everything the topic branch added was tests.
    assert_eq!(row(&out, "Rust")["test"]["code"], 5);
    assert_eq!(row(&out, "Rust")["impl"]["code"], 0);
}

// -- merge bases -------------------------------------------------------------

/// `main` and `topic` share one commit, then both move on: main by two lines,
/// topic by one. The trees of the shared commit, of main and of topic.
fn diverged() -> (Tree, Tree, Tree) {
    (
        tree(&[("a.rs", "fn a() {}\n")]),
        tree(&[("a.rs", "fn a() {}\nfn c() {}\nfn d() {}\n")]),
        tree(&[("a.rs", "fn a() {}\nfn b() {}\n")]),
    )
}

#[test]
fn a_merge_base_ignores_what_landed_on_the_other_branch() {
    let (shared, main, topic) = diverged();
    let label = merge_base_label("main", "topic");
    let out = json_change(&json_args(), (&label, &shared), ("topic", &topic));
    // The one line the topic branch added; main's two are not in the diff.
    assert_eq!(out["total"]["impl"]["code"], 1);
    let out = json_change(&json_args(), ("main", &main), ("topic", &topic));
    assert_eq!(out["total"]["impl"]["code"], -1);
}

#[test]
fn a_merge_base_is_named_by_its_two_sides() {
    let (shared, _, topic) = diverged();
    let label = merge_base_label("main", "topic");
    let out = json_change(&json_args(), (&label, &shared), ("topic", &topic));
    assert_eq!(out["source"], "merge-base(main, topic) → topic");
}

#[test]
fn a_merge_base_can_be_counted_on_its_own() {
    let (shared, _, _) = diverged();
    let label = merge_base_label("main", "topic");
    let out: Value = serde_json::from_str(&run(&json_args(), &label, &shared)).unwrap();
    assert_eq!(out["source"], "merge-base(main, topic)");
    assert_eq!(out["total"]["impl"]["code"], 1);
}

// -- subdirectories ----------------------------------------------------------

fn in_subdir(subdir: &str) -> Cli {
    Cli {
        subdir: Some(subdir.to_string()),
        ..json_args()
    }
}

#[test]
fn in_narrows_a_single_source() {
    let files = tree(&[
        ("src/a.rs", "fn a() {}\n"),
        ("other/b.rs", "fn b() {}\nfn c() {}\n"),
    ]);
    assert_eq!(json(&files)["total"]["impl"]["code"], 3);
    assert_eq!(
        json_with(&in_subdir("src"), &files)["total"]["impl"]["code"],
        1
    );
}

#[test]
fn in_narrows_both_sides_of_a_directory_comparison() {
    let before = tree(&[
        ("src/lib.rs", "fn a() {}\n"),
        ("noise/x.rs", "fn x() {}\nfn y() {}\n"),
    ]);
    let after = tree(&[
        ("src/lib.rs", "fn a() {}\nfn b() {}\n"),
        // Changes outside `src` must not show up at all.
        ("noise/x.rs", "fn x() {}\nfn y() {}\nfn z() {}\nfn w() {}\n"),
    ]);
    let out = json_change(&in_subdir("src"), ("one", &before), ("two", &after));
    assert_eq!(out["total"]["impl"]["code"], 1);
}

#[test]
fn in_narrows_both_sides_of_a_git_comparison() {
    let before = tree(&[("src/lib.rs", "fn a() {}\n"), ("docs/x.md", "hello\n")]);
    let after = tree(&[
        (
            "src/lib.rs",
            "fn a() {}\n\n#[cfg(test)]\nmod t {\n    #[test]\n    fn x() {}\n}\n",
        ),
        ("docs/x.md", "hello\nthere\nagain\n"),
    ]);
    let args = in_subdir("src");
    let subdir = args.subdir();
    let (one, two) = (
        describe("HEAD~1", subdir.as_deref()),
        describe("HEAD", subdir.as_deref()),
    );
    let out = json_change(&args, (&one, &before), (&two, &after));
    assert_eq!(out["source"], "HEAD~1:src → HEAD:src");
    // The docs change is outside `--in`, so it is not counted.
    assert_eq!(row(&out, "Rust")["test"]["code"], 5);
    assert!(out["rows"].as_array().unwrap().len() == 1);
}

#[test]
fn in_rebases_paths_so_the_two_sides_line_up() {
    let args = Cli {
        files: true,
        ..in_subdir("src")
    };
    let before = tree(&[("src/lib.rs", "fn a() {}\n")]);
    let after = tree(&[("src/lib.rs", "fn a() {}\nfn b() {}\n")]);
    let out = json_change(&args, ("HEAD~1", &before), ("HEAD", &after));
    // Relative to the subdirectory, not to the root.
    assert_eq!(out["rows"][0]["label"], "lib.rs");
    // The same file on both sides, so it is one net change, not an add plus a
    // delete -- which is what proves the rebasing lines the sides up.
    assert_eq!(out["rows"][0]["files"], 0);
    assert_eq!(out["rows"][0]["impl"]["code"], 1);
}

#[test]
fn in_can_name_a_nested_directory() {
    let files = tree(&[
        ("a/b/c.rs", "fn c() {}\n"),
        ("a/other.rs", "fn o() {}\nfn p() {}\n"),
    ]);
    assert_eq!(
        json_with(&in_subdir("a/b"), &files)["total"]["impl"]["code"],
        1
    );
}

#[test]
fn in_tolerates_a_trailing_slash() {
    let files = tree(&[("src/a.rs", "fn a() {}\n"), ("b.rs", "fn b() {}\n")]);
    for spelling in ["src", "src/", "./src"] {
        assert_eq!(
            json_with(&in_subdir(spelling), &files)["total"]["impl"]["code"],
            1,
            "{spelling:?}"
        );
    }
}

#[test]
fn a_subdirectory_present_on_only_one_side_counts_as_added() {
    let before = PathRef::parse("git:HEAD~1").unwrap();
    let after = PathRef::parse("git:HEAD").unwrap();
    let args = in_subdir("fresh");
    let (stand_in, none) = args.pair(&before, &after, (false, true)).unwrap();
    assert!(none.is_none());
    let absent = stand_in.unwrap().describe();
    assert_eq!(absent, "HEAD~1:fresh (absent)");

    let files = tree(&[
        ("a.rs", "fn a() {}\n"),
        ("fresh/b.rs", "fn b() {}\nfn c() {}\n"),
    ]);
    let out = json_change(&args, (&absent, &tree(&[])), ("HEAD:fresh", &files));
    assert_eq!(out["total"]["impl"]["code"], 2);
    assert_eq!(out["total"]["files"], 1);
    assert!(
        out["source"].as_str().unwrap().contains("(absent)"),
        "the missing side should say so: {}",
        out["source"]
    );
}

#[test]
fn a_subdirectory_removed_between_the_sides_counts_as_deleted() {
    let files = tree(&[("gone/b.rs", "fn b() {}\nfn c() {}\n")]);
    let after = tree(&[("a.rs", "fn a() {}\n")]);
    let out = json_change(&in_subdir("gone"), ("HEAD~1:gone", &files), ("HEAD", &after));
    assert_eq!(out["total"]["impl"]["code"], -2);
    assert_eq!(out["total"]["files"], -1);
}

#[test]
fn a_subdirectory_missing_from_both_sides_is_an_error() {
    // Almost always a typo, so it should not silently report zero.
    let before = PathRef::parse("git:HEAD~1").unwrap();
    let after = PathRef::parse("git:HEAD").unwrap();
    let message = in_subdir("scr")
        .pair(&before, &after, (false, false))
        .err()
        .unwrap();
    assert_eq!(message, "scr does not exist in git:HEAD~1 or in git:HEAD");
}

#[test]
fn a_subdirectory_missing_from_a_single_source_is_an_error() {
    let source = PathRef::parse("project").unwrap();
    assert_eq!(
        in_subdir("scr").require(&source, false),
        Err("scr does not exist in project".to_string())
    );
    assert_eq!(in_subdir("scr").require(&source, true), Ok(()));
}

// -- only changes are counted ------------------------------------------------

#[test]
fn counting_only_changes_gives_the_whole_change() {
    let registry = languages();
    let args = json_args();
    let before = tree(&[
        ("same.rs", "fn a() {}\n// c\n"),
        ("edited.rs", "fn a() {}\n"),
        ("gone.py", "x = 1\n"),
    ]);
    let after = tree(&[
        ("same.rs", "fn a() {}\n// c\n"),
        ("edited.rs", "fn a() {}\n\nfn b() {}\n"),
        ("new.md", "text\n"),
    ]);
    let config = args.walk_config(&registry).unwrap();
    let whole = show_change(
        &args,
        &registry,
        &walk(&args, &registry, &before, &config),
        &walk(&args, &registry, &after, &config),
        "one → two",
        false,
    );
    assert_eq!(whole.unwrap(), compare(&args, ("one", &before), ("two", &after)));
}

// -- exact output ------------------------------------------------------------

#[test]
fn a_table_looks_like_this() {
    let files = tree(&[
        ("a.yaml", "a: 1\nb: 2\n"),
        ("b.json", "{}\n"),
        ("c.js", "let a;\n"),
        ("d.ts", "let a;\n"),
        ("e.tsx", "let a;\n"),
        ("f.rs", "// c\nfn f() {}\n"),
        ("g.md", "# T\n\ntext\n"),
    ]);
    assert_eq!(
        run(&Cli::default(), "web-app", &files),
        "\
slopcount  web-app
──────────────────────────────────────────────────────────
LANGUAGE        FILES  IMPL  DOC  TEST  TOTAL  DOC%  TEST%
──────────────────────────────────────────────────────────
Configuration       2     3    0     0      3    0%     0%
├─  YAML            1     2    0     0      2    0%     0%
└─  JSON            1     1    0     0      1    0%     0%
JavaScript          3     3    0     0      3    0%     0%
├─  JavaScript      1     1    0     0      1    0%     0%
├─  TSX             1     1    0     0      1    0%     0%
└─  TypeScript      1     1    0     0      1    0%     0%
Systems             1     1    1     0      2   50%     0%
└─  Rust            1     1    1     0      2   50%     0%
Documentation       1     0    2     0      3   67%      —
└─  Markdown        1     0    2     0      3   67%      —
──────────────────────────────────────────────────────────
TOTAL               7     7    3     0     11   27%     0%
──────────────────────────────────────────────────────────
11 lines counted: 7 implementation · 0 test (0% of code) · 3 documentation (27% of all lines)
"
    );
}

#[test]
fn csv_looks_like_this() {
    let args = Cli {
        format: Format::Csv,
        files: true,
        ..Cli::default()
    };
    assert_eq!(
        run(&args, "tree", &tree(&[("src/lib.rs", LIB_RS)])),
        "\
file,files,impl_code,impl_comments,impl_blanks,test_code,test_comments,test_blanks,total
src/lib.rs,1,3,1,2,7,0,0,13
TOTAL,1,3,1,2,7,0,0,13
"
    );
}

#[test]
fn json_looks_like_this() {
    let args = Cli {
        by: Dimension::Extension,
        ..json_args()
    };
    assert_eq!(
        run(&args, "tree", &tree(&[("a.rs", "fn a() {}\n")])),
        r#"{
  "diff": false,
  "dimension": "extension",
  "rows": [
    {
      "files": 1,
      "impl": {
        "blanks": 0,
        "code": 1,
        "comments": 0
      },
      "label": "rs",
      "lines": 1,
      "test": {
        "blanks": 0,
        "code": 0,
        "comments": 0
      }
    }
  ],
  "source": "tree",
  "total": {
    "files": 1,
    "impl": {
      "blanks": 0,
      "code": 1,
      "comments": 0
    },
    "label": "TOTAL",
    "lines": 1,
    "test": {
      "blanks": 0,
      "code": 0,
      "comments": 0
    }
  }
}
"#
    );
}

#[test]
fn a_change_is_headed_as_such() {
    let before = tree(&[("a.rs", "fn a() {}\n")]);
    let after = tree(&[("a.rs", "fn a() {}\nfn b() {}\n")]);
    let out = compare(&Cli::default(), ("one", &before), ("two", &after));
    assert!(out.starts_with("slopcount  one → two  (net change)\n"), "{out}");
    assert!(out.contains("+1"), "{out}");
}

#[test]
fn numbers_that_cannot_be_added_up_are_refused() {
    let registry = languages();
    let file = |code: u64| FileReport {
        path: "a.rs".to_string(),
        language: registry.by_key("Rust"),
        is_test_file: false,
        stats: Stats {
            prod: Counts {
                code,
                ..Counts::default()
            },
            test: Counts::default(),
        },
    };
    let args = Cli::default();
    let huge = Report::from_file(file(u64::MAX));
    assert_eq!(show(&args, &registry, &huge, "x", false), Err(TooLarge));
    assert_eq!(
        show_change(&args, &registry, &huge, &Report::new(), "x", false),
        Err(TooLarge)
    );
    // Only what is added up has to be in range.
    let edge = Report::from_file(file(i64::MAX as u64));
    assert!(show(&args, &registry, &edge, "x", false).is_ok());
    let twice = Report::merge(edge, Report::from_file(file(1)));
    assert_eq!(show(&args, &registry, &twice, "x", false), Err(TooLarge));
}
