//! Reports and what is added up from them.

use slopcount::data::registry;
use slopcount::lang::Registry;
use slopcount::ordmap::OrdMap;
use slopcount::path::PathKey;
use slopcount::report::{diff_by, Counts, FileReport, LineKind, Report, SignedStats, Stats};

fn languages() -> Registry {
    registry().expect("the definitions are valid")
}

/// What is filed under a name.
fn named<V: Copy>(map: &OrdMap<String, V>, key: &str) -> V {
    *map.get(&key.to_string())
        .unwrap_or_else(|| panic!("nothing under {key:?}"))
}

/// What is filed under a path.
fn at<V: Copy>(map: &OrdMap<PathKey, V>, path: &str) -> V {
    let key = PathKey {
        text: path.to_string(),
    };
    *map.get(&key)
        .unwrap_or_else(|| panic!("nothing under {path:?}"))
}

/// The share of code lines that are tests, as a number.
fn ratio(s: &Stats) -> Option<f64> {
    s.test_ratio().map(|(test, all)| test as f64 / all as f64)
}

fn counts(code: u64, comments: u64, blanks: u64) -> Counts {
    Counts {
        code,
        comments,
        blanks,
    }
}

fn file(path: &str, lang: &str, prod: Counts, test: Counts) -> FileReport {
    FileReport {
        path: path.to_string(),
        language: languages().by_key(lang),
        is_test_file: path.starts_with("tests/"),
        stats: Stats { prod, test },
    }
}

fn sample() -> Report {
    Report {
        files: vec![
            file("src/main.rs", "Rust", counts(10, 2, 3), counts(0, 0, 0)),
            file("src/lib.rs", "Rust", counts(20, 5, 4), counts(7, 1, 0)),
            file("tests/it.rs", "Rust", counts(0, 0, 0), counts(30, 3, 5)),
            file(
                "web/app.ts",
                "TypeScript",
                counts(40, 1, 2),
                counts(0, 0, 0),
            ),
        ],
    }
}

// -- arithmetic ----------------------------------------------------------

#[test]
fn counts_add_componentwise() {
    assert_eq!(counts(1, 2, 3) + counts(10, 20, 30), counts(11, 22, 33));
    assert_eq!(counts(1, 2, 3).lines(), 6);
    assert!(Counts::default().is_empty());
}

#[test]
fn stats_add_both_buckets_independently() {
    let a = Stats {
        prod: counts(1, 0, 0),
        test: counts(0, 2, 0),
    };
    let b = Stats {
        prod: counts(0, 0, 3),
        test: counts(4, 0, 0),
    };
    let sum = a + b;
    assert_eq!(sum.prod, counts(1, 0, 3));
    assert_eq!(sum.test, counts(4, 2, 0));
    assert_eq!(sum.total(), counts(5, 2, 3));
    assert_eq!(sum.lines(), 10);
}

#[test]
fn adding_a_line_lands_in_the_right_bucket() {
    let mut stats = Stats::default();
    stats.record(LineKind::Code, false);
    stats.record(LineKind::Comment, false);
    stats.record(LineKind::Blank, true);
    stats.record(LineKind::Code, true);
    assert_eq!(stats.prod, counts(1, 1, 0));
    assert_eq!(stats.test, counts(1, 0, 1));
}

#[test]
fn test_ratio_ignores_comments_and_blanks() {
    let stats = Stats {
        prod: counts(1, 100, 100),
        test: counts(3, 0, 0),
    };
    assert_eq!(ratio(&stats), Some(0.75));
}

// -- merging -------------------------------------------------------------

#[test]
fn merging_concatenates_files() {
    let a = Report::from_file(file("a.rs", "Rust", counts(1, 0, 0), Counts::default()));
    let b = Report::from_file(file("b.rs", "Rust", counts(2, 0, 0), Counts::default()));
    let merged = Report::merge(a, b);
    assert_eq!(merged.len(), 2);
    assert_eq!(merged.totals().prod, counts(3, 0, 0));
}

#[test]
fn merging_is_associative() {
    let make =
        |n: u64| Report::from_file(file("x.rs", "Rust", counts(n, 0, 0), Counts::default()));
    let left = Report::merge(Report::merge(make(1), make(2)), make(3));
    let right = Report::merge(make(1), Report::merge(make(2), make(3)));
    assert_eq!(left.totals(), right.totals());
}

#[test]
fn merging_with_an_empty_report_changes_nothing() {
    let report = sample();
    let totals = report.totals();
    assert_eq!(Report::merge(report, Report::new()).totals(), totals);
}

#[test]
fn an_empty_report_has_zero_totals() {
    let report = Report::new();
    assert!(report.is_empty());
    assert_eq!(report.totals(), Stats::default());
    assert_eq!(ratio(&report.totals()), None);
}

#[test]
fn extending_absorbs_both_reports_and_files() {
    let mut report = Report::new();
    report.extend(vec![file("a.rs", "Rust", counts(1, 0, 0), Counts::default())]);
    report.absorb(Report::from_file(file(
        "b.rs",
        "Rust",
        counts(2, 0, 0),
        Counts::default(),
    )));
    assert_eq!(report.len(), 2);
    assert_eq!(report.totals().prod.code, 3);
}

#[test]
fn a_stream_of_reports_collects_into_one() {
    let report = Report::collect(
        (1..=3)
            .map(|n| Report::from_file(file("x.rs", "Rust", counts(n, 0, 0), Counts::default())))
            .collect(),
    );
    assert_eq!(report.len(), 3);
    assert_eq!(report.totals().prod.code, 6);
}

#[test]
fn a_stream_of_file_reports_collects_into_one() {
    let mut report = Report::new();
    report.extend(
        (1..=3)
            .map(|n| file("x.rs", "Rust", counts(n, 0, 0), Counts::default()))
            .collect(),
    );
    assert_eq!(report.totals().prod.code, 6);
}

#[test]
fn collecting_reports_merges_them() {
    let report = Report::collect(
        (1..=3)
            .map(|n| Report::from_file(file("x.rs", "Rust", counts(n, 0, 0), Counts::default())))
            .collect(),
    );
    assert_eq!(report.totals().prod.code, 6);
}

// -- aggregation ---------------------------------------------------------

#[test]
fn totals_sum_every_file() {
    let totals = sample().totals();
    assert_eq!(totals.prod, counts(70, 8, 9));
    assert_eq!(totals.test, counts(37, 4, 5));
}

#[test]
fn grouping_by_language_merges_files_of_that_language() {
    let by_language = sample().by_language(&languages());
    assert_eq!(by_language.len(), 2);
    assert_eq!(named(&by_language, "Rust").prod, counts(30, 7, 7));
    assert_eq!(named(&by_language, "Rust").test, counts(37, 4, 5));
    assert_eq!(named(&by_language, "TypeScript").prod, counts(40, 1, 2));
}

#[test]
fn files_of_unknown_language_group_together() {
    let report = Report {
        files: vec![FileReport {
            path: "a.wat".to_string(),
            language: None,
            is_test_file: false,
            stats: Stats::default(),
        }],
    };
    assert_eq!(report.files[0].language_name(&languages()), "Unknown");
    assert!(report.by_language(&languages()).contains(&"Unknown".to_string()));
}

#[test]
fn grouping_by_family_rolls_related_languages_together() {
    let by_family = sample().by_family(&languages());
    // Rust is in Systems; TypeScript is in the JavaScript family.
    assert_eq!(named(&by_family, "Systems").total(), counts(67, 11, 12));
    assert_eq!(named(&by_family, "JavaScript").total(), counts(40, 1, 2));
}

#[test]
fn a_language_no_family_claims_falls_under_other() {
    let report = Report {
        files: vec![FileReport {
            path: "a.wat".to_string(),
            language: None,
            is_test_file: false,
            stats: Stats {
                prod: counts(1, 0, 0),
                test: Counts::default(),
            },
        }],
    };
    assert_eq!(report.files[0].family_name(&languages()), "Other");
    assert_eq!(named(&report.by_family(&languages()), "Other").prod.code, 1);
}

#[test]
fn grouping_by_extension_lowercases_and_falls_back_to_the_filename() {
    let report = Report {
        files: vec![
            file("a.RS", "Rust", counts(1, 0, 0), Counts::default()),
            file("b.rs", "Rust", counts(1, 0, 0), Counts::default()),
            file("Makefile", "Makefile", counts(5, 0, 0), Counts::default()),
        ],
    };
    let by_extension = report.by_extension();
    assert_eq!(named(&by_extension, "rs").prod.code, 2);
    assert_eq!(named(&by_extension, "Makefile").prod.code, 5);
}

#[test]
fn grouping_by_path_keeps_files_separate() {
    let report = sample();
    let by_path = report.by_path();
    assert_eq!(by_path.len(), 4);
    assert_eq!(at(&by_path, "src/main.rs").prod.code, 10);
}

#[test]
fn grouping_by_directory_rolls_up_to_the_requested_depth() {
    let by_dir = sample().by_directory(1);
    assert_eq!(at(&by_dir, "src").total(), counts(37, 8, 7));
    assert_eq!(at(&by_dir, "tests").total(), counts(30, 3, 5));
    assert_eq!(at(&by_dir, "web").total(), counts(40, 1, 2));
}

#[test]
fn a_file_shallower_than_the_grouping_depth_groups_under_its_parent() {
    let report = Report {
        files: vec![file(
            "README.md",
            "Markdown",
            counts(3, 0, 0),
            Counts::default(),
        )],
    };
    let by_dir = report.by_directory(2);
    assert_eq!(at(&by_dir, ".").prod.code, 3);
}

#[test]
fn grouping_by_an_arbitrary_dimension_works() {
    let by_test_file = sample().group_by(|f| f.is_test_file);
    assert_eq!(by_test_file.get(&true).unwrap().test.code, 30);
    assert_eq!(by_test_file.get(&false).unwrap().prod.code, 70);
}

#[test]
fn sorting_by_size_puts_the_biggest_file_first() {
    let mut report = sample();
    report.sort_by_size();
    assert_eq!(report.files[0].path, "web/app.ts");
}

// -- diffing -------------------------------------------------------------

#[test]
fn diffing_reports_the_net_change_per_key() {
    let before = sample().by_language(&languages());
    let mut after_report = sample();
    after_report.files.push(file(
        "web/new.ts",
        "TypeScript",
        counts(5, 0, 0),
        Counts::default(),
    ));
    let diff = diff_by(&before, &after_report.by_language(&languages()));

    // Rust is unchanged, so it drops out entirely.
    assert!(!diff.contains(&"Rust".to_string()));
    assert_eq!(named(&diff, "TypeScript").prod.code, 5);
}

#[test]
fn a_key_that_only_exists_before_reports_a_negative_change() {
    let before = sample().by_language(&languages());
    let after = Report::new().by_language(&languages());
    let diff = diff_by(&before, &after);
    assert_eq!(named(&diff, "TypeScript").prod.code, -40);
    assert_eq!(named(&diff, "Rust").test.code, -37);
}

#[test]
fn diffing_a_report_against_itself_is_empty() {
    let by_language = sample().by_language(&languages());
    assert!(diff_by(&by_language, &by_language).is_empty());
}

#[test]
fn signed_stats_sum_their_buckets() {
    let stats = SignedStats::from(Stats {
        prod: counts(1, 2, 3),
        test: counts(10, 20, 30),
    }) - SignedStats::from(Stats {
        prod: counts(5, 0, 0),
        test: counts(0, 0, 0),
    });
    assert_eq!(stats.prod.code, -4);
    assert_eq!(stats.total().code, 6);
    assert_eq!(stats.lines(), 61);
}

#[test]
fn groups_come_in_the_order_of_their_keys() {
    let by_path = sample().by_path();
    let paths: Vec<&str> = (0..by_path.len())
        .map(|i| by_path.at(i).0.text.as_str())
        .collect();
    assert_eq!(
        paths,
        vec!["src/lib.rs", "src/main.rs", "tests/it.rs", "web/app.ts"]
    );
}

#[test]
fn a_path_is_filed_as_it_was_first_written() {
    let files = |paths: &[&str]| Report {
        files: paths
            .iter()
            .map(|path| FileReport {
                path: path.to_string(),
                language: None,
                is_test_file: false,
                stats: Stats {
                    prod: counts(1, 0, 0),
                    test: counts(0, 0, 0),
                },
            })
            .collect(),
    };
    let by_path = files(&["src//a.rs", "src/a.rs"]).by_path();
    assert_eq!(by_path.len(), 1);
    assert_eq!(by_path.at(0).0.text, "src//a.rs");
    assert_eq!(by_path.at(0).1.prod.code, 2);

    let by_directory = files(&["lib//x/a.rs", "lib/x/b.rs"]).by_directory(9);
    assert_eq!(by_directory.len(), 1);
    assert_eq!(by_directory.at(0).0.text, "lib//x");
    let by_directory = files(&["lib//x/a.rs"]).by_directory(2);
    assert_eq!(by_directory.at(0).0.text, "lib/x");
}

#[test]
fn counts_are_added_up_one_by_one() {
    let mut stats = Stats {
        prod: counts(u64::MAX, u64::MAX, 0),
        test: counts(0, 0, 7),
    };
    assert_eq!(stats.total(), counts(u64::MAX, u64::MAX, 7));
    stats.record(LineKind::Blank, true);
    assert_eq!(stats.test.blanks, 8);
}
