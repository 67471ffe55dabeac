//! Rows, and how they are written.

use slopcount::cli::Sort;
use slopcount::json::parse;
use slopcount::render::{
    can_count_lines, can_roll_up, can_total, csv, finish, group_families, json, table, total_row,
    Row, RowKind,
};
use slopcount::report::{SignedCounts, SignedStats};

fn counts(code: i64, comments: i64, blanks: i64) -> SignedCounts {
    SignedCounts {
        code,
        comments,
        blanks,
    }
}

fn row(label: &str, code: i64) -> Row {
    Row::new(
        label.to_string(),
        1,
        SignedStats {
            prod: counts(code, 0, 0),
            test: counts(0, 0, 0),
        },
    )
}

fn member(family: &str, label: &str, code: i64) -> Row {
    Row {
        family: Some(family.to_string()),
        ..row(label, code)
    }
}

fn labels(rows: &[Row]) -> Vec<&str> {
    rows.iter().map(|r| r.label.as_str()).collect()
}

#[test]
fn the_largest_change_comes_first_whichever_way_it_goes() {
    let rows = vec![row("a", 1), row("b", -5), row("c", 3), row("d", 3)];
    assert_eq!(
        labels(&finish(rows, Sort::Code, None)),
        vec!["b", "c", "d", "a"]
    );
}

#[test]
fn rows_can_be_sorted_by_any_column() {
    let wide = |label: &str, prod: SignedCounts, test: SignedCounts| {
        Row::new(label.to_string(), 1, SignedStats { prod, test })
    };
    let rows = || {
        vec![
            wide("code", counts(9, 0, 0), counts(0, 0, 0)),
            wide("comments", counts(0, 8, 0), counts(0, 0, 0)),
            wide("blanks", counts(0, 0, 20), counts(0, 0, 0)),
            wide("test", counts(0, 0, 0), counts(7, 0, 0)),
        ]
    };
    for (sort, first) in [
        (Sort::Code, "code"),
        (Sort::Comments, "comments"),
        (Sort::Blanks, "blanks"),
        (Sort::Test, "test"),
        (Sort::Lines, "blanks"),
        (Sort::Name, "blanks"),
    ] {
        assert_eq!(finish(rows(), sort, Some(1))[0].label, first, "{sort:?}");
    }
}

#[test]
fn families_stand_above_their_rows_in_the_order_of_the_column() {
    let rows = vec![
        member("Web", "HTML", 4),
        member("Systems", "C", 3),
        member("Systems", "Rust", 2),
    ];
    let grouped = group_families(rows, Sort::Code);
    assert_eq!(
        labels(&grouped),
        vec!["Systems", "C", "Rust", "Web", "HTML"]
    );
    assert_eq!(grouped[0].kind, RowKind::Family);
    assert_eq!(grouped[0].stats.prod.code, 5);
    assert_eq!(grouped[0].files, 2);
    assert_eq!(grouped[1].kind, RowKind::Member { last: false });
    assert_eq!(grouped[2].kind, RowKind::Member { last: true });
    // The roll-ups are not added up again.
    assert_eq!(total_row(&grouped).stats.prod.code, 9);
    assert_eq!(total_row(&grouped).files, 3);
}

#[test]
fn families_can_be_ordered_by_name() {
    let rows = vec![member("Web", "HTML", 4), member("Systems", "C", 3)];
    assert_eq!(
        labels(&group_families(rows, Sort::Name)),
        vec!["Systems", "C", "Web", "HTML"]
    );
}

#[test]
fn rows_without_families_stay_as_they_are() {
    let rows = vec![row("b", 1), row("a", 2)];
    assert_eq!(labels(&group_families(rows, Sort::Code)), vec!["b", "a"]);
}

#[test]
fn csv_fields_are_quoted_where_they_have_to_be() {
    let rows = vec![row("a,b", 1), row("say \"hi\"", 2), row("plain", 3)];
    assert_eq!(
        csv("FILE", &rows),
        "\
file,files,impl_code,impl_comments,impl_blanks,test_code,test_comments,test_blanks,total
\"a,b\",1,1,0,0,0,0,0,1
\"say \"\"hi\"\"\",1,2,0,0,0,0,0,2
plain,1,3,0,0,0,0,0,3
TOTAL,3,6,0,0,0,0,0,6
"
    );
}

#[test]
fn a_signed_table_marks_what_was_added() {
    let rows = vec![row("grown", 1234), row("shrunk", -2)];
    let plain = table("head", "FILE", &rows, true, false);
    assert!(plain.starts_with("head\n"), "{plain}");
    assert!(plain.contains("+1,234"), "{plain}");
    assert!(plain.contains("-2"), "{plain}");
    let unsigned = table("head", "FILE", &rows[..1], false, false);
    assert!(unsigned.contains("1,234") && !unsigned.contains('+'), "{unsigned}");
}

#[test]
fn a_coloured_table_is_the_plain_one_between_escapes() {
    let rows = vec![row("grown", 5), row("shrunk", -2)];
    let plain = table("head", "FILE", &rows, true, false);
    let coloured = table("head", "FILE", &rows, true, true);
    assert!(coloured.contains("\x1b[1m"));
    assert!(coloured.contains("\x1b[32m"));
    assert!(coloured.contains("\x1b[31m"));
    let mut stripped = coloured;
    for code in ["\x1b[0m", "\x1b[1m", "\x1b[2m", "\x1b[31m", "\x1b[32m"] {
        stripped = stripped.replace(code, "");
    }
    assert_eq!(stripped, plain);
}

#[test]
fn json_says_what_the_rows_say() {
    let rows = vec![member("Systems", "Rust", -3)];
    let value = json("a → b", "language", &rows, true);
    assert_eq!(value["source"], "a → b");
    assert_eq!(value["dimension"], "language");
    assert_eq!(value["diff"], true);
    assert_eq!(value["rows"][0]["family"], "Systems");
    assert_eq!(value["rows"][0]["impl"]["code"], -3);
    assert_eq!(value["rows"][0]["lines"], -3);
    assert_eq!(value["total"]["label"], "TOTAL");
    assert!(value["total"].get("family").is_none());
}

#[test]
fn large_numbers_are_noticed() {
    assert!(can_total(&[]));
    assert!(can_total(&[row("a", i64::MAX)]));
    assert!(can_total(&[row("a", i64::MAX), row("b", -1), row("c", 1)]));
    assert!(!can_total(&[row("a", i64::MAX), row("b", 1), row("c", -1)]));
    let far = 6_000_000_000_000_000_000;
    let apart = [row("a", -far), row("b", far)];
    assert!(can_total(&apart) && can_roll_up(&apart) && can_count_lines(&apart));
    assert_eq!(total_row(&apart).stats.prod.code, 0);
    assert_eq!(total_row(&apart).files, 2);

    assert!(!can_total(&[row("a", far), row("b", far)]));
    assert!(!can_roll_up(&[member("F", "a", far), member("F", "b", far)]));
    assert!(can_roll_up(&[member("F", "a", far), member("G", "b", far)]));

    let mut both = row("a", i64::MAX);
    assert!(can_count_lines(&[row("a", i64::MAX)]));
    both.stats.test.code = 1;
    assert!(can_total(&[both.clone()]) && !can_count_lines(&[both]));
}

#[test]
fn json_texts_are_read_with_their_keys_in_order() {
    let read = parse(r#"{"b": [1, null, true], "a": "x"}"#).unwrap();
    assert_eq!(
        format!("{read:?}"),
        r#"Table([("a", Text("x")), ("b", List([Number("1"), Null, Bool(true)]))])"#
    );
    assert_eq!(
        parse("{").unwrap_err(),
        "EOF while parsing an object at line 1 column 1"
    );
    assert!(format!("{:?}", read.get("a")).contains("x"));
    assert!(read.get("c").is_none());
}
