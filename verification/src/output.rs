//! From counted files to what is printed.

use vstd::prelude::*;

use crate::cli;
use crate::cli::{Cli, Format, Sort};
use crate::json;
use crate::lang::Registry;
use crate::order;
use crate::render;
use crate::render::{Row, RowModel};
use crate::report;
use crate::report::Report;
use crate::text;

verus! {

/// The rows as a format takes them: a table has the family roll-ups among them.
pub open spec fn arranged(rows: Seq<RowModel>, format: Format, sort: Sort) -> Seq<RowModel> {
    match format {
        Format::Table => render::with_families(rows, sort),
        _ => rows,
    }
}

/// Puts the rows into the form that a format takes.
pub fn arrange(rows: Vec<Row>, format: Format, sort: Sort) -> (r: Vec<Row>)
    requires
        format == Format::Table ==> render::families_fit(render::row_views(rows@)),
    ensures
        render::row_views(r@) == arranged(render::row_views(rows@), format, sort),
{
    match format {
        Format::Table => render::group_families(rows, sort),
        _ => rows,
    }
}

/// What stands above a table.
pub open spec fn header(source: Seq<char>, diff: bool) -> Seq<char> {
    if diff {
        "slopcount  "@ + source + "  (net change)"@
    } else {
        "slopcount  "@ + source
    }
}

/// What is printed.
pub open spec fn output_text(
    format: Format,
    source: Seq<char>,
    heading: Seq<char>,
    rows: Seq<RowModel>,
    diff: bool,
    color: bool,
) -> Seq<char> {
    match format {
        Format::Table => render::table_text(header(source, diff), heading, rows, diff, color),
        Format::Csv => render::csv_text(heading, rows),
        Format::Json => json::pretty(
            render::report_tree(source, text::lowercased(heading), rows, diff),
        ) + "\n"@,
    }
}

/// Writes rows in a format.
pub fn emit(
    format: Format,
    source: &str,
    heading: &str,
    rows: &[Row],
    diff: bool,
    color: bool,
) -> (r: String)
    requires
        render::totals_fit(render::row_views(rows@)),
        format == Format::Json ==> render::all_lines_fit(render::row_views(rows@)),
    ensures
        r@ == output_text(format, source@, heading@, render::row_views(rows@), diff, color),
{
    match format {
        Format::Table => {
            let mut above = "slopcount  ".to_owned();
            above.append(source);
            if diff {
                above.append("  (net change)");
            }
            render::table(above.as_str(), heading, rows, diff, color)
        },
        Format::Csv => render::csv(heading, rows),
        Format::Json => {
            let dimension = text::to_lowercase(heading);
            let value = render::json(source, dimension.as_str(), rows, diff);
            let mut out = json::to_pretty(&value);
            out.append("\n");
            out
        },
    }
}

/// The numbers of a report are too large to be added up.
#[derive(Debug, Clone, Copy, PartialEq, Eq, Structural)]
pub struct TooLarge;

/// What is added up to print some rows stays within the range of an `i64`: the
/// families and the totals, and where the lines of a row are written as a
/// number, those.
pub open spec fn printable(rows: Seq<RowModel>, format: Format, sort: Sort) -> bool {
    &&& format == Format::Table ==> render::families_fit(rows)
    &&& render::totals_fit(arranged(rows, format, sort))
    &&& format == Format::Json ==> render::all_lines_fit(rows)
}

/// What is printed of some rows.
pub open spec fn printed(
    args: Cli,
    source: Seq<char>,
    rows: Seq<RowModel>,
    diff: bool,
    color: bool,
) -> Seq<char> {
    output_text(
        args.format,
        source,
        cli::heading_of(args.breakdown()),
        arranged(render::finished(rows, args.sort, args.top), args.format, args.sort),
        diff,
        color,
    )
}

proof fn lemma_finished_no_roll_ups(rows: Seq<RowModel>, sort: Sort, top: Option<usize>)
    requires
        render::no_roll_ups(rows),
    ensures
        render::no_roll_ups(render::finished(rows, sort, top)),
{
    let rank = render::row_rank(sort);
    let sorted = order::sorted_by(rows, rank);
    order::law_sort_keeps_everything(rows, rank);
    assert forall|i: int| 0 <= i < sorted.len() implies !((#[trigger] sorted[i]).kind
        is Family) by {
        broadcast use vstd::seq_lib::group_to_multiset_ensures;

        assert(sorted.contains(sorted[i]));
        assert(sorted.to_multiset().count(sorted[i]) > 0);
        assert(rows.contains(sorted[i]));
    }
}

fn print_rows(args: &Cli, source: &str, rows: Vec<Row>, diff: bool, color: bool) -> (r: Result<
    String,
    TooLarge,
>)
    ensures
        prints(*args, source@, render::row_views(rows@), diff, color, r),
{
    let rows = render::finish(rows, args.sort, args.top);
    if args.format == Format::Table && !render::can_roll_up(rows.as_slice()) {
        return Err(TooLarge);
    }
    let rows = arrange(rows, args.format, args.sort);
    if !render::can_total(rows.as_slice()) {
        return Err(TooLarge);
    }
    if args.format == Format::Json && !render::can_count_lines(rows.as_slice()) {
        return Err(TooLarge);
    }
    let heading = args.dimension().heading();
    Ok(emit(args.format, source, heading, rows.as_slice(), diff, color))
}

/// The rows of a report, as it is broken down, make up what is printed of it.
pub open spec fn report_printed(
    args: Cli,
    registry: Registry,
    report: Report,
    source: Seq<char>,
    color: bool,
    rows: Seq<Row>,
    out: Result<String, TooLarge>,
) -> bool {
    &&& render::rows_describe(
        rows,
        report@,
        keys_of(args, registry, report),
    )
    &&& prints(args, source, render::row_views(rows), false, color, out)
}

/// The rows of a comparison make up what is printed of it.
pub open spec fn change_printed(
    args: Cli,
    registry: Registry,
    before: Report,
    after: Report,
    source: Seq<char>,
    color: bool,
    rows: Seq<Row>,
    out: Result<String, TooLarge>,
) -> bool {
    &&& render::rows_describe_change(
        rows,
        before@,
        keys_of(args, registry, before),
        after@,
        keys_of(args, registry, after),
    )
    &&& prints(args, source, render::row_views(rows), true, color, out)
}

/// Languages are grouped into families.
pub open spec fn groups(args: Cli) -> bool {
    !args.no_families && args.breakdown() == cli::Dimension::Language
}

/// What is printed is made of these rows, unless their numbers are too large.
pub open spec fn prints(
    args: Cli,
    source: Seq<char>,
    rows: Seq<RowModel>,
    diff: bool,
    color: bool,
    out: Result<String, TooLarge>,
) -> bool {
    &&& out is Ok <==> printable(
        render::finished(rows, args.sort, args.top),
        args.format,
        args.sort,
    )
    &&& out matches Ok(out) ==> out@ == printed(args, source, rows, diff, color)
}

/// The row that each file of a report belongs to.
pub open spec fn keys_of(
    args: Cli,
    registry: Registry,
    report: Report,
) -> Seq<(Option<Seq<char>>, Seq<char>)> {
    render::row_keys(registry, report@, args.breakdown(), args.depth as int, groups(args))
}

/// The counts of every row are within the range of an `i64`, and so is the
/// number of files.
pub open spec fn countable(args: Cli, registry: Registry, report: Report) -> bool {
    &&& report@.len() <= i64::MAX
    &&& report::groups_within(report@, keys_of(args, registry, report), i64::MAX as int)
}

fn count_rows(args: &Cli, registry: &Registry, report: &Report) -> (r: Option<Vec<Row>>)
    requires
        registry.wf(),
        report::knows_all(*registry, report@),
    ensures
        r is Some <==> countable(*args, *registry, *report),
        r matches Some(rows) ==> render::rows_describe(
            rows@,
            report@,
            keys_of(*args, *registry, *report),
        ),
{
    if report.len() as u64 > i64::MAX as u64 {
        return None;
    }
    render::rows_within(
        registry,
        report,
        args.dimension(),
        args.depth,
        args.group_families(),
        i64::MAX as u64,
    )
}

/// What is printed of the counts of one source.
pub fn show(args: &Cli, registry: &Registry, report: &Report, source: &str, color: bool) -> (r:
    Result<String, TooLarge>)
    requires
        registry.wf(),
        report::knows_all(*registry, report@),
    ensures
        !countable(*args, *registry, *report) ==> r is Err,
        countable(*args, *registry, *report) ==> exists|rows: Seq<Row>|
            #[trigger] report_printed(*args, *registry, *report, source@, color, rows, r),
{
    let rows = match count_rows(args, registry, report) {
        Some(rows) => rows,
        None => {
            return Err(TooLarge);
        },
    };
    let ghost all = rows@;
    let out = print_rows(args, source, rows, false, color);
    assert(report_printed(*args, *registry, *report, source@, color, all, out));
    out
}

/// What two sources are called together.
pub fn change_label(before: &str, after: &str) -> (r: String)
    ensures
        r@ == before@ + " → "@ + after@,
{
    let mut out = before.to_owned();
    out.append(" → ");
    out.append(after);
    out
}

/// What is printed of the change from one source to another.
pub fn show_change(
    args: &Cli,
    registry: &Registry,
    before: &Report,
    after: &Report,
    source: &str,
    color: bool,
) -> (r: Result<String, TooLarge>)
    requires
        registry.wf(),
        report::knows_all(*registry, before@),
        report::knows_all(*registry, after@),
    ensures
        !(countable(*args, *registry, *before) && countable(*args, *registry, *after))
            ==> r is Err,
        countable(*args, *registry, *before) && countable(*args, *registry, *after) ==> exists|rows: Seq<Row>|
            #[trigger] change_printed(
                *args,
                *registry,
                *before,
                *after,
                source@,
                color,
                rows,
                r,
            ),
{
    if count_rows(args, registry, before).is_none() || count_rows(args, registry, after).is_none() {
        return Err(TooLarge);
    }
    let rows = render::diff_rows(
        registry,
        before,
        after,
        args.dimension(),
        args.depth,
        args.group_families(),
    );
    let ghost all = rows@;
    let out = print_rows(args, source, rows, true, color);
    assert(change_printed(*args, *registry, *before, *after, source@, color, all, out));
    out
}

/// Only a table has family roll-ups: the other formats have one row for each
/// label.
pub proof fn law_only_tables_have_roll_ups(
    rows: Seq<RowModel>,
    format: Format,
    sort: Sort,
    top: Option<usize>,
)
    requires
        render::no_roll_ups(rows),
        format != Format::Table,
    ensures
        arranged(render::finished(rows, sort, top), format, sort) == render::finished(
            rows,
            sort,
            top,
        ),
        render::no_roll_ups(arranged(render::finished(rows, sort, top), format, sort)),
{
    lemma_finished_no_roll_ups(rows, sort, top);
}

/// How the rows are arranged leaves their total as it is.
pub proof fn law_every_format_has_the_same_total(
    rows: Seq<RowModel>,
    format: Format,
    sort: Sort,
    top: Option<usize>,
)
    requires
        render::no_roll_ups(rows),
    ensures
        render::totals(arranged(render::finished(rows, sort, top), format, sort))
            == render::totals(render::finished(rows, sort, top)),
{
    lemma_finished_no_roll_ups(rows, sort, top);
    render::law_families_leave_the_total(render::finished(rows, sort, top), sort);
}

/// Only a table has roll-ups among its rows, and only languages are grouped into
/// families, unless that is switched off.
pub proof fn law_rows_are_arranged_for_their_format(rows: Seq<RowModel>, sort: Sort, args: Cli)
    ensures
        arranged(rows, Format::Table, sort) == render::with_families(rows, sort),
        arranged(rows, Format::Csv, sort) == rows,
        arranged(rows, Format::Json, sort) == rows,
        groups(args) <==> !args.no_families && !args.files && args.by is Language,
{
}

/// Above a table stands what was counted, and for a diff that it is one.
pub proof fn law_a_header_names_the_source(source: Seq<char>)
    ensures
        header(source, false) == "slopcount  "@ + source,
        header(source, true) == header(source, false) + "  (net change)"@,
{
}

/// Rows are sorted and limited first, and what is left is arranged and written
/// in the format that was asked for. CSV and JSON have no colour, and CSV does
/// not name the source.
pub proof fn law_what_is_printed_is_sorted_first(
    args: Cli,
    source: Seq<char>,
    other: Seq<char>,
    rows: Seq<RowModel>,
    diff: bool,
    color: bool,
)
    ensures
        ({
            let heading = cli::heading_of(args.breakdown());
            let some = render::finished(rows, args.sort, args.top);
            let out = printed(args, source, rows, diff, color);
            &&& args.format is Table ==> out == render::table_text(
                header(source, diff),
                heading,
                render::with_families(some, args.sort),
                diff,
                color,
            )
            &&& args.format is Csv ==> out == render::csv_text(heading, some) && out == printed(
                args,
                other,
                rows,
                !diff,
                !color,
            )
            &&& args.format is Json ==> out == json::pretty(
                render::report_tree(source, text::lowercased(heading), some, diff),
            ) + "\n"@ && out == printed(args, source, rows, diff, !color)
        }),
{
}

/// Rows can be printed in every format wherever their numbers are small enough
/// for how many lines there are to print.
pub proof fn law_small_numbers_can_be_printed(
    rows: Seq<RowModel>,
    format: Format,
    sort: Sort,
    b: int,
)
    requires
        render::no_roll_ups(rows),
        forall|i: int| 0 <= i < rows.len() ==> render::row_within(#[trigger] rows[i], b),
        0 <= b,
        6 * b <= i64::MAX,
        6 * (b * rows.len()) <= i64::MAX,
        b * render::with_families(rows, sort).len() <= i64::MAX,
    ensures
        printable(rows, format, sort),
{
    render::law_small_numbers_can_be_added_up(rows, b);
    render::law_small_reports_can_be_written(rows, b);
    render::law_only_roll_ups_are_brought_in(rows, sort, b);
    render::law_small_numbers_can_be_added_up(render::with_families(rows, sort), b);
}

} // verus!
