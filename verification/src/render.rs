//! Turning reports into rows, and rows into tables, JSON and CSV.

use serde_json::Value;

use vstd::prelude::*;

use crate::cli::{Dimension, Sort};
use crate::json;
use crate::json::Tree;
use crate::lang::Registry;
use crate::numbers;
use crate::order;
use crate::ordmap;
use crate::ordmap::{Key, OrdMap};
use crate::path;
use crate::path::PartModel;
use crate::report;
use crate::report::{Counts, FileReport, Report, SignedCounts, SignedStats, SplitTally, Stats, Tally};
use crate::text;

verus! {

// ---------------------------------------------------------------------------
// Rows
// ---------------------------------------------------------------------------

/// What a row is, once rows have been grouped into families.
#[derive(Debug, Clone, Copy, PartialEq, Eq, Structural)]
pub enum RowKind {
    /// An ordinary, ungrouped row.
    Plain,
    /// A family roll-up: the sum of the member rows that follow it.
    Family,
    /// A language inside the family above it. `last` draws the elbow.
    Member { last: bool },
}

/// One line of output: a label, how many files it covers, and its counts.
#[derive(Debug, Clone)]
pub struct Row {
    pub label: String,
    pub files: i64,
    pub stats: SignedStats,
    /// The family this row belongs to, when the report is grouped.
    pub family: Option<String>,
    pub kind: RowKind,
}

/// What a row says.
#[verifier::ext_equal]
pub struct RowModel {
    pub label: Seq<char>,
    pub files: int,
    pub stats: SplitTally,
    pub family: Option<Seq<char>>,
    pub kind: RowKind,
}

/// The characters of a text that may be missing.
pub open spec fn optional(s: Option<String>) -> Option<Seq<char>> {
    match s {
        Some(s) => Some(s@),
        None => None,
    }
}

impl View for Row {
    type V = RowModel;

    open spec fn view(&self) -> RowModel {
        RowModel {
            label: self.label@,
            files: self.files as int,
            stats: self.stats@,
            family: optional(self.family),
            kind: self.kind,
        }
    }
}

/// What some rows say.
pub open spec fn row_views(rows: Seq<Row>) -> Seq<RowModel> {
    rows.map_values(|r: Row| r@)
}

impl Row {
    pub fn new(label: String, files: i64, stats: SignedStats) -> (r: Row)
        ensures
            r@ == (RowModel {
                label: label@,
                files: files as int,
                stats: stats@,
                family: None,
                kind: RowKind::Plain,
            }),
            r.stats == stats,
    {
        Row { label, files, stats, family: None, kind: RowKind::Plain }
    }
}

// ---------------------------------------------------------------------------
// Grouping files into rows
// ---------------------------------------------------------------------------

/// What tells rows apart: the family, if rows are grouped by it, and the label.
#[derive(Debug)]
pub struct RowKey {
    pub family: Option<String>,
    pub label: String,
}

impl View for RowKey {
    type V = (Option<Seq<char>>, Seq<char>);

    open spec fn view(&self) -> (Option<Seq<char>>, Seq<char>) {
        (optional(self.family), self.label@)
    }
}

/// Rows are ordered by their family, and within it by their label. Rows without
/// a family come first.
pub open spec fn key_rank(key: (Option<Seq<char>>, Seq<char>)) -> Seq<int> {
    (match key.0 {
        None => seq![0int],
        Some(family) => seq![1int] + order::closed_rank(family),
    }) + order::text_rank(key.1)
}

fn key_rank_of(key: &RowKey) -> (r: Vec<i128>)
    ensures
        order::ints(r@) == key_rank(key@),
{
    let mut out: Vec<i128> = Vec::new();
    match &key.family {
        None => {
            out.push(0);
            assert(order::ints(out@) =~= seq![0int]);
        },
        Some(family) => {
            out.push(1);
            assert(order::ints(out@) =~= seq![1int]);
            order::push_closed_rank(&mut out, family.as_str());
        },
    }
    order::push_text_rank(&mut out, key.label.as_str());
    out
}

impl Key for RowKey {
    open spec fn rank(key: (Option<Seq<char>>, Seq<char>)) -> Seq<int> {
        key_rank(key)
    }

    proof fn lemma_rank_differs(
        a: (Option<Seq<char>>, Seq<char>),
        b: (Option<Seq<char>>, Seq<char>),
    ) {
        let m = key_rank(a);
        let n = key_rank(b);
        if m == n {
            match (a.0, b.0) {
                (None, None) => {
                    assert(m.skip(1) =~= order::text_rank(a.1));
                    assert(n.skip(1) =~= order::text_rank(b.1));
                    order::lemma_text_rank_differs(a.1, b.1);
                },
                (Some(f), Some(g)) => {
                    assert(m.skip(1) =~= order::closed_rank(f) + order::text_rank(a.1));
                    assert(n.skip(1) =~= order::closed_rank(g) + order::text_rank(b.1));
                    order::lemma_closed_rank(f, g, order::text_rank(a.1), order::text_rank(b.1));
                    order::lemma_text_rank_differs(a.1, b.1);
                },
                (None, Some(g)) => {
                    assert(m[0] == 0);
                    assert(n[0] == 1);
                },
                (Some(f), None) => {
                    assert(m[0] == 1);
                    assert(n[0] == 0);
                },
            }
        }
    }

    fn comes_before(&self, other: &RowKey) -> (r: bool) {
        order::ranks_before(&key_rank_of(self), &key_rank_of(other))
    }

    fn duplicate(&self) -> (r: RowKey) {
        RowKey {
            family: match &self.family {
                Some(family) => Some(family.clone()),
                None => None,
            },
            label: self.label.clone(),
        }
    }
}

/// The family a file contributes to, when rows are grouped by family.
pub open spec fn family_model(
    registry: Registry,
    file: FileReport,
    dimension: Dimension,
    group: bool,
) -> Option<Seq<char>> {
    if group && dimension is Language {
        Some(registry.family_name_of(file.language))
    } else {
        None
    }
}

/// The label a file contributes along `dimension`.
pub open spec fn label_model(
    registry: Registry,
    file: FileReport,
    dimension: Dimension,
    depth: int,
) -> Seq<char> {
    match dimension {
        Dimension::Language => report::language_name_of(registry, file.language),
        Dimension::Family => registry.family_name_of(file.language),
        Dimension::Extension => report::extension_label(file.path@),
        Dimension::File => file.path@,
        Dimension::Directory => path::directory(file.path@, depth),
    }
}

/// The row that each file belongs to.
pub open spec fn row_keys(
    registry: Registry,
    files: Seq<FileReport>,
    dimension: Dimension,
    depth: int,
    group: bool,
) -> Seq<(Option<Seq<char>>, Seq<char>)> {
    files.map_values(
        |f: FileReport|
            (family_model(registry, f, dimension, group), label_model(
                registry,
                f,
                dimension,
                depth,
            )),
    )
}

fn key_of(
    registry: &Registry,
    file: &FileReport,
    dimension: Dimension,
    depth: usize,
    group: bool,
) -> (r: RowKey)
    requires
        registry.wf(),
        registry.knows(file.language),
    ensures
        r@ == (
            family_model(*registry, *file, dimension, group),
            label_model(*registry, *file, dimension, depth as int),
        ),
{
    let family = if group && dimension == Dimension::Language {
        Some(file.family_name(registry))
    } else {
        None
    };
    let label = match dimension {
        Dimension::Language => file.language_name(registry),
        Dimension::Family => file.family_name(registry),
        Dimension::Extension => file.extension(),
        Dimension::File => file.path.clone(),
        Dimension::Directory => path::directory_of(file.path.as_str(), depth),
    };
    RowKey { family, label }
}

/// How many of `keys` are `key`.
pub open spec fn count_where<T>(keys: Seq<T>, key: T) -> int
    decreases keys.len(),
{
    if keys.len() == 0 {
        0
    } else {
        count_where(keys.drop_last(), key) + if keys.last() == key {
            1int
        } else {
            0int
        }
    }
}

pub proof fn lemma_count_where<T>(keys: Seq<T>, key: T)
    ensures
        0 <= count_where(keys, key) <= keys.len(),
        keys.contains(key) <==> count_where(keys, key) > 0,
    decreases keys.len(),
{
    if keys.len() > 0 {
        let rest = keys.drop_last();
        lemma_count_where(rest, key);
        assert(keys.last() == keys[keys.len() - 1]);
        if keys.contains(key) && keys.last() != key {
            let i = choose|i: int| 0 <= i < keys.len() && keys[i] == key;
            assert(rest[i] == key);
        }
        if rest.contains(key) {
            let i = choose|i: int| 0 <= i < rest.len() && rest[i] == key;
            assert(keys[i] == key);
        }
    }
}

/// What tells a row apart.
pub open spec fn own_key(row: Row) -> (Option<Seq<char>>, Seq<char>) {
    (optional(row.family), row.label@)
}

/// Some row has the key `key`.
pub open spec fn has_row(rows: Seq<Row>, key: (Option<Seq<char>>, Seq<char>)) -> bool {
    exists|i: int| 0 <= i < rows.len() && own_key(#[trigger] rows[i]) == key
}

/// The rows are in the order of their keys, no two with the same.
pub open spec fn rows_ascend(rows: Seq<Row>) -> bool {
    forall|i: int, j: int|
        0 <= i < j < rows.len() ==> order::before(
            key_rank(own_key(#[trigger] rows[i])),
            key_rank(own_key(#[trigger] rows[j])),
        )
}

/// There is a row for each key, in the order of the keys, with the number of
/// its files and their counts.
pub open spec fn rows_describe(
    rows: Seq<Row>,
    files: Seq<FileReport>,
    keys: Seq<(Option<Seq<char>>, Seq<char>)>,
) -> bool {
    &&& rows_ascend(rows)
    &&& forall|i: int| 0 <= i < rows.len() ==> {
        let row = #[trigger] rows[i];
        let key = own_key(row);
        &&& row.kind == RowKind::Plain
        &&& keys.contains(key)
        &&& row.files == count_where(keys, key)
        &&& row.stats == SignedStats::of(report::stats_of(report::tally_where(files, keys, key)))
    }
    &&& forall|key: (Option<Seq<char>>, Seq<char>)| #[trigger]
        keys.contains(key) ==> has_row(rows, key)
}

/// The sum of two counts, unless it is above `limit`.
fn add_within(a: u64, b: u64, limit: u64) -> (r: Option<u64>)
    ensures
        r is Some <==> a + b <= limit,
        r matches Some(sum) ==> sum == a + b,
{
    if a > limit || b > limit - a {
        None
    } else {
        Some(a + b)
    }
}

/// The sum of two sets of counts, unless one of them is above `limit`.
fn add_counts(a: &Counts, b: &Counts, limit: u64) -> (r: Option<Counts>)
    ensures
        r is Some <==> a.code + b.code <= limit && a.comments + b.comments <= limit && a.blanks
            + b.blanks <= limit,
        r matches Some(sum) ==> sum@ == a@.plus(b@),
{
    let code = add_within(a.code, b.code, limit);
    let comments = add_within(a.comments, b.comments, limit);
    let blanks = add_within(a.blanks, b.blanks, limit);
    match (code, comments, blanks) {
        (Some(code), Some(comments), Some(blanks)) => Some(Counts { code, comments, blanks }),
        _ => None,
    }
}

/// The sum of two sets of counts, unless one of them is above `limit`.
fn add_stats(a: &Stats, b: &Stats, limit: u64) -> (r: Option<Stats>)
    ensures
        r is Some <==> report::within(a@.plus(b@), limit as int),
        r matches Some(sum) ==> sum@ == a@.plus(b@),
{
    match (add_counts(&a.prod, &b.prod, limit), add_counts(&a.test, &b.test, limit)) {
        (Some(prod), Some(test)) => Some(Stats { prod, test }),
        _ => None,
    }
}

/// The number of files of each row and their counts, unless one of the counts
/// is above `limit`.
fn group_within(
    registry: &Registry,
    report: &Report,
    dimension: Dimension,
    depth: usize,
    group: bool,
    limit: u64,
) -> (r: Option<OrdMap<RowKey, (i64, Stats)>>)
    requires
        registry.wf(),
        report::knows_all(*registry, report@),
        report@.len() <= i64::MAX,
    ensures
        ({
            let keys = row_keys(*registry, report@, dimension, depth as int, group);
            &&& r is Some <==> report::groups_within(report@, keys, limit as int)
            &&& r matches Some(grouped) ==> {
                &&& grouped.wf()
                &&& forall|key: (Option<Seq<char>>, Seq<char>)| #[trigger]
                    grouped@.dom().contains(key) <==> keys.contains(key)
                &&& forall|key: (Option<Seq<char>>, Seq<char>)| #[trigger]
                    grouped@.dom().contains(key) ==> {
                        &&& grouped@[key].0 == count_where(keys, key)
                        &&& grouped@[key].1@ == report::tally_where(report@, keys, key)
                    }
            }
        }),
{
    let ghost files = report@;
    let ghost keys = row_keys(*registry, files, dimension, depth as int, group);
    let mut grouped: OrdMap<RowKey, (i64, Stats)> = OrdMap::new();
    let mut i: usize = 0;
    while i < report.files.len()
        invariant
            i <= report.files.len(),
            files == report@,
            registry.wf(),
            report::knows_all(*registry, files),
            files.len() <= i64::MAX,
            keys == row_keys(*registry, files, dimension, depth as int, group),
            grouped.wf(),
            forall|key: (Option<Seq<char>>, Seq<char>)| #[trigger]
                grouped@.dom().contains(key) <==> keys.take(i as int).contains(key),
            forall|key: (Option<Seq<char>>, Seq<char>)| #[trigger]
                grouped@.dom().contains(key) ==> {
                    &&& grouped@[key].0 == count_where(keys.take(i as int), key)
                    &&& grouped@[key].1@ == report::tally_where(
                        files.take(i as int),
                        keys.take(i as int),
                        key,
                    )
                    &&& report::within(grouped@[key].1@, limit as int)
                },
        decreases report.files.len() - i,
    {
        let file = &report.files[i];
        assert(*file == files[i as int]);
        let key = key_of(registry, file, dimension, depth, group);
        let ghost known = keys.take(i as int);
        let ghost more = keys.take(i + 1);
        let ghost before = grouped@;
        proof {
            assert(keys[i as int] == key@);
            assert(more =~= known.push(key@));
            assert(more.drop_last() =~= known);
            assert(files.take(i + 1).drop_last() =~= files.take(i as int));
            report::lemma_tally_where_grows(files, keys, key@, i + 1);
            lemma_count_where(known, key@);
            if !known.contains(key@) {
                report::lemma_tally_where_absent(files.take(i as int), known, key@);
            }
        }
        let (count, so_far): (i64, Stats) = match grouped.get(&key) {
            Some(entry) => (entry.0 + 1, entry.1),
            None => (1, Stats::default()),
        };
        let sum = match add_stats(&so_far, &file.stats, limit) {
            Some(sum) => sum,
            None => {
                proof {
                    assert(!report::within(
                        report::tally_where(files, keys, key@),
                        limit as int,
                    ));
                }
                return None;
            },
        };
        grouped.insert(key, (count, sum));
        proof {
            assert forall|x: (Option<Seq<char>>, Seq<char>)| #[trigger]
                grouped@.dom().contains(x) <==> more.contains(x) by {
                lemma_contains_push(known, key@, x);
                assert(before.dom().contains(x) <==> known.contains(x));
            }
            assert forall|x: (Option<Seq<char>>, Seq<char>)| #[trigger]
                grouped@.dom().contains(x) implies grouped@[x].0 == count_where(more, x)
                && grouped@[x].1@ == report::tally_where(files.take(i + 1), more, x)
                && report::within(grouped@[x].1@, limit as int) by {
                if x != key@ {
                    assert(before.dom().contains(x));
                }
            }
        }
        i = i + 1;
    }
    assert(keys.take(i as int) =~= keys);
    assert(files.take(i as int) =~= files);
    proof {
        assert forall|key: (Option<Seq<char>>, Seq<char>)|
            report::within(#[trigger] report::tally_where(files, keys, key), limit as int) by {
            if keys.contains(key) {
                assert(grouped@.dom().contains(key));
            } else {
                report::lemma_tally_where_absent(files, keys, key);
            }
        }
    }
    Some(grouped)
}

/// Aggregates a report into rows along `dimension`, unless one of the counts of
/// a row is above `limit`.
pub fn rows_within(
    registry: &Registry,
    report: &Report,
    dimension: Dimension,
    depth: usize,
    group: bool,
    limit: u64,
) -> (r: Option<Vec<Row>>)
    requires
        registry.wf(),
        report::knows_all(*registry, report@),
        report@.len() <= i64::MAX,
    ensures
        ({
            let keys = row_keys(*registry, report@, dimension, depth as int, group);
            &&& r is Some <==> report::groups_within(report@, keys, limit as int)
            &&& r matches Some(rows) ==> rows_describe(rows@, report@, keys)
        }),
{
    let ghost files = report@;
    let ghost keys = row_keys(*registry, files, dimension, depth as int, group);
    let grouped = match group_within(registry, report, dimension, depth, group, limit) {
        Some(grouped) => grouped,
        None => {
            return None;
        },
    };
    proof {
        grouped.lemma_entries();
    }
    let ghost held = grouped@;
    let ghost all = grouped.entries();
    let mut entries = grouped.into_entries();
    let mut out: Vec<Row> = Vec::with_capacity(entries.len());
    while entries.len() > 0
        invariant
            out.len() + entries.len() == all.len(),
            forall|k: int| 0 <= k < entries.len() ==> entries@[k] == all[out.len() + k],
            forall|k: int| 0 <= k < out.len() ==> {
                let row = #[trigger] out@[k];
                &&& own_key(row) == all[k].0@
                &&& row.kind == RowKind::Plain
                &&& row.files == all[k].1.0
                &&& row.stats == SignedStats::of(all[k].1.1)
            },
        decreases entries.len(),
    {
        let (key, (count, sum)) = entries.remove(0);
        let stats = SignedStats::from(sum);
        let row = Row { label: key.label, files: count, stats, family: key.family, kind: RowKind::Plain };
        assert(own_key(row) == all[out.len() as int].0@);
        out.push(row);
    }
    proof {
        assert forall|k: int| 0 <= k < out.len() implies {
            let row = #[trigger] out@[k];
            let key = own_key(row);
            &&& row.kind == RowKind::Plain
            &&& keys.contains(key)
            &&& row.files == count_where(keys, key)
            &&& row.stats == SignedStats::of(
                report::stats_of(report::tally_where(files, keys, key)),
            )
        } by {
            let key = all[k].0@;
            assert(held.dom().contains(key));
            report::lemma_stats_of(all[k].1.1);
        }
        assert forall|key: (Option<Seq<char>>, Seq<char>)| #[trigger]
            keys.contains(key) implies has_row(out@, key) by {
            assert(held.dom().contains(key));
            let k = choose|k: int| ordmap::key_stands_at(all, key, k);
            assert(own_key(out@[k]) == key);
        }
        assert forall|a: int, b: int| 0 <= a < b < out@.len() implies order::before(
            key_rank(own_key(#[trigger] out@[a])),
            key_rank(own_key(#[trigger] out@[b])),
        ) by {
            assert(order::before(
                <RowKey as Key>::rank(all[a].0@),
                <RowKey as Key>::rank(all[b].0@),
            ));
        }
    }
    Some(out)
}

/// Aggregates a report into rows along `dimension`.
pub fn rows(
    registry: &Registry,
    report: &Report,
    dimension: Dimension,
    depth: usize,
    group: bool,
) -> (r: Vec<Row>)
    requires
        registry.wf(),
        report::knows_all(*registry, report@),
        report::groups_within(
            report@,
            row_keys(*registry, report@, dimension, depth as int, group),
            u64::MAX as int,
        ),
        report@.len() <= i64::MAX,
    ensures
        rows_describe(
            r@,
            report@,
            row_keys(*registry, report@, dimension, depth as int, group),
        ),
{
    match rows_within(registry, report, dimension, depth, group, u64::MAX) {
        Some(rows) => rows,
        None => Vec::new(),
    }
}

/// The sum of two sets of counts.
fn sum_stats(a: SignedStats, b: SignedStats) -> (r: SignedStats)
    requires
        a.prod.can_add(b.prod),
        a.test.can_add(b.test),
    ensures
        r@ == a@.plus(b@),
{
    SignedStats { prod: a.prod + b.prod, test: a.test + b.test }
}

/// What a key stands for so far; nothing if it is not there.
pub open spec fn value_at<T>(held: Map<T, (i64, SignedStats)>, key: T) -> (int, SplitTally) {
    if held.dom().contains(key) {
        (held[key].0 as int, held[key].1@)
    } else {
        (0, SplitTally::zero())
    }
}

/// The number of files of a key and their counts, added to `start` or taken
/// off it.
#[verifier::opaque]
pub open spec fn moved<T>(
    start: (int, SplitTally),
    files: Seq<FileReport>,
    keys: Seq<T>,
    key: T,
    off: bool,
) -> (int, SplitTally) {
    let count = count_where(keys, key);
    let tally = report::tally_where(files, keys, key);
    if off {
        (start.0 - count, start.1.minus(tally))
    } else {
        (start.0 + count, start.1.plus(tally))
    }
}

proof fn lemma_moved_step<T>(
    start: (int, SplitTally),
    files: Seq<FileReport>,
    keys: Seq<T>,
    i: int,
    key: T,
    off: bool,
)
    requires
        0 <= i < files.len(),
        files.len() == keys.len(),
    ensures
        ({
            let now = moved(start, files.take(i), keys.take(i), key, off);
            let next = moved(start, files.take(i + 1), keys.take(i + 1), key, off);
            if keys[i] != key {
                next == now
            } else if off {
                next == (now.0 - 1, now.1.minus(files[i].stats@))
            } else {
                next == (now.0 + 1, now.1.plus(files[i].stats@))
            }
        }),
{
    reveal(moved);
    assert(keys.take(i + 1).drop_last() =~= keys.take(i));
    assert(files.take(i + 1).drop_last() =~= files.take(i));
}

/// Where files may be added to, or taken off.
spec fn can_start(start: (int, SplitTally), off: bool) -> bool {
    if off {
        &&& 0 <= start.0 <= i64::MAX
        &&& report::counts_up(start.1)
        &&& report::within(start.1, i64::MAX as int)
    } else {
        start == (0int, SplitTally::zero())
    }
}

/// One more file can be added, or taken off.
spec fn can_move(now: (int, SplitTally), file: SplitTally, off: bool) -> bool {
    let next = now.1.minus(file);
    &&& report::within(file, i64::MAX as int)
    &&& if off {
        &&& now.0 > i64::MIN
        &&& report::in_i64(next.prod.code)
        &&& report::in_i64(next.prod.comments)
        &&& report::in_i64(next.prod.blanks)
        &&& report::in_i64(next.test.code)
        &&& report::in_i64(next.test.comments)
        &&& report::in_i64(next.test.blanks)
    } else {
        &&& 0 <= now.0 < i64::MAX
        &&& report::counts_up(now.1)
        &&& report::within(now.1.plus(file), i64::MAX as int)
    }
}

proof fn lemma_move_bounds<T>(
    start: (int, SplitTally),
    files: Seq<FileReport>,
    keys: Seq<T>,
    i: int,
    key: T,
    off: bool,
)
    requires
        0 <= i < files.len() <= i64::MAX,
        files.len() == keys.len(),
        keys[i] == key,
        report::within(report::tally_where(files, keys, key), i64::MAX as int),
        can_start(start, off),
    ensures
        can_move(moved(start, files.take(i), keys.take(i), key, off), files[i].stats@, off),
{
    reveal(moved);
    lemma_count_where(keys.take(i), key);
    report::lemma_tally_where_grows(files, keys, key, i);
    report::lemma_tally_where_grows(files, keys, key, i + 1);
    assert(keys.take(i + 1).drop_last() =~= keys.take(i));
    assert(files.take(i + 1).drop_last() =~= files.take(i));
}

/// Adds one file to what a key stands for, or takes it off.
fn move_one(count: i64, stats: SignedStats, file: &Stats, off: bool) -> (r: (i64, SignedStats))
    requires
        can_move((count as int, stats@), file@, off),
    ensures
        (r.0 as int, r.1@) == (if off {
            (count - 1, stats@.minus(file@))
        } else {
            (count + 1, stats@.plus(file@))
        }),
{
    let own = SignedStats::from(*file);
    if off {
        (count - 1, stats - own)
    } else {
        (count + 1, sum_stats(stats, own))
    }
}

/// Adds the files of a report to the groups, or takes them off.
fn move_files(
    grouped: &mut OrdMap<RowKey, (i64, SignedStats)>,
    registry: &Registry,
    report: &Report,
    dimension: Dimension,
    depth: usize,
    group: bool,
    off: bool,
)
    requires
        old(grouped).wf(),
        registry.wf(),
        report::knows_all(*registry, report@),
        report::groups_within(
            report@,
            row_keys(*registry, report@, dimension, depth as int, group),
            i64::MAX as int,
        ),
        report@.len() <= i64::MAX,
        forall|key: (Option<Seq<char>>, Seq<char>)|
            can_start(#[trigger] value_at(old(grouped)@, key), off),
    ensures
        final(grouped).wf(),
        ({
            let keys = row_keys(*registry, report@, dimension, depth as int, group);
            &&& forall|key: (Option<Seq<char>>, Seq<char>)| #[trigger]
                value_at(final(grouped)@, key) == moved(
                    value_at(old(grouped)@, key),
                    report@,
                    keys,
                    key,
                    off,
                )
            &&& forall|key: (Option<Seq<char>>, Seq<char>)| #[trigger]
                final(grouped)@.dom().contains(key) <==> old(grouped)@.dom().contains(key)
                    || keys.contains(key)
        }),
{
    let ghost files = report@;
    let ghost keys = row_keys(*registry, files, dimension, depth as int, group);
    let ghost start = grouped@;
    let mut i: usize = 0;
    assert forall|key: (Option<Seq<char>>, Seq<char>)| #[trigger]
        value_at(grouped@, key) == moved(
            value_at(start, key),
            files.take(0),
            keys.take(0),
            key,
            off,
        ) by {
        reveal(moved);
    }
    while i < report.files.len()
        invariant
            i <= report.files.len(),
            files == report@,
            registry.wf(),
            report::knows_all(*registry, files),
            report::groups_within(files, keys, i64::MAX as int),
            files.len() <= i64::MAX,
            keys == row_keys(*registry, files, dimension, depth as int, group),
            forall|key: (Option<Seq<char>>, Seq<char>)|
                can_start(#[trigger] value_at(start, key), off),
            grouped.wf(),
            forall|key: (Option<Seq<char>>, Seq<char>)| #[trigger]
                value_at(grouped@, key) == moved(
                    value_at(start, key),
                    files.take(i as int),
                    keys.take(i as int),
                    key,
                    off,
                ),
            forall|key: (Option<Seq<char>>, Seq<char>)| #[trigger]
                grouped@.dom().contains(key) <==> start.dom().contains(key) || keys.take(
                    i as int,
                ).contains(key),
        decreases report.files.len() - i,
    {
        let file = &report.files[i];
        let key = key_of(registry, file, dimension, depth, group);
        let ghost known = keys.take(i as int);
        let ghost more = keys.take(i + 1);
        let ghost before = grouped@;
        let ghost from = value_at(start, key@);
        proof {
            assert(keys[i as int] == key@);
            assert(report::within(report::tally_where(files, keys, key@), i64::MAX as int));
            lemma_move_bounds(from, files, keys, i as int, key@, off);
            lemma_moved_step(from, files, keys, i as int, key@, off);
            assert(value_at(before, key@) == moved(from, files.take(i as int), known, key@, off));
        }
        let (count, stats): (i64, SignedStats) = match grouped.get(&key) {
            Some(entry) => *entry,
            None => (0, SignedStats::default()),
        };
        let next = move_one(count, stats, &file.stats, off);
        grouped.insert(key, next);
        proof {
            assert forall|x: (Option<Seq<char>>, Seq<char>)| #[trigger]
                value_at(grouped@, x) == moved(
                    value_at(start, x),
                    files.take(i + 1),
                    more,
                    x,
                    off,
                ) by {
                assert(value_at(before, x) == moved(
                    value_at(start, x),
                    files.take(i as int),
                    known,
                    x,
                    off,
                ));
                lemma_moved_step(value_at(start, x), files, keys, i as int, x, off);
            }
            assert(more =~= known.push(key@));
            assert forall|x: (Option<Seq<char>>, Seq<char>)| #[trigger]
                grouped@.dom().contains(x) <==> start.dom().contains(x) || more.contains(x) by {
                lemma_contains_push(known, key@, x);
                assert(before.dom().contains(x) <==> start.dom().contains(x) || known.contains(x));
            }
        }
        i = i + 1;
    }
    assert(keys.take(i as int) =~= keys);
    assert(files.take(i as int) =~= files);
}

/// The net change of a key: how many more files, and how many more lines.
pub open spec fn net_change<T>(
    before: Seq<FileReport>,
    before_keys: Seq<T>,
    after: Seq<FileReport>,
    after_keys: Seq<T>,
    key: T,
) -> (int, SplitTally) {
    (
        count_where(after_keys, key) - count_where(before_keys, key),
        report::tally_where(after, after_keys, key).minus(
            report::tally_where(before, before_keys, key),
        ),
    )
}

/// There is a row for each key that changes, in the order of the keys, with
/// its net change.
pub open spec fn rows_describe_change(
    rows: Seq<Row>,
    before: Seq<FileReport>,
    before_keys: Seq<(Option<Seq<char>>, Seq<char>)>,
    after: Seq<FileReport>,
    after_keys: Seq<(Option<Seq<char>>, Seq<char>)>,
) -> bool {
    &&& rows_ascend(rows)
    &&& forall|i: int| 0 <= i < rows.len() ==> {
        let row = #[trigger] rows[i];
        let change = net_change(before, before_keys, after, after_keys, own_key(row));
        &&& row.kind == RowKind::Plain
        &&& row.files == change.0
        &&& row.stats@ == change.1
        &&& change != (0int, SplitTally::zero())
    }
    &&& forall|key: (Option<Seq<char>>, Seq<char>)|
        net_change(before, before_keys, after, after_keys, key) != (0int, SplitTally::zero()) ==>
            #[trigger] has_row(rows, key)
}

/// Aggregates two reports into rows of net change, `after - before`.
pub fn diff_rows(
    registry: &Registry,
    before: &Report,
    after: &Report,
    dimension: Dimension,
    depth: usize,
    group: bool,
) -> (r: Vec<Row>)
    requires
        registry.wf(),
        report::knows_all(*registry, before@),
        report::knows_all(*registry, after@),
        report::groups_within(
            before@,
            row_keys(*registry, before@, dimension, depth as int, group),
            i64::MAX as int,
        ),
        report::groups_within(
            after@,
            row_keys(*registry, after@, dimension, depth as int, group),
            i64::MAX as int,
        ),
        before@.len() <= i64::MAX,
        after@.len() <= i64::MAX,
    ensures
        rows_describe_change(
            r@,
            before@,
            row_keys(*registry, before@, dimension, depth as int, group),
            after@,
            row_keys(*registry, after@, dimension, depth as int, group),
        ),
{
    let ghost bkeys = row_keys(*registry, before@, dimension, depth as int, group);
    let ghost akeys = row_keys(*registry, after@, dimension, depth as int, group);
    let mut grouped: OrdMap<RowKey, (i64, SignedStats)> = OrdMap::new();
    move_files(&mut grouped, registry, after, dimension, depth, group, false);
    let ghost middle = grouped@;
    proof {
        reveal(moved);
        assert forall|key: (Option<Seq<char>>, Seq<char>)|
            can_start(#[trigger] value_at(middle, key), true) by {
            report::lemma_part_of_total(after@, akeys, key);
            assert(report::within(report::tally_where(after@, akeys, key), i64::MAX as int));
            lemma_count_where(akeys, key);
        }
    }
    move_files(&mut grouped, registry, before, dimension, depth, group, true);
    proof {
        grouped.lemma_entries();
        assert forall|key: (Option<Seq<char>>, Seq<char>)| #[trigger]
            value_at(grouped@, key) == net_change(before@, bkeys, after@, akeys, key) by {
            assert(value_at(middle, key) == moved(
                (0int, SplitTally::zero()),
                after@,
                akeys,
                key,
                false,
            ));
        }
    }
    let ghost held = grouped@;
    let ghost all = grouped.entries();
    let mut entries = grouped.into_entries();
    let mut out: Vec<Row> = Vec::new();
    // Where in `all` each row came from.
    let ghost mut places: Seq<int> = Seq::empty();
    let ghost mut done: int = 0;
    while entries.len() > 0
        invariant
            0 <= done <= all.len(),
            done + entries.len() == all.len(),
            forall|k: int| 0 <= k < entries.len() ==> entries@[k] == all[done + k],
            places.len() == out.len(),
            forall|k: int| 0 <= k < out.len() ==> 0 <= #[trigger] places[k] < done,
            forall|a: int, b: int|
                0 <= a < b < out.len() ==> #[trigger] places[a] < #[trigger] places[b],
            forall|k: int| 0 <= k < out.len() ==> {
                let row = #[trigger] out@[k];
                let entry = all[places[k]];
                &&& own_key(row) == entry.0@
                &&& row.kind == RowKind::Plain
                &&& row.files == entry.1.0
                &&& row.stats == entry.1.1
                &&& (row.files as int, row.stats@) != (0int, SplitTally::zero())
            },
            forall|k: int|
                0 <= k < done && ((#[trigger] all[k]).1.0 as int, all[k].1.1@) != (
                    0int,
                    SplitTally::zero(),
                ) ==> has_row(out@, all[k].0@),
        decreases entries.len(),
    {
        let ghost earlier = out@;
        let (key, (files, stats)) = entries.remove(0);
        if files != 0 || !stats.is_empty() {
            let row = Row { label: key.label, files, stats, family: key.family, kind: RowKind::Plain };
            out.push(row);
            proof {
                places = places.push(done);
                assert(own_key(out@[out@.len() - 1]) == all[done].0@);
            }
        }
        proof {
            assert forall|k: int|
                0 <= k < done + 1 && ((#[trigger] all[k]).1.0 as int, all[k].1.1@) != (
                    0int,
                    SplitTally::zero(),
                ) implies has_row(out@, all[k].0@) by {
                if k < done {
                    let j = choose|j: int|
                        0 <= j < earlier.len() && own_key(#[trigger] earlier[j]) == all[k].0@;
                    assert(out@[j] == earlier[j]);
                }
            }
            done = done + 1;
        }
    }
    proof {
        assert forall|k: int| 0 <= k < out.len() implies {
            let row = #[trigger] out@[k];
            let change = net_change(before@, bkeys, after@, akeys, own_key(row));
            &&& row.kind == RowKind::Plain
            &&& row.files == change.0
            &&& row.stats@ == change.1
            &&& change != (0int, SplitTally::zero())
        } by {
            let entry = all[places[k]];
            assert(held.dom().contains(entry.0@));
            assert(value_at(held, entry.0@) == net_change(
                before@,
                bkeys,
                after@,
                akeys,
                entry.0@,
            ));
        }
        assert forall|key: (Option<Seq<char>>, Seq<char>)|
            net_change(before@, bkeys, after@, akeys, key) != (0int, SplitTally::zero()) implies
            #[trigger] has_row(out@, key) by {
            assert(value_at(held, key) == net_change(before@, bkeys, after@, akeys, key));
            let k = choose|k: int| ordmap::key_stands_at(all, key, k);
            assert(all[k].0@ == key);
        }
        assert forall|a: int, b: int| 0 <= a < b < out@.len() implies order::before(
            key_rank(own_key(#[trigger] out@[a])),
            key_rank(own_key(#[trigger] out@[b])),
        ) by {
            assert(places[a] < places[b]);
            assert(order::before(
                <RowKey as Key>::rank(all[places[a]].0@),
                <RowKey as Key>::rank(all[places[b]].0@),
            ));
        }
    }
    out
}

proof fn lemma_contains_push<T>(s: Seq<T>, x: T, y: T)
    ensures
        s.push(x).contains(y) <==> s.contains(y) || x == y,
{
    if s.contains(y) {
        let i = choose|i: int| 0 <= i < s.len() && s[i] == y;
        assert(s.push(x)[i] == y);
    }
    if x == y {
        assert(s.push(x)[s.len() as int] == y);
    }
    if s.push(x).contains(y) && x != y {
        let i = choose|i: int| 0 <= i < s.push(x).len() && s.push(x)[i] == y;
        assert(s[i] == y);
    }
}

// ---------------------------------------------------------------------------
// Sorting and totals
// ---------------------------------------------------------------------------

/// The count that rows are sorted by.
pub open spec fn sort_key(row: RowModel, sort: Sort) -> int {
    match sort {
        Sort::Code => row.stats.total().code,
        Sort::Comments => row.stats.total().comments,
        Sort::Blanks => row.stats.total().blanks,
        Sort::Test => row.stats.test.code,
        Sort::Lines => row.stats.lines(),
        Sort::Name => 0,
    }
}

/// Rows are ranked by the size of the change in a column, the largest first,
/// and by label where that is the same; or by label alone.
pub open spec fn row_rank(sort: Sort) -> spec_fn(RowModel) -> Seq<int> {
    |row: RowModel|
        if sort is Name {
            order::text_rank(row.label)
        } else {
            seq![-numbers::magnitude(sort_key(row, sort))] + order::text_rank(row.label)
        }
}

/// The first `top` rows; all of them if there is no limit.
pub open spec fn limited<T>(rows: Seq<T>, top: Option<usize>) -> Seq<T> {
    match top {
        Some(n) => if n < rows.len() {
            rows.take(n as int)
        } else {
            rows
        },
        None => rows,
    }
}

/// Rows sorted and cut off.
pub open spec fn finished(rows: Seq<RowModel>, sort: Sort, top: Option<usize>) -> Seq<RowModel> {
    limited(order::sorted_by(rows, row_rank(sort)), top)
}

fn sort_key_of(row: &Row, sort: Sort) -> (r: i128)
    ensures
        r == sort_key(row@, sort),
        -0x10_0000_0000_0000_0000 <= r <= 0x10_0000_0000_0000_0000,
{
    let p = &row.stats.prod;
    let t = &row.stats.test;
    match sort {
        Sort::Code => p.code as i128 + t.code as i128,
        Sort::Comments => p.comments as i128 + t.comments as i128,
        Sort::Blanks => p.blanks as i128 + t.blanks as i128,
        Sort::Test => t.code as i128,
        Sort::Lines => p.code as i128 + t.code as i128 + (p.comments as i128 + t.comments as i128)
            + (p.blanks as i128 + t.blanks as i128),
        Sort::Name => 0,
    }
}

/// Whether `a` comes before `b`.
fn row_before(a: &Row, b: &Row, sort: Sort) -> (r: bool)
    ensures
        r == order::before(row_rank(sort)(a@), row_rank(sort)(b@)),
{
    if sort == Sort::Name {
        return order::text_before(a.label.as_str(), b.label.as_str());
    }
    let x = sort_key_of(a, sort);
    let y = sort_key_of(b, sort);
    let x: i128 = if x < 0 {
        -x
    } else {
        x
    };
    let y: i128 = if y < 0 {
        -y
    } else {
        y
    };
    proof {
        let m = row_rank(sort)(a@);
        let n = row_rank(sort)(b@);
        assert(m[0] == -x);
        assert(n[0] == -y);
        assert(m.skip(1) =~= order::text_rank(a@.label));
        assert(n.skip(1) =~= order::text_rank(b@.label));
    }
    x > y || (x == y && order::text_before(a.label.as_str(), b.label.as_str()))
}

/// Sorts rows and applies the limit.
pub fn finish(rows: Vec<Row>, sort: Sort, top: Option<usize>) -> (r: Vec<Row>)
    ensures
        row_views(r@) == finished(row_views(rows@), sort, top),
{
    let ghost rank = |row: Row| row_rank(sort)(row@);
    let ghost view = |row: Row| row@;
    let ghost all = rows@;
    let comes_before = |a: &Row, b: &Row| -> (c: bool)
        ensures
            c == order::before(row_rank(sort)(a@), row_rank(sort)(b@)),
        { row_before(a, b, sort) };
    let mut rows = order::stable_sort(rows, comes_before, Ghost(rank));
    proof {
        order::lemma_sorted_map(all, view, rank, row_rank(sort));
        assert(row_views(rows@) =~= rows@.map_values(view));
        assert(row_views(all) =~= all.map_values(view));
    }
    if let Some(n) = top {
        if n < rows.len() {
            let ghost whole = rows@;
            rows.truncate(n);
            assert(row_views(rows@) =~= row_views(whole).take(n as int));
        }
    }
    rows
}

/// The files and counts of some rows, added up; family roll-ups do not count.
pub open spec fn totals(rows: Seq<RowModel>) -> (int, SplitTally)
    decreases rows.len(),
{
    if rows.len() == 0 {
        (0, SplitTally::zero())
    } else {
        let rest = totals(rows.drop_last());
        let last = rows.last();
        if last.kind is Family {
            rest
        } else {
            (rest.0 + last.files, rest.1.plus(last.stats))
        }
    }
}

/// Counts within the range of an `i64`.
pub open spec fn tally_in_i64(tally: Tally) -> bool {
    report::in_i64(tally.code) && report::in_i64(tally.comments) && report::in_i64(tally.blanks)
}

/// Files and counts within the range of an `i64`.
pub open spec fn totals_in_i64(sum: (int, SplitTally)) -> bool {
    report::in_i64(sum.0) && tally_in_i64(sum.1.prod) && tally_in_i64(sum.1.test)
}

/// Adding the rows up stays within the range of an `i64`.
pub open spec fn totals_fit(rows: Seq<RowModel>) -> bool {
    forall|n: int| 0 <= n <= rows.len() ==> totals_in_i64(totals(#[trigger] rows.take(n)))
}

/// The row that adds up some rows.
pub open spec fn total_model(rows: Seq<RowModel>) -> RowModel {
    RowModel {
        label: "TOTAL"@,
        files: totals(rows).0,
        stats: totals(rows).1,
        family: None,
        kind: RowKind::Plain,
    }
}

/// Adds the rows up.
pub fn total_row(rows: &[Row]) -> (r: Row)
    requires
        totals_fit(row_views(rows@)),
    ensures
        r@ == total_model(row_views(rows@)),
{
    let ghost all = row_views(rows@);
    let mut files: i64 = 0;
    let mut stats = SignedStats::default();
    let mut i: usize = 0;
    assert(totals(all.take(0)) == (0int, SplitTally::zero()));
    while i < rows.len()
        invariant
            i <= rows.len(),
            all == row_views(rows@),
            totals_fit(all),
            (files as int, stats@) == totals(all.take(i as int)),
        decreases rows.len() - i,
    {
        let row = &rows[i];
        proof {
            assert(all[i as int] == row@);
            assert(all.take(i + 1).drop_last() =~= all.take(i as int));
            assert(totals_in_i64(totals(all.take(i + 1))));
        }
        if row.kind != RowKind::Family {
            files = files + row.files;
            stats = sum_stats(stats, row.stats);
        }
        i = i + 1;
    }
    assert(all.take(i as int) =~= all);
    Row::new("TOTAL".to_owned(), files, stats)
}

// ---------------------------------------------------------------------------
// Families
// ---------------------------------------------------------------------------

/// The family of a row; the empty text if it has none.
pub open spec fn family_or_empty(row: RowModel) -> Seq<char> {
    match row.family {
        Some(family) => family,
        None => Seq::empty(),
    }
}

/// The families of some rows, each once, in the order in which they come up.
pub open spec fn families_seen(rows: Seq<RowModel>) -> Seq<Seq<char>>
    decreases rows.len(),
{
    if rows.len() == 0 {
        Seq::empty()
    } else {
        let rest = families_seen(rows.drop_last());
        let family = family_or_empty(rows.last());
        if rest.contains(family) {
            rest
        } else {
            rest.push(family)
        }
    }
}

/// The rows of one family, in their order.
pub open spec fn members(rows: Seq<RowModel>, family: Seq<char>) -> Seq<RowModel>
    decreases rows.len(),
{
    if rows.len() == 0 {
        Seq::empty()
    } else {
        let rest = members(rows.drop_last(), family);
        if family_or_empty(rows.last()) == family {
            rest.push(rows.last())
        } else {
            rest
        }
    }
}

/// The roll-up of a family.
pub open spec fn family_row(family: Seq<char>, rows: Seq<RowModel>) -> RowModel {
    RowModel {
        label: family,
        files: totals(rows).0,
        stats: totals(rows).1,
        family: Some(family),
        kind: RowKind::Family,
    }
}

/// The rows of a family as they stand below its roll-up.
pub open spec fn member_rows(rows: Seq<RowModel>) -> Seq<RowModel> {
    Seq::new(
        rows.len(),
        |i: int|
            RowModel {
                kind: if i == rows.len() - 1 {
                    RowKind::Member { last: true }
                } else if rows[i].kind is Plain {
                    RowKind::Member { last: false }
                } else {
                    rows[i].kind
                },
                ..rows[i]
            },
    )
}

/// Each family's roll-up and the rows below it.
pub open spec fn family_blocks(rows: Seq<RowModel>) -> Seq<(RowModel, Seq<RowModel>)> {
    families_seen(rows).map_values(
        |family: Seq<char>|
            (family_row(family, members(rows, family)), member_rows(members(rows, family))),
    )
}

/// Families are ranked by their roll-ups.
pub open spec fn block_rank(sort: Sort) -> spec_fn((RowModel, Seq<RowModel>)) -> Seq<int> {
    |block: (RowModel, Seq<RowModel>)| row_rank(sort)(block.0)
}

/// The roll-ups, each followed by the rows below it.
pub open spec fn interleaved(blocks: Seq<(RowModel, Seq<RowModel>)>) -> Seq<RowModel>
    decreases blocks.len(),
{
    if blocks.len() == 0 {
        Seq::empty()
    } else {
        interleaved(blocks.drop_last()).push(blocks.last().0) + blocks.last().1
    }
}

/// No row has a family.
pub open spec fn ungrouped(rows: Seq<RowModel>) -> bool {
    forall|i: int| 0 <= i < rows.len() ==> (#[trigger] rows[i]).family is None
}

/// Rows with the family roll-ups among them. Families are ordered by the same
/// column as the rows.
pub open spec fn with_families(rows: Seq<RowModel>, sort: Sort) -> Seq<RowModel> {
    if ungrouped(rows) {
        rows
    } else {
        interleaved(order::sorted_by(family_blocks(rows), block_rank(sort)))
    }
}

/// Adding up any one family stays within the range of an `i64`.
pub open spec fn families_fit(rows: Seq<RowModel>) -> bool {
    forall|k: int|
        0 <= k < families_seen(rows).len() ==> totals_fit(
            members(rows, #[trigger] families_seen(rows)[k]),
        )
}

/// What a family and its rows say.
pub open spec fn block_views(blocks: Seq<(Row, Vec<Row>)>) -> Seq<(RowModel, Seq<RowModel>)> {
    blocks.map_values(|b: (Row, Vec<Row>)| (b.0@, row_views(b.1@)))
}

/// Whether a row has no family.
fn lacks_family(row: &Row) -> (r: bool)
    ensures
        r == (row@.family is None),
{
    row.family.is_none()
}

/// The family of a row; the empty text if it has none.
fn family_text(row: &Row) -> (r: String)
    ensures
        r@ == family_or_empty(row@),
{
    match &row.family {
        Some(family) => family.clone(),
        None => {
            let empty = String::new();
            assert(empty@ =~= Seq::empty());
            empty
        },
    }
}

/// The rows of each family, in the order in which families come up.
fn collect_members(rows: Vec<Row>) -> (r: Vec<(String, Vec<Row>)>)
    ensures
        r@.len() == families_seen(row_views(rows@)).len(),
        forall|k: int|
            0 <= k < r@.len() ==> (#[trigger] r@[k]).0@ == families_seen(row_views(rows@))[k]
                && row_views(r@[k].1@) == members(
                row_views(rows@),
                families_seen(row_views(rows@))[k],
            ),
{
    let ghost all = row_views(rows@);
    let ghost given = rows@;
    let mut rest = rows;
    let mut blocks: Vec<(String, Vec<Row>)> = Vec::new();
    let ghost mut done: int = 0;
    while rest.len() > 0
        invariant
            all == row_views(given),
            0 <= done,
            done + rest.len() == all.len(),
            forall|k: int| 0 <= k < rest.len() ==> rest@[k] == given[done + k],
            blocks@.len() == families_seen(all.take(done)).len(),
            forall|k: int|
                0 <= k < blocks@.len() ==> (#[trigger] blocks@[k]).0@ == families_seen(
                    all.take(done),
                )[k] && row_views(blocks@[k].1@) == members(
                    all.take(done),
                    families_seen(all.take(done))[k],
                ),
        decreases rest.len(),
    {
        let ghost seen = families_seen(all.take(done));
        let ghost now = all.take(done);
        let ghost next = all.take(done + 1);
        let row = rest.remove(0);
        proof {
            assert(all[done] == row@);
            assert(next.drop_last() =~= now);
            assert(next.last() == row@);
            lemma_families_distinct(now);
        }
        let family = family_text(&row);
        let mut k: usize = 0;
        while k < blocks.len() && !text::same(blocks[k].0.as_str(), family.as_str())
            invariant
                k <= blocks.len(),
                blocks@.len() == seen.len(),
                forall|j: int| 0 <= j < blocks@.len() ==> (#[trigger] blocks@[j]).0@ == seen[j],
                forall|j: int| 0 <= j < k ==> #[trigger] seen[j] != family@,
            decreases blocks.len() - k,
        {
            assert(blocks@[k as int].0@ == seen[k as int]);
            k = k + 1;
        }
        let ghost before = blocks@;
        if k < blocks.len() {
            assert(seen[k as int] == family@);
            let ghost inner = blocks@[k as int].1@;
            blocks[k].1.push(row);
            proof {
                assert(row_views(inner.push(row)) =~= row_views(inner).push(row@));
                assert forall|j: int| 0 <= j < blocks@.len() implies (#[trigger] blocks@[j]).0@
                    == families_seen(next)[j] && row_views(blocks@[j].1@) == members(
                    next,
                    families_seen(next)[j],
                ) by {
                    assert(before[j].0@ == seen[j]);
                    if j != k {
                        assert(seen[j] != family@);
                    }
                }
            }
        } else {
            assert(!seen.contains(family@));
            let mut own: Vec<Row> = Vec::new();
            own.push(row);
            blocks.push((family, own));
            proof {
                lemma_members_unseen(now, family@);
                assert(row_views(own@) =~= Seq::<RowModel>::empty().push(row@));
                assert forall|j: int| 0 <= j < blocks@.len() implies (#[trigger] blocks@[j]).0@
                    == families_seen(next)[j] && row_views(blocks@[j].1@) == members(
                    next,
                    families_seen(next)[j],
                ) by {
                    if j < seen.len() {
                        assert(before[j].0@ == seen[j]);
                        assert(seen[j] != family@);
                    }
                }
            }
        }
        proof {
            done = done + 1;
        }
    }
    assert(all.take(done) =~= all);
    blocks
}

/// Each family comes up once.
proof fn lemma_families_distinct(rows: Seq<RowModel>)
    ensures
        families_seen(rows).no_duplicates(),
    decreases rows.len(),
{
    if rows.len() > 0 {
        lemma_families_distinct(rows.drop_last());
    }
}

/// A family that has not come up has no rows.
proof fn lemma_members_unseen(rows: Seq<RowModel>, family: Seq<char>)
    requires
        !families_seen(rows).contains(family),
    ensures
        members(rows, family) == Seq::<RowModel>::empty(),
    decreases rows.len(),
{
    if rows.len() > 0 {
        let rest = families_seen(rows.drop_last());
        let last = family_or_empty(rows.last());
        if rest.contains(family) {
            let i = choose|i: int| 0 <= i < rest.len() && rest[i] == family;
            assert(families_seen(rows)[i] == family);
        }
        if last == family {
            assert(families_seen(rows)[rest.len() as int] == family);
        }
        lemma_members_unseen(rows.drop_last(), family);
    }
}

/// Marks the rows of a family as its members.
fn mark_members(rows: Vec<Row>) -> (r: Vec<Row>)
    ensures
        row_views(r@) == member_rows(row_views(rows@)),
{
    let n = rows.len();
    let ghost all = row_views(rows@);
    let mut rows = rows;
    let mut i: usize = 0;
    while i < n
        invariant
            i <= n,
            n == rows.len(),
            all.len() == n,
            forall|k: int| 0 <= k < i ==> (#[trigger] rows@[k])@ == member_rows(all)[k],
            forall|k: int| i <= k < n ==> (#[trigger] rows@[k])@ == all[k],
        decreases n - i,
    {
        assert(rows@[i as int]@ == all[i as int]);
        if i == n - 1 {
            rows[i].kind = RowKind::Member { last: true };
        } else if rows[i].kind == RowKind::Plain {
            rows[i].kind = RowKind::Member { last: false };
        }
        assert(rows@[i as int]@ == member_rows(all)[i as int]);
        i = i + 1;
    }
    assert(row_views(rows@) =~= member_rows(all));
    rows
}

/// Interleaves family roll-ups with the rows they cover. Families are ordered
/// by the same column the rows are sorted on; when sorting by name, the
/// families sort alphabetically too.
pub fn group_families(rows: Vec<Row>, sort: Sort) -> (r: Vec<Row>)
    requires
        families_fit(row_views(rows@)),
    ensures
        row_views(r@) == with_families(row_views(rows@), sort),
{
    let ghost all = row_views(rows@);
    let mut i: usize = 0;
    while i < rows.len() && lacks_family(&rows[i])
        invariant
            i <= rows.len(),
            all == row_views(rows@),
            forall|k: int| 0 <= k < i ==> (#[trigger] all[k]).family is None,
        decreases rows.len() - i,
    {
        assert(all[i as int] == rows@[i as int]@);
        i = i + 1;
    }
    if i == rows.len() {
        return rows;
    }
    assert(all[i as int] == rows@[i as int]@);
    assert(!ungrouped(all));
    let collected = collect_members(rows);
    let ghost seen = families_seen(all);
    let ghost wanted = family_blocks(all);
    let mut rest = collected;
    let mut blocks: Vec<(Row, Vec<Row>)> = Vec::new();
    while rest.len() > 0
        invariant
            families_fit(all),
            seen == families_seen(all),
            wanted == family_blocks(all),
            blocks.len() + rest.len() == seen.len(),
            forall|k: int|
                0 <= k < rest@.len() ==> (#[trigger] rest@[k]).0@ == seen[blocks.len() + k]
                    && row_views(rest@[k].1@) == members(all, seen[blocks.len() + k]),
            block_views(blocks@) == wanted.take(blocks.len() as int),
        decreases rest.len(),
    {
        let ghost at = blocks.len() as int;
        let ghost earlier = block_views(blocks@);
        assert(rest@[0].0@ == seen[at]);
        let ghost later = rest@;
        let (family, children) = rest.remove(0);
        assert forall|k: int| 0 <= k < rest@.len() implies (#[trigger] rest@[k]).0@ == seen[at + 1
            + k] && row_views(rest@[k].1@) == members(all, seen[at + 1 + k]) by {
            assert(later[k + 1] == rest@[k]);
        }
        let mut header = total_row(children.as_slice());
        header.label = family.clone();
        header.family = Some(family);
        header.kind = RowKind::Family;
        let children = mark_members(children);
        assert(header@ == wanted[at].0);
        blocks.push((header, children));
        assert(block_views(blocks@) =~= earlier.push((header@, row_views(children@))));
        assert(wanted.take(at + 1) =~= wanted.take(at).push(wanted[at]));
    }
    assert(wanted.take(blocks.len() as int) =~= wanted);
    let ghost rank = |b: (Row, Vec<Row>)| block_rank(sort)((b.0@, row_views(b.1@)));
    let ghost view = |b: (Row, Vec<Row>)| (b.0@, row_views(b.1@));
    let ghost unsorted = blocks@;
    let comes_before = |a: &(Row, Vec<Row>), b: &(Row, Vec<Row>)| -> (c: bool)
        ensures
            c == order::before(row_rank(sort)(a.0@), row_rank(sort)(b.0@)),
        { row_before(&a.0, &b.0, sort) };
    let sorted = order::stable_sort(blocks, comes_before, Ghost(rank));
    let ghost result = block_views(sorted@);
    proof {
        order::lemma_sorted_map(unsorted, view, rank, block_rank(sort));
        assert(block_views(sorted@) =~= sorted@.map_values(view));
        assert(block_views(unsorted) =~= unsorted.map_values(view));
        assert(result == order::sorted_by(wanted, block_rank(sort)));
    }
    let mut rest = sorted;
    let mut out: Vec<Row> = Vec::new();
    let ghost mut done: int = 0;
    assert(row_views(out@) =~= interleaved(result.take(0)));
    while rest.len() > 0
        invariant
            0 <= done,
            done + rest.len() == result.len(),
            forall|k: int|
                0 <= k < rest@.len() ==> ((#[trigger] rest@[k]).0@, row_views(rest@[k].1@))
                    == result[done + k],
            row_views(out@) == interleaved(result.take(done)),
        decreases rest.len(),
    {
        let ghost earlier = out@;
        let ghost later = rest@;
        let (header, mut children) = rest.remove(0);
        assert((later[0].0@, row_views(later[0].1@)) == result[done]);
        assert forall|k: int| 0 <= k < rest@.len() implies ((#[trigger] rest@[k]).0@, row_views(
            rest@[k].1@,
        )) == result[done + 1 + k] by {
            assert(later[k + 1] == rest@[k]);
        }
        let ghost below = children@;
        out.push(header);
        out.append(&mut children);
        proof {
            assert(out@ =~= earlier.push(header) + below);
            assert(row_views(out@) =~= row_views(earlier).push(header@) + row_views(below));
            assert(result.take(done + 1).drop_last() =~= result.take(done));
            assert(result.take(done + 1).last() == result[done]);
            done = done + 1;
        }
    }
    assert(result.take(done) =~= result);
    out
}

// ---------------------------------------------------------------------------
// Colour
// ---------------------------------------------------------------------------

/// How a piece of text is painted.
#[derive(Debug, Clone, Copy, PartialEq, Eq, Structural)]
pub enum Style {
    Plain,
    Bold,
    Dim,
    Added,
    Removed,
}

impl Style {
    /// `self` unless it is [`Style::Plain`], in which case `other`. Lets a row
    /// style (bold for a family) win over a per-cell one.
    pub open spec fn or_model(self, other: Style) -> Style {
        if self is Plain {
            other
        } else {
            self
        }
    }

    fn or(self, other: Style) -> (r: Style)
        ensures
            r == self.or_model(other),
    {
        match self {
            Style::Plain => other,
            style => style,
        }
    }

    /// The escape sequence that switches a style on.
    pub open spec fn code_model(self) -> Seq<char> {
        match self {
            Style::Plain => ""@,
            Style::Bold => "\x1b[1m"@,
            Style::Dim => "\x1b[2m"@,
            Style::Added => "\x1b[32m"@,
            Style::Removed => "\x1b[31m"@,
        }
    }

    fn code(self) -> (r: &'static str)
        ensures
            r@ == self.code_model(),
    {
        match self {
            Style::Plain => "",
            Style::Bold => "\x1b[1m",
            Style::Dim => "\x1b[2m",
            Style::Added => "\x1b[32m",
            Style::Removed => "\x1b[31m",
        }
    }
}

/// A text between the escape sequences of its style. Nothing is painted with
/// colour off, and neither is an empty text.
pub open spec fn painted(s: Seq<char>, style: Style, color: bool) -> Seq<char> {
    if !color || style is Plain || s.len() == 0 {
        s
    } else {
        style.code_model() + s + "\x1b[0m"@
    }
}

fn paint(s: &str, style: Style, color: bool) -> (r: String)
    ensures
        r@ == painted(s@, style, color),
{
    if !color || style == Style::Plain || s.unicode_len() == 0 {
        return s.to_owned();
    }
    let mut out = style.code().to_owned();
    out.append(s);
    out.append("\x1b[0m");
    out
}

/// Gains and losses get colour in a diff; plain counts stay plain.
pub open spec fn number_style(cell: Seq<char>, signed: bool) -> Style {
    if !signed || cell.len() == 0 {
        Style::Plain
    } else if cell[0] == '+' {
        Style::Added
    } else if cell[0] == '-' {
        Style::Removed
    } else {
        Style::Plain
    }
}

fn number_style_of(cell: &str, signed: bool) -> (r: Style)
    ensures
        r == number_style(cell@, signed),
{
    if !signed || cell.unicode_len() == 0 {
        return Style::Plain;
    }
    let first = cell.get_char(0);
    if first == '+' {
        Style::Added
    } else if first == '-' {
        Style::Removed
    } else {
        Style::Plain
    }
}

// ---------------------------------------------------------------------------
// The table
// ---------------------------------------------------------------------------

/// `DOC` is comment lines: documentation, in the sense that matters here.
/// `IMPL`, `DOC` and `TEST` are disjoint. Blanks have no column of their own;
/// they are in `TOTAL`, which is every line counted.
pub open spec fn headings() -> Seq<Seq<char>> {
    seq!["FILES"@, "IMPL"@, "DOC"@, "TEST"@, "TOTAL"@, "DOC%"@, "TEST%"@]
}

fn heading_cells() -> (r: Vec<String>)
    ensures
        text::views(r@) == headings(),
{
    let mut out: Vec<String> = Vec::new();
    out.push("FILES".to_owned());
    out.push("IMPL".to_owned());
    out.push("DOC".to_owned());
    out.push("TEST".to_owned());
    out.push("TOTAL".to_owned());
    out.push("DOC%".to_owned());
    out.push("TEST%".to_owned());
    assert(text::views(out@) =~= headings());
    out
}

/// The cells of a row: files, code that is not test code, comments, test code,
/// all lines, comments as a share of all lines, and test code as a share of all
/// code.
pub open spec fn cells(row: RowModel, signed: bool) -> Seq<Seq<char>> {
    let total = row.stats.total();
    seq![
        numbers::number(row.files, signed),
        numbers::number(row.stats.prod.code, signed),
        numbers::number(total.comments, signed),
        numbers::number(row.stats.test.code, signed),
        numbers::number(row.stats.lines(), signed),
        numbers::share_text(total.comments, row.stats.lines()),
        numbers::share_text(row.stats.test.code, total.code),
    ]
}

fn cells_of(row: &Row, signed: bool) -> (r: Vec<String>)
    ensures
        text::views(r@) == cells(row@, signed),
{
    let comments = sort_key_of(row, Sort::Comments);
    let code = sort_key_of(row, Sort::Code);
    let lines = sort_key_of(row, Sort::Lines);
    let test: i128 = row.stats.test.code as i128;
    let mut out: Vec<String> = Vec::new();
    out.push(numbers::number_text(row.files as i128, signed));
    out.push(numbers::number_text(row.stats.prod.code as i128, signed));
    out.push(numbers::number_text(comments, signed));
    out.push(numbers::number_text(test, signed));
    out.push(numbers::number_text(lines, signed));
    out.push(numbers::render_share(comments, lines));
    out.push(numbers::render_share(test, code));
    assert(text::views(out@) =~= cells(row@, signed));
    out
}

/// The tree glyph before a label.
pub open spec fn glyph(kind: RowKind) -> Seq<char> {
    match kind {
        RowKind::Member { last: false } => "├─  "@,
        RowKind::Member { last: true } => "└─  "@,
        _ => ""@,
    }
}

fn glyph_of(kind: RowKind) -> (r: &'static str)
    ensures
        r@ == glyph(kind),
{
    match kind {
        RowKind::Member { last: false } => "├─  ",
        RowKind::Member { last: true } => "└─  ",
        _ => "",
    }
}

/// `n` times the character `c`.
pub open spec fn repeated(c: char, n: int) -> Seq<char> {
    Seq::new(
        if n > 0 {
            n as nat
        } else {
            0
        },
        |i: int| c,
    )
}

pub(crate) fn repeat(c: char, n: u128) -> (r: String)
    ensures
        r@ == repeated(c, n as int),
{
    let mut out = String::new();
    let mut i: u128 = 0;
    assert(out@ =~= repeated(c, 0));
    while i < n
        invariant
            i <= n,
            out@ == repeated(c, i as int),
        decreases n - i,
    {
        text::push_char(&mut out, c);
        i = i + 1;
        assert(out@ =~= repeated(c, i as int));
    }
    out
}

/// A label of `width` characters: the glyph dim, the name in the row's style,
/// and spaces behind them.
pub open spec fn label_text(
    prefix: Seq<char>,
    label: Seq<char>,
    width: int,
    style: Style,
    color: bool,
) -> Seq<char> {
    painted(prefix, Style::Dim, color) + painted(label, style, color) + repeated(
        ' ',
        width - (prefix.len() + label.len()),
    )
}

fn render_label(prefix: &str, label: &str, width: u128, style: Style, color: bool) -> (r: String)
    ensures
        r@ == label_text(prefix@, label@, width as int, style, color),
{
    let own: u128 = prefix.unicode_len() as u128 + label.unicode_len() as u128;
    let pad: u128 = if width > own {
        width - own
    } else {
        0
    };
    let mut out = paint(prefix, Style::Dim, color);
    out.append(paint(label, style, color).as_str());
    out.append(repeat(' ', pad).as_str());
    assert(repeated(' ', pad as int) =~= repeated(' ', width - own));
    out
}

/// A cell pushed to the right end of its column.
pub open spec fn padded(cell: Seq<char>, width: int) -> Seq<char> {
    repeated(' ', width - cell.len()) + cell
}

fn pad(cell: &str, width: u128) -> (r: String)
    ensures
        r@ == padded(cell@, width as int),
{
    let own: u128 = cell.unicode_len() as u128;
    let n: u128 = if width > own {
        width - own
    } else {
        0
    };
    let mut out = repeat(' ', n);
    out.append(cell);
    assert(repeated(' ', n as int) =~= repeated(' ', width - own));
    out
}

/// The cells of a line, each in its column. Cells are padded before they are
/// painted, so escape sequences take no part in the column arithmetic.
pub open spec fn cells_text(
    cells: Seq<Seq<char>>,
    widths: Seq<int>,
    style: Style,
    signed: bool,
    color: bool,
) -> Seq<char>
    decreases cells.len(),
{
    if cells.len() == 0 {
        Seq::empty()
    } else {
        let n = cells.len() - 1;
        cells_text(cells.drop_last(), widths, style, signed, color) + "  "@ + painted(
            padded(cells[n], widths[n]),
            style.or_model(number_style(cells[n], signed)),
            color,
        )
    }
}

/// The larger of two numbers.
pub open spec fn larger(a: int, b: int) -> int {
    if a < b {
        b
    } else {
        a
    }
}

/// How wide column `i` has to be for these lines of cells.
pub open spec fn column_width(lines: Seq<Seq<Seq<char>>>, i: int) -> int
    decreases lines.len(),
{
    if lines.len() == 0 {
        0
    } else {
        larger(column_width(lines.drop_last(), i), lines.last()[i].len() as int)
    }
}

/// How wide the labels are with their glyphs.
pub open spec fn widest_label(rows: Seq<RowModel>) -> int
    decreases rows.len(),
{
    if rows.len() == 0 {
        0
    } else {
        larger(
            widest_label(rows.drop_last()),
            (glyph(rows.last().kind).len() + rows.last().label.len()) as int,
        )
    }
}

/// The lines of cells of a table: the headings, the total, and the rows.
pub open spec fn cell_lines(rows: Seq<RowModel>, signed: bool) -> Seq<Seq<Seq<char>>> {
    seq![headings(), cells(total_model(rows), signed)] + rows.map_values(
        |row: RowModel| cells(row, signed),
    )
}

/// The widths of the seven columns of numbers.
pub open spec fn widths(rows: Seq<RowModel>, signed: bool) -> Seq<int> {
    Seq::new(7, |i: int| column_width(cell_lines(rows, signed), i))
}

/// The width of the label column.
pub open spec fn label_width(rows: Seq<RowModel>, heading: Seq<char>) -> int {
    larger(larger(heading.len() as int, "TOTAL"@.len() as int), widest_label(rows))
}

/// The sum of some numbers.
pub open spec fn sum(s: Seq<int>) -> int
    decreases s.len(),
{
    if s.len() == 0 {
        0
    } else {
        sum(s.drop_last()) + s.last()
    }
}

/// What the lines of a table have in common.
pub struct Layout {
    pub label_width: int,
    pub widths: Seq<int>,
    pub signed: bool,
    pub color: bool,
}

/// One line of a table.
pub open spec fn line_text(
    layout: Layout,
    prefix: Seq<char>,
    label: Seq<char>,
    cells: Seq<Seq<char>>,
    style: Style,
) -> Seq<char> {
    label_text(prefix, label, layout.label_width, style, layout.color) + cells_text(
        cells,
        layout.widths,
        style,
        layout.signed,
        layout.color,
    )
}

/// The line of one row: bold for a family.
pub open spec fn row_text(layout: Layout, row: RowModel) -> Seq<char> {
    line_text(
        layout,
        glyph(row.kind),
        row.label,
        cells(row, layout.signed),
        if row.kind is Family {
            Style::Bold
        } else {
            Style::Plain
        },
    )
}

/// The lines of some rows.
pub open spec fn rows_text(layout: Layout, rows: Seq<RowModel>) -> Seq<char>
    decreases rows.len(),
{
    if rows.len() == 0 {
        Seq::empty()
    } else {
        rows_text(layout, rows.drop_last()) + row_text(layout, rows.last()) + "\n"@
    }
}

/// The rule between the parts of a table, as wide as its lines.
pub open spec fn rule_text(layout: Layout) -> Seq<char> {
    painted(
        repeated('─', layout.label_width + sum(layout.widths) + 2 * layout.widths.len()),
        Style::Dim,
        layout.color,
    ) + "\n"@
}

/// The one-line headline: how much was implementation, test and documentation.
pub open spec fn summary(total: RowModel, signed: bool) -> Seq<char> {
    let stats = total.stats;
    let all = stats.total();
    numbers::number(stats.lines(), signed) + (if signed {
        " lines changed: "@
    } else {
        " lines counted: "@
    }) + numbers::number(stats.prod.code, signed) + " implementation · "@ + numbers::number(
        stats.test.code,
        signed,
    ) + " test ("@ + numbers::share_text(stats.test.code, all.code) + " of code) · "@
        + numbers::number(all.comments, signed) + " documentation ("@ + numbers::share_text(
        all.comments,
        stats.lines(),
    ) + " of all lines)"@
}

/// A whole table.
pub open spec fn table_text(
    header: Seq<char>,
    heading: Seq<char>,
    rows: Seq<RowModel>,
    signed: bool,
    color: bool,
) -> Seq<char> {
    let layout = Layout {
        label_width: label_width(rows, heading),
        widths: widths(rows, signed),
        signed,
        color,
    };
    let total = total_model(rows);
    painted(header, Style::Bold, color) + "\n"@ + rule_text(layout) + line_text(
        layout,
        ""@,
        heading,
        headings(),
        Style::Dim,
    ) + "\n"@ + rule_text(layout) + rows_text(layout, rows) + rule_text(layout) + line_text(
        layout,
        ""@,
        total.label,
        cells(total, signed),
        Style::Bold,
    ) + "\n"@ + rule_text(layout) + summary(total, signed) + "\n"@
}

/// What the lines of a table have in common.
struct Frame {
    label_width: u128,
    widths: Vec<u128>,
    signed: bool,
    color: bool,
}

impl Frame {
    spec fn layout(&self) -> Layout {
        Layout {
            label_width: self.label_width as int,
            widths: self.widths@.map_values(|w: u128| w as int),
            signed: self.signed,
            color: self.color,
        }
    }

    /// One line of the table.
    fn line(&self, prefix: &str, label: &str, cells: &Vec<String>, style: Style) -> (r: String)
        requires
            cells@.len() <= self.widths@.len(),
        ensures
            r@ == line_text(self.layout(), prefix@, label@, text::views(cells@), style),
    {
        let ghost layout = self.layout();
        let ghost all = text::views(cells@);
        let mut out = render_label(prefix, label, self.label_width, style, self.color);
        let ghost start = out@;
        let mut i: usize = 0;
        assert(start + cells_text(all.take(0), layout.widths, style, self.signed, self.color)
            =~= start);
        while i < cells.len()
            invariant
                i <= cells.len(),
                cells@.len() <= self.widths@.len(),
                layout == self.layout(),
                all == text::views(cells@),
                out@ == start + cells_text(
                    all.take(i as int),
                    layout.widths,
                    style,
                    self.signed,
                    self.color,
                ),
            decreases cells.len() - i,
        {
            let ghost done = out@;
            let cell = cells[i].as_str();
            let padded = pad(cell, self.widths[i]);
            let cell_style = style.or(number_style_of(cell, self.signed));
            let piece = paint(padded.as_str(), cell_style, self.color);
            out.append("  ");
            out.append(piece.as_str());
            proof {
                assert(all.take(i + 1).drop_last() =~= all.take(i as int));
                assert(all.take(i + 1)[i as int] == cell@);
                assert(layout.widths[i as int] == self.widths@[i as int]);
                let before = cells_text(
                    all.take(i as int),
                    layout.widths,
                    style,
                    self.signed,
                    self.color,
                );
                assert(start + before + "  "@ + piece@ =~= start + (before + "  "@ + piece@));
            }
            i = i + 1;
        }
        assert(all.take(i as int) =~= all);
        out
    }

    /// The line of one row.
    fn row_line(&self, row: &Row) -> (r: String)
        requires
            self.widths@.len() == 7,
        ensures
            r@ == row_text(self.layout(), row@),
    {
        let style = if row.kind == RowKind::Family {
            Style::Bold
        } else {
            Style::Plain
        };
        let cells = cells_of(row, self.signed);
        assert(text::views(cells@).len() == 7);
        self.line(glyph_of(row.kind), row.label.as_str(), &cells, style)
    }

    /// The rule between the parts of the table.
    fn rule(&self) -> (r: String)
        requires
            self.widths@.len() == 7,
            self.label_width < 0x100_0000_0000_0000_0000,
            forall|i: int|
                0 <= i < 7 ==> (#[trigger] self.widths@[i]) < 0x100_0000_0000_0000_0000,
        ensures
            r@ == rule_text(self.layout()),
    {
        let ghost all = self.layout().widths;
        let mut width: u128 = 0;
        let mut i: usize = 0;
        while i < self.widths.len()
            invariant
                i <= self.widths.len(),
                self.widths@.len() == 7,
                all == self.layout().widths,
                forall|i: int|
                    0 <= i < 7 ==> (#[trigger] self.widths@[i]) < 0x100_0000_0000_0000_0000,
                width == sum(all.take(i as int)),
                width <= i * 0x100_0000_0000_0000_0000,
            decreases self.widths.len() - i,
        {
            assert(all.take(i + 1).drop_last() =~= all.take(i as int));
            assert(all.take(i + 1).last() == self.widths@[i as int]);
            width = width + self.widths[i];
            i = i + 1;
        }
        assert(all.take(i as int) =~= all);
        let bar = repeat('─', self.label_width + width + 14);
        let mut out = paint(bar.as_str(), Style::Dim, self.color);
        out.append("\n");
        out
    }
}

/// How wide column `i` has to be for these lines of cells.
fn column_width_of(lines: &Vec<Vec<String>>, i: usize) -> (r: u128)
    requires
        forall|k: int| 0 <= k < lines@.len() ==> i < (#[trigger] lines@[k])@.len(),
    ensures
        r == column_width(lines@.map_values(|l: Vec<String>| text::views(l@)), i as int),
        r <= usize::MAX,
{
    let ghost all = lines@.map_values(|l: Vec<String>| text::views(l@));
    let mut width: usize = 0;
    let mut k: usize = 0;
    while k < lines.len()
        invariant
            k <= lines.len(),
            all == lines@.map_values(|l: Vec<String>| text::views(l@)),
            forall|k: int| 0 <= k < lines@.len() ==> i < (#[trigger] lines@[k])@.len(),
            width == column_width(all.take(k as int), i as int),
        decreases lines.len() - k,
    {
        assert(all.take(k + 1).drop_last() =~= all.take(k as int));
        assert(all.take(k + 1).last() == text::views(lines@[k as int]@));
        assert(i < lines@[k as int]@.len());
        let own = lines[k][i].as_str().unicode_len();
        if own > width {
            width = own;
        }
        k = k + 1;
    }
    assert(all.take(k as int) =~= all);
    width as u128
}

/// How wide the labels are with their glyphs.
fn widest_label_of(rows: &[Row]) -> (r: u128)
    ensures
        r == widest_label(row_views(rows@)),
        r < 0x100_0000_0000_0000_0000,
{
    let ghost all = row_views(rows@);
    let mut width: u128 = 0;
    let mut i: usize = 0;
    while i < rows.len()
        invariant
            i <= rows.len(),
            all == row_views(rows@),
            width == widest_label(all.take(i as int)),
            width < 0x100_0000_0000_0000_0000,
        decreases rows.len() - i,
    {
        assert(all.take(i + 1).drop_last() =~= all.take(i as int));
        assert(all.take(i + 1).last() == rows@[i as int]@);
        let own: u128 = glyph_of(rows[i].kind).unicode_len() as u128
            + rows[i].label.as_str().unicode_len() as u128;
        if own > width {
            width = own;
        }
        i = i + 1;
    }
    assert(all.take(i as int) =~= all);
    width
}

/// The one-line headline: how much was implementation, test and documentation.
fn summary_of(total: &Row, signed: bool) -> (r: String)
    ensures
        r@ == summary(total@, signed),
{
    let comments = sort_key_of(total, Sort::Comments);
    let code = sort_key_of(total, Sort::Code);
    let lines = sort_key_of(total, Sort::Lines);
    let test: i128 = total.stats.test.code as i128;
    let mut out = numbers::number_text(lines, signed);
    out.append(
        if signed {
            " lines changed: "
        } else {
            " lines counted: "
        },
    );
    out.append(numbers::number_text(total.stats.prod.code as i128, signed).as_str());
    out.append(" implementation · ");
    out.append(numbers::number_text(test, signed).as_str());
    out.append(" test (");
    out.append(numbers::render_share(test, code).as_str());
    out.append(" of code) · ");
    out.append(numbers::number_text(comments, signed).as_str());
    out.append(" documentation (");
    out.append(numbers::render_share(comments, lines).as_str());
    out.append(" of all lines)");
    out
}

/// The lines of cells of a table: the headings, the total, and the rows.
fn cell_lines_of(rows: &[Row], total: &Row, signed: bool) -> (r: Vec<Vec<String>>)
    requires
        total@ == total_model(row_views(rows@)),
    ensures
        r@.map_values(|l: Vec<String>| text::views(l@)) == cell_lines(row_views(rows@), signed),
        forall|k: int| 0 <= k < r@.len() ==> (#[trigger] r@[k])@.len() == 7,
{
    let ghost all = row_views(rows@);
    let ghost wanted = cell_lines(all, signed);
    let mut lines: Vec<Vec<String>> = Vec::new();
    lines.push(heading_cells());
    lines.push(cells_of(total, signed));
    proof {
        assert(text::views(lines@[0]@).len() == 7);
        assert(text::views(lines@[1]@).len() == 7);
        assert(lines@.map_values(|l: Vec<String>| text::views(l@)) =~= wanted.take(2));
    }
    let mut i: usize = 0;
    while i < rows.len()
        invariant
            i <= rows.len(),
            all == row_views(rows@),
            wanted == cell_lines(all, signed),
            lines@.map_values(|l: Vec<String>| text::views(l@)) == wanted.take(i + 2),
            forall|k: int| 0 <= k < lines@.len() ==> (#[trigger] lines@[k])@.len() == 7,
        decreases rows.len() - i,
    {
        let ghost done = lines@.map_values(|l: Vec<String>| text::views(l@));
        let line = cells_of(&rows[i], signed);
        assert(text::views(line@).len() == 7);
        lines.push(line);
        assert(lines@.map_values(|l: Vec<String>| text::views(l@)) =~= done.push(
            text::views(line@),
        ));
        assert(wanted[i + 2] == text::views(line@));
        assert(wanted.take(i + 3) =~= wanted.take(i + 2).push(wanted[i + 2]));
        i = i + 1;
    }
    assert(wanted.take(i + 2) =~= wanted);
    lines
}

/// Renders the table, including a rule and a TOTAL line.
///
/// When the rows carry families, the label column becomes a tree: the family
/// roll-up flush left, its languages beneath it behind a box-drawing glyph.
pub fn table(
    header: &str,
    label_heading: &str,
    rows: &[Row],
    signed: bool,
    color: bool,
) -> (r: String)
    requires
        totals_fit(row_views(rows@)),
    ensures
        r@ == table_text(header@, label_heading@, row_views(rows@), signed, color),
{
    let ghost all = row_views(rows@);
    let total = total_row(rows);
    let lines = cell_lines_of(rows, &total, signed);
    let ghost line_cells = cell_lines(all, signed);
    let mut widths_found: Vec<u128> = Vec::new();
    let mut i: usize = 0;
    while i < 7
        invariant
            i <= 7,
            line_cells == cell_lines(all, signed),
            lines@.map_values(|l: Vec<String>| text::views(l@)) == line_cells,
            forall|k: int| 0 <= k < lines@.len() ==> (#[trigger] lines@[k])@.len() == 7,
            widths_found.len() == i,
            forall|k: int|
                0 <= k < i ==> (#[trigger] widths_found@[k]) == column_width(line_cells, k)
                    && widths_found@[k] <= usize::MAX,
        decreases 7 - i,
    {
        widths_found.push(column_width_of(&lines, i));
        i = i + 1;
    }
    let mut label_width_found: u128 = label_heading.unicode_len() as u128;
    let total_width: u128 = total.label.as_str().unicode_len() as u128;
    if total_width > label_width_found {
        label_width_found = total_width;
    }
    let widest = widest_label_of(rows);
    if widest > label_width_found {
        label_width_found = widest;
    }
    let frame = Frame { label_width: label_width_found, widths: widths_found, signed, color };
    let ghost layout = Layout {
        label_width: label_width(all, label_heading@),
        widths: widths(all, signed),
        signed,
        color,
    };
    assert(frame.layout().widths =~= layout.widths);
    assert(frame.layout() == layout);
    let rule = frame.rule();
    let headings_found = heading_cells();
    assert(text::views(headings_found@).len() == 7);
    let mut out = paint(header, Style::Bold, color);
    out.append("\n");
    out.append(rule.as_str());
    out.append(frame.line("", label_heading, &headings_found, Style::Dim).as_str());
    out.append("\n");
    out.append(rule.as_str());
    let ghost start = out@;
    let mut i: usize = 0;
    assert(start + rows_text(layout, all.take(0)) =~= start);
    while i < rows.len()
        invariant
            i <= rows.len(),
            all == row_views(rows@),
            frame.layout() == layout,
            frame.widths@.len() == 7,
            out@ == start + rows_text(layout, all.take(i as int)),
        decreases rows.len() - i,
    {
        let line = frame.row_line(&rows[i]);
        out.append(line.as_str());
        out.append("\n");
        proof {
            assert(all.take(i + 1).drop_last() =~= all.take(i as int));
            assert(all.take(i + 1).last() == rows@[i as int]@);
            let before = rows_text(layout, all.take(i as int));
            assert(start + before + line@ + "\n"@ =~= start + (before + line@ + "\n"@));
        }
        i = i + 1;
    }
    assert(all.take(i as int) =~= all);
    out.append(rule.as_str());
    let total_cells = cells_of(&total, signed);
    assert(text::views(total_cells@).len() == 7);
    out.append(frame.line("", total.label.as_str(), &total_cells, Style::Bold).as_str());
    out.append("\n");
    out.append(rule.as_str());
    out.append(summary_of(&total, signed).as_str());
    out.append("\n");
    out
}

// ---------------------------------------------------------------------------
// CSV
// ---------------------------------------------------------------------------

/// A character that a field has to be quoted for.
pub open spec fn needs_quotes(c: char) -> bool {
    c == ',' || c == '"' || c == '\n'
}

/// A text with each quote character doubled.
pub open spec fn doubled(s: Seq<char>) -> Seq<char>
    decreases s.len(),
{
    if s.len() == 0 {
        Seq::empty()
    } else if s.last() == '"' {
        doubled(s.drop_last()).push('"').push('"')
    } else {
        doubled(s.drop_last()).push(s.last())
    }
}

/// A field, quoted if it has to be.
pub open spec fn escaped(field: Seq<char>) -> Seq<char> {
    if exists|i: int| 0 <= i < field.len() && needs_quotes(#[trigger] field[i]) {
        "\""@ + doubled(field) + "\""@
    } else {
        field
    }
}

fn escape(field: &str) -> (r: String)
    ensures
        r@ == escaped(field@),
{
    let chars = text::chars_of(field);
    let mut special = false;
    let mut body = String::new();
    let mut i: usize = 0;
    assert(body@ =~= doubled(field@.take(0)));
    while i < chars.len()
        invariant
            i <= chars.len(),
            chars@ == field@,
            body@ == doubled(field@.take(i as int)),
            special == (exists|k: int| 0 <= k < i && needs_quotes(#[trigger] field@[k])),
        decreases chars.len() - i,
    {
        let c = chars[i];
        assert(field@.take(i + 1).drop_last() =~= field@.take(i as int));
        assert(field@.take(i + 1).last() == c);
        if c == ',' || c == '"' || c == '\n' {
            assert(needs_quotes(field@[i as int]));
            special = true;
        }
        if c == '"' {
            text::push_char(&mut body, '"');
        }
        text::push_char(&mut body, c);
        i = i + 1;
    }
    assert(field@.take(i as int) =~= field@);
    if special {
        let mut out = "\"".to_owned();
        out.append(body.as_str());
        out.append("\"");
        out
    } else {
        field.to_owned()
    }
}

/// Some row has a family.
pub open spec fn any_family(rows: Seq<RowModel>) -> bool {
    exists|i: int| 0 <= i < rows.len() && (#[trigger] rows[i]).family is Some
}

/// One line of CSV: the family if there are families, the label, the files, six
/// counts that no line is in two of, and their sum.
pub open spec fn csv_line(row: RowModel, families: bool) -> Seq<char> {
    let prod = row.stats.prod;
    let test = row.stats.test;
    (if families {
        escaped(family_or_empty(row)) + ","@
    } else {
        ""@
    }) + escaped(row.label) + ","@ + numbers::decimal(row.files) + ","@ + numbers::decimal(
        prod.code,
    ) + ","@ + numbers::decimal(prod.comments) + ","@ + numbers::decimal(prod.blanks) + ","@
        + numbers::decimal(test.code) + ","@ + numbers::decimal(test.comments) + ","@
        + numbers::decimal(test.blanks) + ","@ + numbers::decimal(row.stats.lines()) + "\n"@
}

/// The lines of some rows.
pub open spec fn csv_lines(rows: Seq<RowModel>, families: bool) -> Seq<char>
    decreases rows.len(),
{
    if rows.len() == 0 {
        Seq::empty()
    } else {
        csv_lines(rows.drop_last(), families) + csv_line(rows.last(), families)
    }
}

/// CSV with a line of headings, the rows, and the total.
pub open spec fn csv_text(heading: Seq<char>, rows: Seq<RowModel>) -> Seq<char> {
    let families = any_family(rows);
    (if families {
        "family,"@
    } else {
        ""@
    }) + text::lowercased(heading)
        + ",files,impl_code,impl_comments,impl_blanks,test_code,test_comments,test_blanks,total\n"@
        + csv_lines(rows, families) + csv_line(total_model(rows), families)
}

fn csv_line_of(row: &Row, families: bool) -> (r: String)
    ensures
        r@ == csv_line(row@, families),
{
    let lines = sort_key_of(row, Sort::Lines);
    let prod = &row.stats.prod;
    let test = &row.stats.test;
    let mut out = if families {
        let mut family = escape(family_text(row).as_str());
        family.append(",");
        family
    } else {
        "".to_owned()
    };
    out.append(escape(row.label.as_str()).as_str());
    out.append(",");
    out.append(numbers::decimal_of(row.files as i128).as_str());
    out.append(",");
    out.append(numbers::decimal_of(prod.code as i128).as_str());
    out.append(",");
    out.append(numbers::decimal_of(prod.comments as i128).as_str());
    out.append(",");
    out.append(numbers::decimal_of(prod.blanks as i128).as_str());
    out.append(",");
    out.append(numbers::decimal_of(test.code as i128).as_str());
    out.append(",");
    out.append(numbers::decimal_of(test.comments as i128).as_str());
    out.append(",");
    out.append(numbers::decimal_of(test.blanks as i128).as_str());
    out.append(",");
    out.append(numbers::decimal_of(lines).as_str());
    out.append("\n");
    out
}

/// Renders rows as CSV, with a TOTAL line.
pub fn csv(label_heading: &str, rows: &[Row]) -> (r: String)
    requires
        totals_fit(row_views(rows@)),
    ensures
        r@ == csv_text(label_heading@, row_views(rows@)),
{
    let ghost all = row_views(rows@);
    let mut families = false;
    let mut i: usize = 0;
    while i < rows.len()
        invariant
            i <= rows.len(),
            all == row_views(rows@),
            families == (exists|k: int| 0 <= k < i && (#[trigger] all[k]).family is Some),
        decreases rows.len() - i,
    {
        assert(all[i as int] == rows@[i as int]@);
        if !lacks_family(&rows[i]) {
            families = true;
        }
        i = i + 1;
    }
    assert(families == any_family(all));
    let mut out = if families {
        "family,".to_owned()
    } else {
        "".to_owned()
    };
    out.append(text::to_lowercase(label_heading).as_str());
    out.append(
        ",files,impl_code,impl_comments,impl_blanks,test_code,test_comments,test_blanks,total\n",
    );
    let ghost start = out@;
    let mut i: usize = 0;
    assert(start + csv_lines(all.take(0), families) =~= start);
    while i < rows.len()
        invariant
            i <= rows.len(),
            all == row_views(rows@),
            out@ == start + csv_lines(all.take(i as int), families),
        decreases rows.len() - i,
    {
        let line = csv_line_of(&rows[i], families);
        out.append(line.as_str());
        proof {
            assert(all.take(i + 1).drop_last() =~= all.take(i as int));
            assert(all.take(i + 1).last() == rows@[i as int]@);
            let before = csv_lines(all.take(i as int), families);
            assert(start + before + line@ =~= start + (before + line@));
        }
        i = i + 1;
    }
    assert(all.take(i as int) =~= all);
    let total = total_row(rows);
    out.append(csv_line_of(&total, families).as_str());
    out
}

// ---------------------------------------------------------------------------
// JSON
// ---------------------------------------------------------------------------

/// A number in JSON.
pub open spec fn number_tree(n: int) -> Tree {
    Tree::Number(numbers::decimal(n))
}

/// Counts in JSON.
pub open spec fn counts_tree(tally: Tally) -> Tree {
    Tree::Table(
        seq![
            ("blanks"@, number_tree(tally.blanks)),
            ("code"@, number_tree(tally.code)),
            ("comments"@, number_tree(tally.comments)),
        ],
    )
}

/// A row in JSON: `impl` and `test` are disjoint and add up to `lines`, and
/// there is no roll-up spanning the two.
pub open spec fn row_tree(row: RowModel) -> Tree {
    Tree::Table(
        (match row.family {
            Some(family) => seq![("family"@, Tree::Text(family))],
            None => Seq::empty(),
        }) + seq![
            ("files"@, number_tree(row.files)),
            ("impl"@, counts_tree(row.stats.prod)),
            ("label"@, Tree::Text(row.label)),
            ("lines"@, number_tree(row.stats.lines())),
            ("test"@, counts_tree(row.stats.test)),
        ],
    )
}

/// A whole report in JSON.
pub open spec fn report_tree(
    source: Seq<char>,
    dimension: Seq<char>,
    rows: Seq<RowModel>,
    diff: bool,
) -> Tree {
    Tree::Table(
        seq![
            ("diff"@, Tree::Bool(diff)),
            ("dimension"@, Tree::Text(dimension)),
            ("rows"@, Tree::List(rows.map_values(|row: RowModel| row_tree(row)))),
            ("source"@, Tree::Text(source)),
            ("total"@, row_tree(total_model(rows))),
        ],
    )
}

/// The lines of a row are within the range of an `i64`.
pub open spec fn lines_fit(row: RowModel) -> bool {
    report::in_i64(row.stats.lines())
}

/// The keys of the tables are in order.
proof fn lemma_key_order()
    ensures
        order::before(order::text_rank("blanks"@), order::text_rank("code"@)),
        order::before(order::text_rank("code"@), order::text_rank("comments"@)),
        order::before(order::text_rank("family"@), order::text_rank("files"@)),
        order::before(order::text_rank("files"@), order::text_rank("impl"@)),
        order::before(order::text_rank("impl"@), order::text_rank("label"@)),
        order::before(order::text_rank("label"@), order::text_rank("lines"@)),
        order::before(order::text_rank("lines"@), order::text_rank("test"@)),
        order::before(order::text_rank("diff"@), order::text_rank("dimension"@)),
        order::before(order::text_rank("dimension"@), order::text_rank("rows"@)),
        order::before(order::text_rank("rows"@), order::text_rank("source"@)),
        order::before(order::text_rank("source"@), order::text_rank("total"@)),
{
    reveal_strlit("blanks");
    reveal_strlit("code");
    reveal_strlit("comments");
    reveal_strlit("family");
    reveal_strlit("files");
    reveal_strlit("impl");
    reveal_strlit("label");
    reveal_strlit("lines");
    reveal_strlit("test");
    reveal_strlit("diff");
    reveal_strlit("dimension");
    reveal_strlit("rows");
    reveal_strlit("source");
    reveal_strlit("total");
    order::lemma_ascii_before("blanks"@, "code"@, 0);
    order::lemma_ascii_before("code"@, "comments"@, 2);
    order::lemma_ascii_before("family"@, "files"@, 1);
    order::lemma_ascii_before("files"@, "impl"@, 0);
    order::lemma_ascii_before("impl"@, "label"@, 0);
    order::lemma_ascii_before("label"@, "lines"@, 1);
    order::lemma_ascii_before("lines"@, "test"@, 0);
    order::lemma_ascii_before("diff"@, "dimension"@, 2);
    order::lemma_ascii_before("dimension"@, "rows"@, 0);
    order::lemma_ascii_before("rows"@, "source"@, 0);
    order::lemma_ascii_before("source"@, "total"@, 0);
}

fn counts_value(counts: &SignedCounts) -> (r: Value)
    ensures
        json::tree_of_value(r) == counts_tree(counts@),
{
    let mut entries: Vec<(String, Value)> = Vec::new();
    entries.push(("blanks".to_owned(), json::number_value(counts.blanks)));
    entries.push(("code".to_owned(), json::number_value(counts.code)));
    entries.push(("comments".to_owned(), json::number_value(counts.comments)));
    proof {
        lemma_key_order();
        let all = json::value_entries(entries@);
        assert(all =~= counts_tree(counts@)->Table_0);
        json::lemma_keys_ascend(all);
    }
    json::table_value(entries)
}

fn row_value(row: &Row) -> (r: Value)
    requires
        lines_fit(row@),
    ensures
        json::tree_of_value(r) == row_tree(row@),
{
    let lines: i64 = sort_key_of(row, Sort::Lines) as i64;
    let mut entries: Vec<(String, Value)> = Vec::new();
    if let Some(family) = &row.family {
        entries.push(("family".to_owned(), json::text_value(family.as_str())));
    }
    entries.push(("files".to_owned(), json::number_value(row.files)));
    entries.push(("impl".to_owned(), counts_value(&row.stats.prod)));
    entries.push(("label".to_owned(), json::text_value(row.label.as_str())));
    entries.push(("lines".to_owned(), json::number_value(lines)));
    entries.push(("test".to_owned(), counts_value(&row.stats.test)));
    proof {
        lemma_key_order();
        let all = json::value_entries(entries@);
        assert(all =~= row_tree(row@)->Table_0);
        json::lemma_keys_ascend(all);
    }
    json::table_value(entries)
}

/// Every row, and the total, can be written as JSON.
pub open spec fn all_lines_fit(rows: Seq<RowModel>) -> bool {
    &&& forall|i: int| 0 <= i < rows.len() ==> lines_fit(#[trigger] rows[i])
    &&& lines_fit(total_model(rows))
}

/// Renders rows as one JSON object.
pub fn json(source: &str, dimension: &str, rows: &[Row], diff: bool) -> (r: Value)
    requires
        totals_fit(row_views(rows@)),
        all_lines_fit(row_views(rows@)),
    ensures
        json::tree_of_value(r) == report_tree(source@, dimension@, row_views(rows@), diff),
{
    let ghost all = row_views(rows@);
    let ghost wanted = all.map_values(|row: RowModel| row_tree(row));
    let mut items: Vec<Value> = Vec::with_capacity(rows.len());
    let mut i: usize = 0;
    assert(json::value_trees(items@) =~= wanted.take(0));
    while i < rows.len()
        invariant
            i <= rows.len(),
            all == row_views(rows@),
            all_lines_fit(all),
            wanted == all.map_values(|row: RowModel| row_tree(row)),
            json::value_trees(items@) == wanted.take(i as int),
        decreases rows.len() - i,
    {
        let ghost done = json::value_trees(items@);
        assert(all[i as int] == rows@[i as int]@);
        let item = row_value(&rows[i]);
        items.push(item);
        assert(json::value_trees(items@) =~= done.push(json::tree_of_value(item)));
        assert(wanted.take(i + 1) =~= wanted.take(i as int).push(wanted[i as int]));
        i = i + 1;
    }
    assert(wanted.take(i as int) =~= wanted);
    let total = total_row(rows);
    let mut entries: Vec<(String, Value)> = Vec::new();
    entries.push(("diff".to_owned(), json::bool_value(diff)));
    entries.push(("dimension".to_owned(), json::text_value(dimension)));
    entries.push(("rows".to_owned(), json::list_value(items)));
    entries.push(("source".to_owned(), json::text_value(source)));
    entries.push(("total".to_owned(), row_value(&total)));
    proof {
        lemma_key_order();
        let found = json::value_entries(entries@);
        assert(found =~= report_tree(source@, dimension@, all, diff)->Table_0);
        json::lemma_keys_ascend(found);
    }
    json::table_value(entries)
}

// ---------------------------------------------------------------------------
// Laws
// ---------------------------------------------------------------------------

/// The six counts of a row are disjoint: they add up to its lines.
pub proof fn law_counts_partition_the_lines(row: RowModel)
    ensures
        row.stats.prod.code + row.stats.prod.comments + row.stats.prod.blanks
            + row.stats.test.code + row.stats.test.comments + row.stats.test.blanks
            == row.stats.lines(),
{
}

/// No more rows are shown than asked for.
pub proof fn law_top_limits_the_rows(rows: Seq<RowModel>, sort: Sort, top: usize)
    ensures
        finished(rows, sort, Some(top)).len() <= top,
        finished(rows, sort, None).len() == rows.len(),
        finished(rows, sort, None).to_multiset() == rows.to_multiset(),
{
    order::law_sort_keeps_everything(rows, row_rank(sort));
}

/// Sorting by a column puts the largest change first, whichever way it goes.
pub proof fn law_largest_change_first(rows: Seq<RowModel>, sort: Sort, i: int, j: int)
    requires
        !(sort is Name),
        0 <= i < j < rows.len(),
    ensures
        numbers::magnitude(sort_key(finished(rows, sort, None)[i], sort)) >= numbers::magnitude(
            sort_key(finished(rows, sort, None)[j], sort),
        ),
{
    let sorted = finished(rows, sort, None);
    let rank = row_rank(sort);
    order::law_sort_orders(rows, rank);
    order::law_sort_keeps_everything(rows, rank);
    assert(!order::before(rank(sorted[j]), rank(sorted[i])));
    assert(rank(sorted[i])[0] == -numbers::magnitude(sort_key(sorted[i], sort)));
    assert(rank(sorted[j])[0] == -numbers::magnitude(sort_key(sorted[j], sort)));
}

/// The sum of two totals.
pub open spec fn plus(a: (int, SplitTally), b: (int, SplitTally)) -> (int, SplitTally) {
    (a.0 + b.0, a.1.plus(b.1))
}

/// No row is a family roll-up.
pub open spec fn no_roll_ups(rows: Seq<RowModel>) -> bool {
    forall|i: int| 0 <= i < rows.len() ==> !((#[trigger] rows[i]).kind is Family)
}

proof fn lemma_totals_concat(a: Seq<RowModel>, b: Seq<RowModel>)
    ensures
        totals(a + b) == plus(totals(a), totals(b)),
    decreases b.len(),
{
    if b.len() == 0 {
        assert(a + b =~= a);
    } else {
        lemma_totals_concat(a, b.drop_last());
        assert((a + b).drop_last() =~= a + b.drop_last());
    }
}

/// Marking rows as members does not change what they add up to.
proof fn lemma_member_totals(rows: Seq<RowModel>, marked: Seq<RowModel>)
    requires
        no_roll_ups(rows),
        no_roll_ups(marked),
        rows.len() == marked.len(),
        forall|i: int|
            0 <= i < rows.len() ==> (#[trigger] marked[i]).files == rows[i].files
                && marked[i].stats == rows[i].stats,
    ensures
        totals(marked) == totals(rows),
    decreases rows.len(),
{
    if rows.len() > 0 {
        let a = rows.drop_last();
        let b = marked.drop_last();
        assert forall|i: int| 0 <= i < a.len() implies !((#[trigger] a[i]).kind is Family) by {
            assert(a[i] == rows[i]);
        }
        assert forall|i: int| 0 <= i < b.len() implies !((#[trigger] b[i]).kind is Family) by {
            assert(b[i] == marked[i]);
        }
        assert forall|i: int| 0 <= i < a.len() implies (#[trigger] b[i]).files == a[i].files
            && b[i].stats == a[i].stats by {
            assert(b[i] == marked[i]);
        }
        lemma_member_totals(a, b);
        assert(marked[marked.len() - 1] == marked.last());
        assert(rows[rows.len() - 1] == rows.last());
    }
}

/// What the rows below the roll-ups add up to.
spec fn block_totals(blocks: Seq<(RowModel, Seq<RowModel>)>) -> (int, SplitTally)
    decreases blocks.len(),
{
    if blocks.len() == 0 {
        (0, SplitTally::zero())
    } else {
        plus(block_totals(blocks.drop_last()), totals(blocks.last().1))
    }
}

proof fn lemma_block_totals_concat(
    a: Seq<(RowModel, Seq<RowModel>)>,
    b: Seq<(RowModel, Seq<RowModel>)>,
)
    ensures
        block_totals(a + b) == plus(block_totals(a), block_totals(b)),
    decreases b.len(),
{
    if b.len() == 0 {
        assert(a + b =~= a);
    } else {
        lemma_block_totals_concat(a, b.drop_last());
        assert((a + b).drop_last() =~= a + b.drop_last());
    }
}

proof fn lemma_block_totals_one(block: (RowModel, Seq<RowModel>))
    ensures
        block_totals(seq![block]) == totals(block.1),
{
    let one = seq![block];
    assert(one.drop_last() =~= Seq::empty());
    assert(block_totals(one.drop_last()) == (0int, SplitTally::zero()));
    assert(one.last() == block);
}

proof fn lemma_block_totals_place(
    blocks: Seq<(RowModel, Seq<RowModel>)>,
    block: (RowModel, Seq<RowModel>),
    rank: spec_fn((RowModel, Seq<RowModel>)) -> Seq<int>,
)
    ensures
        block_totals(order::place(blocks, block, rank)) == plus(
            block_totals(blocks),
            totals(block.1),
        ),
    decreases blocks.len(),
{
    lemma_block_totals_one(block);
    if blocks.len() == 0 {
    } else if order::before(rank(block), rank(blocks[0])) {
        lemma_block_totals_concat(seq![block], blocks);
    } else {
        let rest = blocks.skip(1);
        lemma_block_totals_place(rest, block, rank);
        lemma_block_totals_concat(seq![blocks[0]], order::place(rest, block, rank));
        lemma_block_totals_concat(seq![blocks[0]], rest);
        assert(blocks =~= seq![blocks[0]] + rest);
    }
}

proof fn lemma_block_totals_sorted(
    blocks: Seq<(RowModel, Seq<RowModel>)>,
    rank: spec_fn((RowModel, Seq<RowModel>)) -> Seq<int>,
)
    ensures
        block_totals(order::sorted_by(blocks, rank)) == block_totals(blocks),
    decreases blocks.len(),
{
    if blocks.len() > 0 {
        let rest = blocks.drop_last();
        lemma_block_totals_sorted(rest, rank);
        lemma_block_totals_place(order::sorted_by(rest, rank), blocks.last(), rank);
    }
}

proof fn lemma_interleaved_totals(blocks: Seq<(RowModel, Seq<RowModel>)>)
    requires
        forall|k: int| 0 <= k < blocks.len() ==> (#[trigger] blocks[k]).0.kind is Family,
    ensures
        totals(interleaved(blocks)) == block_totals(blocks),
    decreases blocks.len(),
{
    if blocks.len() > 0 {
        let rest = blocks.drop_last();
        assert forall|k: int| 0 <= k < rest.len() implies (#[trigger] rest[k]).0.kind
            is Family by {
            assert(rest[k] == blocks[k]);
        }
        lemma_interleaved_totals(rest);
        let before = interleaved(rest);
        let with_header = before.push(blocks.last().0);
        assert(with_header.drop_last() =~= before);
        assert(blocks[blocks.len() - 1] == blocks.last());
        lemma_totals_concat(with_header, blocks.last().1);
    }
}

/// What the rows of the families `distinct` add up to.
spec fn member_totals(rows: Seq<RowModel>, distinct: Seq<Seq<char>>) -> (int, SplitTally)
    decreases distinct.len(),
{
    if distinct.len() == 0 {
        (0, SplitTally::zero())
    } else {
        plus(
            member_totals(rows, distinct.drop_last()),
            totals(members(rows, distinct.last())),
        )
    }
}

proof fn lemma_member_totals_step(rows: Seq<RowModel>, distinct: Seq<Seq<char>>)
    requires
        rows.len() > 0,
        !(rows.last().kind is Family),
        distinct.no_duplicates(),
    ensures
        member_totals(rows, distinct) == if distinct.contains(family_or_empty(rows.last())) {
            plus(
                member_totals(rows.drop_last(), distinct),
                (rows.last().files, rows.last().stats),
            )
        } else {
            member_totals(rows.drop_last(), distinct)
        },
    decreases distinct.len(),
{
    if distinct.len() > 0 {
        let rest = distinct.drop_last();
        let family = family_or_empty(rows.last());
        lemma_member_totals_step(rows, rest);
        let before = members(rows.drop_last(), distinct.last());
        assert(before.push(rows.last()).drop_last() =~= before);
        if rest.contains(family) {
            let i = choose|i: int| 0 <= i < rest.len() && rest[i] == family;
            assert(distinct[i] == family);
            assert(distinct.last() != family);
        }
        if distinct.contains(family) && distinct.last() != family {
            let i = choose|i: int| 0 <= i < distinct.len() && distinct[i] == family;
            assert(rest[i] == family);
        }
    }
}

proof fn lemma_members_add_up(rows: Seq<RowModel>, distinct: Seq<Seq<char>>)
    requires
        no_roll_ups(rows),
        distinct.no_duplicates(),
        forall|i: int|
            0 <= i < rows.len() ==> distinct.contains(family_or_empty(#[trigger] rows[i])),
    ensures
        member_totals(rows, distinct) == totals(rows),
    decreases rows.len(),
{
    if rows.len() == 0 {
        lemma_no_members(rows, distinct);
    } else {
        let rest = rows.drop_last();
        assert forall|i: int| 0 <= i < rest.len() implies !((#[trigger] rest[i]).kind
            is Family) && distinct.contains(family_or_empty(rest[i])) by {
            assert(rest[i] == rows[i]);
        }
        lemma_members_add_up(rest, distinct);
        assert(rows[rows.len() - 1] == rows.last());
        lemma_member_totals_step(rows, distinct);
    }
}

proof fn lemma_no_members(rows: Seq<RowModel>, distinct: Seq<Seq<char>>)
    requires
        rows.len() == 0,
    ensures
        member_totals(rows, distinct) == (0int, SplitTally::zero()),
    decreases distinct.len(),
{
    if distinct.len() > 0 {
        lemma_no_members(rows, distinct.drop_last());
    }
}

proof fn lemma_families_cover(rows: Seq<RowModel>, i: int)
    requires
        0 <= i < rows.len(),
    ensures
        families_seen(rows).contains(family_or_empty(rows[i])),
    decreases rows.len(),
{
    let rest = rows.drop_last();
    let seen = families_seen(rest);
    let last = family_or_empty(rows.last());
    if i < rest.len() {
        lemma_families_cover(rest, i);
        let k = choose|k: int| 0 <= k < seen.len() && seen[k] == family_or_empty(rows[i]);
        assert(families_seen(rows)[k] == seen[k]);
    } else if !seen.contains(last) {
        assert(families_seen(rows)[seen.len() as int] == last);
    }
}

proof fn lemma_members_no_roll_ups(rows: Seq<RowModel>, family: Seq<char>)
    requires
        no_roll_ups(rows),
    ensures
        no_roll_ups(members(rows, family)),
    decreases rows.len(),
{
    if rows.len() > 0 {
        let rest = rows.drop_last();
        assert forall|i: int| 0 <= i < rest.len() implies !((#[trigger] rest[i]).kind
            is Family) by {
            assert(rest[i] == rows[i]);
        }
        lemma_members_no_roll_ups(rest, family);
        assert(rows[rows.len() - 1] == rows.last());
    }
}

proof fn lemma_family_blocks_totals(rows: Seq<RowModel>, distinct: Seq<Seq<char>>)
    requires
        no_roll_ups(rows),
    ensures
        block_totals(
            distinct.map_values(
                |family: Seq<char>|
                    (family_row(family, members(rows, family)), member_rows(
                        members(rows, family),
                    )),
            ),
        ) == member_totals(rows, distinct),
    decreases distinct.len(),
{
    let f = |family: Seq<char>|
        (family_row(family, members(rows, family)), member_rows(members(rows, family)));
    if distinct.len() > 0 {
        let rest = distinct.drop_last();
        lemma_family_blocks_totals(rows, rest);
        assert(distinct.map_values(f).drop_last() =~= rest.map_values(f));
        let own = members(rows, distinct.last());
        lemma_members_no_roll_ups(rows, distinct.last());
        assert forall|i: int| 0 <= i < own.len() implies !((#[trigger] member_rows(own)[i]).kind
            is Family) by {
            assert(!(own[i].kind is Family));
        }
        lemma_member_totals(own, member_rows(own));
    }
}

/// Grouping rows into families leaves the total as it was: the roll-ups are not
/// counted again.
pub proof fn law_families_leave_the_total(rows: Seq<RowModel>, sort: Sort)
    requires
        no_roll_ups(rows),
    ensures
        totals(with_families(rows, sort)) == totals(rows),
{
    if !ungrouped(rows) {
        let blocks = family_blocks(rows);
        let seen = families_seen(rows);
        let sorted = order::sorted_by(blocks, block_rank(sort));
        lemma_families_distinct(rows);
        assert forall|i: int| 0 <= i < rows.len() implies seen.contains(
            family_or_empty(#[trigger] rows[i]),
        ) by {
            lemma_families_cover(rows, i);
        }
        lemma_members_add_up(rows, seen);
        lemma_family_blocks_totals(rows, seen);
        lemma_block_totals_sorted(blocks, block_rank(sort));
        order::law_sort_keeps_everything(blocks, block_rank(sort));
        assert forall|k: int| 0 <= k < sorted.len() implies (#[trigger] sorted[k]).0.kind
            is Family by {
            broadcast use vstd::seq_lib::group_to_multiset_ensures;

            assert(sorted.contains(sorted[k]));
            assert(sorted.to_multiset().count(sorted[k]) > 0);
            assert(blocks.contains(sorted[k]));
        }
        lemma_interleaved_totals(sorted);
    }
}

/// A family's roll-up is the sum of its rows.
pub proof fn law_a_roll_up_sums_its_rows(rows: Seq<RowModel>, k: int)
    requires
        no_roll_ups(rows),
        0 <= k < family_blocks(rows).len(),
    ensures
        (family_blocks(rows)[k].0.files, family_blocks(rows)[k].0.stats) == totals(
            family_blocks(rows)[k].1,
        ),
{
    let own = members(rows, families_seen(rows)[k]);
    lemma_members_no_roll_ups(rows, families_seen(rows)[k]);
    assert forall|i: int| 0 <= i < own.len() implies !((#[trigger] member_rows(own)[i]).kind
        is Family) by {
        assert(!(own[i].kind is Family));
    }
    lemma_member_totals(own, member_rows(own));
}

/// Comparing a report with itself shows no change.
pub proof fn law_no_change_no_rows(
    rows: Seq<Row>,
    files: Seq<FileReport>,
    keys: Seq<(Option<Seq<char>>, Seq<char>)>,
)
    requires
        rows_describe_change(rows, files, keys, files, keys),
    ensures
        rows.len() == 0,
{
    if rows.len() > 0 {
        let change = net_change(files, keys, files, keys, own_key(rows[0]));
        assert(change == (0int, SplitTally::zero()));
    }
}

/// How many of `keys` are among `distinct`, key by key.
spec fn sum_of_counts<T>(keys: Seq<T>, distinct: Seq<T>) -> int
    decreases distinct.len(),
{
    if distinct.len() == 0 {
        0
    } else {
        sum_of_counts(keys, distinct.drop_last()) + count_where(keys, distinct.last())
    }
}

proof fn lemma_sum_of_counts_step<T>(keys: Seq<T>, distinct: Seq<T>)
    requires
        keys.len() > 0,
        distinct.no_duplicates(),
    ensures
        sum_of_counts(keys, distinct) == sum_of_counts(keys.drop_last(), distinct)
            + if distinct.contains(keys.last()) {
            1int
        } else {
            0int
        },
    decreases distinct.len(),
{
    if distinct.len() > 0 {
        let rest = distinct.drop_last();
        let key = keys.last();
        lemma_sum_of_counts_step(keys, rest);
        if rest.contains(key) {
            let i = choose|i: int| 0 <= i < rest.len() && rest[i] == key;
            assert(distinct[i] == key);
            assert(distinct.last() != key);
        }
        if distinct.contains(key) && distinct.last() != key {
            let i = choose|i: int| 0 <= i < distinct.len() && distinct[i] == key;
            assert(rest[i] == key);
        }
    }
}

proof fn lemma_counts_add_up<T>(keys: Seq<T>, distinct: Seq<T>)
    requires
        distinct.no_duplicates(),
        forall|i: int| 0 <= i < keys.len() ==> distinct.contains(#[trigger] keys[i]),
    ensures
        sum_of_counts(keys, distinct) == keys.len(),
    decreases keys.len(),
{
    if keys.len() == 0 {
        lemma_no_counts(keys, distinct);
    } else {
        assert forall|i: int| 0 <= i < keys.drop_last().len() implies distinct.contains(
            #[trigger] keys.drop_last()[i],
        ) by {
            assert(distinct.contains(keys[i]));
        }
        lemma_counts_add_up(keys.drop_last(), distinct);
        lemma_sum_of_counts_step(keys, distinct);
        assert(distinct.contains(keys[keys.len() - 1]));
    }
}

proof fn lemma_no_counts<T>(keys: Seq<T>, distinct: Seq<T>)
    requires
        keys.len() == 0,
    ensures
        sum_of_counts(keys, distinct) == 0,
    decreases distinct.len(),
{
    if distinct.len() > 0 {
        lemma_no_counts(keys, distinct.drop_last());
    }
}

/// The rows of a report add up to its files and its totals.
pub proof fn law_rows_add_up_to_the_report(
    rows: Seq<Row>,
    files: Seq<FileReport>,
    keys: Seq<(Option<Seq<char>>, Seq<char>)>,
)
    requires
        rows_describe(rows, files, keys),
        files.len() == keys.len(),
        report::groups_within(files, keys, i64::MAX as int),
    ensures
        totals(row_views(rows)) == (files.len() as int, report::total_tally(files)),
{
    let distinct = rows.map_values(|row: Row| own_key(row));
    assert forall|i: int, j: int| 0 <= i < j < distinct.len() implies distinct[i]
        != distinct[j] by {
        assert(order::before(key_rank(own_key(rows[i])), key_rank(own_key(rows[j]))));
        order::lemma_before_irreflexive(key_rank(own_key(rows[i])));
    }
    assert(distinct.no_duplicates());
    assert forall|i: int| 0 <= i < keys.len() implies distinct.contains(#[trigger] keys[i]) by {
        assert(keys.contains(keys[i]));
        assert(has_row(rows, keys[i]));
        let k = choose|k: int| 0 <= k < rows.len() && own_key(#[trigger] rows[k]) == keys[i];
        assert(distinct[k] == keys[i]);
    }
    report::law_groups_add_up_to_the_totals(files, keys, distinct);
    lemma_counts_add_up(keys, distinct);
    lemma_rows_sum(rows, files, keys, rows.len() as int);
    assert(rows.take(rows.len() as int) =~= rows);
    assert(distinct.take(rows.len() as int) =~= distinct);
}

proof fn lemma_rows_sum(
    rows: Seq<Row>,
    files: Seq<FileReport>,
    keys: Seq<(Option<Seq<char>>, Seq<char>)>,
    n: int,
)
    requires
        rows_describe(rows, files, keys),
        files.len() == keys.len(),
        report::groups_within(files, keys, i64::MAX as int),
        0 <= n <= rows.len(),
    ensures
        totals(row_views(rows.take(n))) == (
            sum_of_counts(keys, rows.map_values(|row: Row| own_key(row)).take(n)),
            report::sum_of_groups(
                files,
                keys,
                rows.map_values(|row: Row| own_key(row)).take(n),
            ),
        ),
    decreases n,
{
    let distinct = rows.map_values(|row: Row| own_key(row));
    if n > 0 {
        lemma_rows_sum(rows, files, keys, n - 1);
        assert(distinct.take(n).drop_last() =~= distinct.take(n - 1));
        assert(row_views(rows.take(n)).drop_last() =~= row_views(rows.take(n - 1)));
        let row = rows[n - 1];
        assert(row_views(rows.take(n)).last() == row@);
        report::lemma_part_of_total(files, keys, own_key(row));
        assert(report::within(
            report::tally_where(files, keys, own_key(row)),
            i64::MAX as int,
        ));
        assert(row.stats@ == report::tally_where(files, keys, own_key(row)));
    }
}

/// Rows, read as a map from label to counts, are these groups: each has the
/// counts of the group that its label names, and each group has one row.
pub open spec fn rows_are<T>(
    rows: Seq<Row>,
    groups: Map<T, Stats>,
    named: spec_fn(Seq<char>) -> T,
) -> bool {
    &&& forall|i: int|
        0 <= i < rows.len() ==> {
            let key = named((#[trigger] rows[i]).label@);
            groups.dom().contains(key) && rows[i].stats == SignedStats::of(groups[key])
        }
    &&& forall|key: T| #[trigger]
        groups.dom().contains(key) ==> exists|i: int|
            0 <= i < rows.len() && named((#[trigger] rows[i]).label@) == key
    &&& forall|i: int, j: int|
        0 <= i < j < rows.len() ==> named((#[trigger] rows[i]).label@) != named(
            (#[trigger] rows[j]).label@,
        )
}

/// Files with keys that go together are the same files.
proof fn lemma_same_tally<S, T>(files: Seq<FileReport>, a: Seq<S>, b: Seq<T>, x: S, y: T)
    requires
        files.len() == a.len(),
        files.len() == b.len(),
        forall|i: int| 0 <= i < a.len() ==> (#[trigger] a[i] == x <==> b[i] == y),
    ensures
        report::tally_where(files, a, x) == report::tally_where(files, b, y),
    decreases files.len(),
{
    if files.len() > 0 {
        let c = a.drop_last();
        let d = b.drop_last();
        assert forall|i: int| 0 <= i < c.len() implies (#[trigger] c[i] == x <==> d[i] == y) by {
            assert(a[i] == x <==> b[i] == y);
        }
        lemma_same_tally(files.drop_last(), c, d, x, y);
        assert(a[a.len() - 1] == x <==> b[b.len() - 1] == y);
    }
}

proof fn lemma_rows_are<T>(
    rows: Seq<Row>,
    files: Seq<FileReport>,
    keys: Seq<(Option<Seq<char>>, Seq<char>)>,
    groups: Map<T, Stats>,
    group_keys: Seq<T>,
    named: spec_fn(Seq<char>) -> T,
)
    requires
        rows_describe(rows, files, keys),
        report::groups(groups, files, group_keys),
        keys.len() == files.len(),
        forall|i: int|
            0 <= i < keys.len() ==> (#[trigger] keys[i]).0 is None && group_keys[i] == named(
                keys[i].1,
            ),
        forall|i: int, j: int|
            0 <= i < keys.len() && 0 <= j < keys.len() && named((#[trigger] keys[i]).1) == named(
                (#[trigger] keys[j]).1,
            ) ==> keys[i].1 == keys[j].1,
    ensures
        rows_are(rows, groups, named),
{
    assert forall|i: int| 0 <= i < rows.len() implies {
        let key = named((#[trigger] rows[i]).label@);
        groups.dom().contains(key) && rows[i].stats == SignedStats::of(groups[key])
    } by {
        let own = own_key(rows[i]);
        let key = named(rows[i].label@);
        let k = choose|k: int| 0 <= k < keys.len() && keys[k] == own;
        assert(keys[k].1 == rows[i].label@);
        assert(group_keys[k] == key);
        assert(group_keys.contains(key));
        assert(groups.dom().contains(key));
        assert forall|m: int| 0 <= m < keys.len() implies (#[trigger] keys[m] == own
            <==> group_keys[m] == key) by {
            assert(keys[m].0 is None && keys[k].0 is None);
            if group_keys[m] == key {
                assert(named(keys[m].1) == named(keys[k].1));
            }
        }
        lemma_same_tally(files, keys, group_keys, own, key);
        report::lemma_stats_of(groups[key]);
    }
    assert forall|key: T| #[trigger] groups.dom().contains(key) implies exists|i: int|
        0 <= i < rows.len() && named((#[trigger] rows[i]).label@) == key by {
        let k = choose|k: int| 0 <= k < group_keys.len() && group_keys[k] == key;
        assert(keys.contains(keys[k]));
        assert(has_row(rows, keys[k]));
        let i = choose|i: int| 0 <= i < rows.len() && own_key(#[trigger] rows[i]) == keys[k];
        assert(named(rows[i].label@) == key);
    }
    assert forall|i: int, j: int| 0 <= i < j < rows.len() implies named(
        (#[trigger] rows[i]).label@,
    ) != named((#[trigger] rows[j]).label@) by {
        assert(order::before(key_rank(own_key(rows[i])), key_rank(own_key(rows[j]))));
        order::lemma_before_irreflexive(key_rank(own_key(rows[i])));
        let a = choose|a: int| 0 <= a < keys.len() && keys[a] == own_key(rows[i]);
        let b = choose|b: int| 0 <= b < keys.len() && keys[b] == own_key(rows[j]);
        assert(keys[a].0 is None && keys[b].0 is None);
        assert(keys[a].1 == rows[i].label@ && keys[b].1 == rows[j].label@);
    }
}

/// The rows of languages that are not grouped into families are the groups by
/// language.
pub proof fn law_language_rows_are_the_groups_by_language(
    registry: Registry,
    rows: Seq<Row>,
    files: Seq<FileReport>,
    depth: int,
    groups: Map<Seq<char>, Stats>,
)
    requires
        rows_describe(
            rows,
            files,
            row_keys(registry, files, Dimension::Language, depth, false),
        ),
        report::groups(groups, files, report::language_keys(registry, files)),
    ensures
        rows_are(rows, groups, |label: Seq<char>| label),
{
    lemma_rows_are(
        rows,
        files,
        row_keys(registry, files, Dimension::Language, depth, false),
        groups,
        report::language_keys(registry, files),
        |label: Seq<char>| label,
    );
}

/// The rows of families are the groups by family.
pub proof fn law_family_rows_are_the_groups_by_family(
    registry: Registry,
    rows: Seq<Row>,
    files: Seq<FileReport>,
    depth: int,
    group: bool,
    groups: Map<Seq<char>, Stats>,
)
    requires
        rows_describe(
            rows,
            files,
            row_keys(registry, files, Dimension::Family, depth, group),
        ),
        report::groups(groups, files, report::family_keys(registry, files)),
    ensures
        rows_are(rows, groups, |label: Seq<char>| label),
{
    lemma_rows_are(
        rows,
        files,
        row_keys(registry, files, Dimension::Family, depth, group),
        groups,
        report::family_keys(registry, files),
        |label: Seq<char>| label,
    );
}

/// The rows of extensions are the groups by extension.
pub proof fn law_extension_rows_are_the_groups_by_extension(
    registry: Registry,
    rows: Seq<Row>,
    files: Seq<FileReport>,
    depth: int,
    group: bool,
    groups: Map<Seq<char>, Stats>,
)
    requires
        rows_describe(
            rows,
            files,
            row_keys(registry, files, Dimension::Extension, depth, group),
        ),
        report::groups(groups, files, report::extension_keys(files)),
    ensures
        rows_are(rows, groups, |label: Seq<char>| label),
{
    lemma_rows_are(
        rows,
        files,
        row_keys(registry, files, Dimension::Extension, depth, group),
        groups,
        report::extension_keys(files),
        |label: Seq<char>| label,
    );
}

/// The rows of directories are the groups by directory, where no path has
/// doubled slashes or a `.` among its parts: such spellings make rows of their
/// own, but no groups.
pub proof fn law_directory_rows_are_the_groups_by_directory(
    registry: Registry,
    rows: Seq<Row>,
    files: Seq<FileReport>,
    depth: int,
    group: bool,
    groups: Map<Seq<PartModel>, Stats>,
)
    requires
        0 <= depth,
        rows_describe(
            rows,
            files,
            row_keys(registry, files, Dimension::Directory, depth, group),
        ),
        report::groups(groups, files, report::directory_keys(files, depth)),
        forall|i: int| 0 <= i < files.len() ==> path::neat((#[trigger] files[i]).path@),
    ensures
        rows_are(rows, groups, |label: Seq<char>| path::parts(label)),
{
    let keys = row_keys(registry, files, Dimension::Directory, depth, group);
    let named = |label: Seq<char>| path::parts(label);
    assert forall|i: int, j: int|
        0 <= i < keys.len() && 0 <= j < keys.len() && named((#[trigger] keys[i]).1) == named(
            (#[trigger] keys[j]).1,
        ) implies keys[i].1 == keys[j].1 by {
        assert(path::neat(files[i].path@) && path::neat(files[j].path@));
        path::lemma_directories_told_by_parts(files[i].path@, files[j].path@, depth);
    }
    lemma_rows_are(
        rows,
        files,
        keys,
        groups,
        report::directory_keys(files, depth),
        named,
    );
}

// ---------------------------------------------------------------------------
// Numbers that fit
// ---------------------------------------------------------------------------

/// The sum of two numbers, unless it is out of range.
fn add_counts_signed(a: &SignedCounts, b: &SignedCounts) -> (r: Option<SignedCounts>)
    ensures
        r is Some <==> tally_in_i64(a@.plus(b@)),
        r matches Some(sum) ==> sum@ == a@.plus(b@),
{
    let code = a.code.checked_add(b.code);
    let comments = a.comments.checked_add(b.comments);
    let blanks = a.blanks.checked_add(b.blanks);
    match (code, comments, blanks) {
        (Some(code), Some(comments), Some(blanks)) => Some(
            SignedCounts { code, comments, blanks },
        ),
        _ => None,
    }
}

/// A row added to what was added up before it, unless that is out of range.
fn add_row(files: i64, stats: &SignedStats, row: &Row) -> (r: Option<(i64, SignedStats)>)
    ensures
        r is Some <==> totals_in_i64((files + row.files, stats@.plus(row.stats@))),
        r matches Some(sum) ==> (sum.0 as int, sum.1@) == (
            files + row.files,
            stats@.plus(row.stats@),
        ),
{
    let files = files.checked_add(row.files);
    let prod = add_counts_signed(&stats.prod, &row.stats.prod);
    let test = add_counts_signed(&stats.test, &row.stats.test);
    match (files, prod, test) {
        (Some(files), Some(prod), Some(test)) => Some((files, SignedStats { prod, test })),
        _ => None,
    }
}

/// One more row can be added up.
proof fn lemma_totals_fit_push(rows: Seq<RowModel>, row: RowModel)
    ensures
        totals_fit(rows.push(row)) <==> totals_fit(rows) && totals_in_i64(totals(rows.push(row))),
{
    let more = rows.push(row);
    assert forall|n: int| 0 <= n <= rows.len() implies #[trigger] rows.take(n) == more.take(
        n,
    ) by {
        assert(rows.take(n) =~= more.take(n));
    }
    assert(more.take(more.len() as int) =~= more);
    if totals_fit(more) {
        assert forall|n: int| 0 <= n <= rows.len() implies totals_in_i64(
            totals(#[trigger] rows.take(n)),
        ) by {
            assert(totals_in_i64(totals(more.take(n))));
        }
        assert(totals_in_i64(totals(more.take(more.len() as int))));
    }
    if totals_fit(rows) && totals_in_i64(totals(more)) {
        assert forall|n: int| 0 <= n <= more.len() implies totals_in_i64(
            totals(#[trigger] more.take(n)),
        ) by {
            if n <= rows.len() {
                assert(totals_in_i64(totals(rows.take(n))));
            }
        }
    }
}

/// The rows of a family among the first `n` rows come first among all of it.
proof fn lemma_members_prefix(rows: Seq<RowModel>, family: Seq<char>, n: int)
    requires
        0 <= n <= rows.len(),
    ensures
        ({
            let some = members(rows.take(n), family);
            let all = members(rows, family);
            some.len() <= all.len() && some == all.take(some.len() as int)
        }),
    decreases rows.len(),
{
    let some = members(rows.take(n), family);
    let all = members(rows, family);
    if n == rows.len() {
        assert(rows.take(n) =~= rows);
        assert(all.take(all.len() as int) =~= all);
    } else {
        lemma_members_prefix(rows.drop_last(), family, n);
        assert(rows.drop_last().take(n) =~= rows.take(n));
        let rest = members(rows.drop_last(), family);
        assert(all.take(some.len() as int) =~= rest.take(some.len() as int));
    }
}

/// What does not fit at the start does not fit at all.
proof fn lemma_totals_fit_prefix(rows: Seq<RowModel>, n: int)
    requires
        0 <= n <= rows.len(),
        totals_fit(rows),
    ensures
        totals_fit(rows.take(n)),
{
    assert forall|k: int| 0 <= k <= n implies totals_in_i64(
        totals(#[trigger] rows.take(n).take(k)),
    ) by {
        assert(rows.take(n).take(k) =~= rows.take(k));
    }
}

/// Whether adding up the rows of a family stays within the range of an `i64`.
fn family_fits(rows: &[Row], family: &str) -> (r: bool)
    ensures
        r == totals_fit(members(row_views(rows@), family@)),
{
    let ghost all = row_views(rows@);
    let mut files: i64 = 0;
    let mut stats = SignedStats::default();
    let mut i: usize = 0;
    proof {
        let none = members(all.take(0), family@);
        assert forall|n: int| 0 <= n <= none.len() implies totals_in_i64(
            totals(#[trigger] none.take(n)),
        ) by {
            assert(none.take(n) =~= Seq::empty());
        }
    }
    while i < rows.len()
        invariant
            i <= rows.len(),
            all == row_views(rows@),
            totals_fit(members(all.take(i as int), family@)),
            (files as int, stats@) == totals(members(all.take(i as int), family@)),
        decreases rows.len() - i,
    {
        let row = &rows[i];
        let ghost now = members(all.take(i as int), family@);
        let ghost next = members(all.take(i + 1), family@);
        proof {
            assert(all[i as int] == row@);
            assert(all.take(i + 1).drop_last() =~= all.take(i as int));
            assert(now.push(row@).drop_last() =~= now);
            lemma_totals_fit_push(now, row@);
            assert(now.take(now.len() as int) =~= now);
            assert(totals_in_i64(totals(now.take(now.len() as int))));
        }
        if row.kind != RowKind::Family && text::same(family_text(row).as_str(), family) {
            match add_row(files, &stats, row) {
                Some(sum) => {
                    files = sum.0;
                    stats = sum.1;
                },
                None => {
                    proof {
                        lemma_members_prefix(all, family@, i + 1);
                        let whole = members(all, family@);
                        if totals_fit(whole) {
                            lemma_totals_fit_prefix(whole, next.len() as int);
                        }
                    }
                    return false;
                },
            }
        }
        i = i + 1;
    }
    assert(all.take(i as int) =~= all);
    true
}

/// Whether adding up any one family stays within the range of an `i64`.
pub fn can_roll_up(rows: &[Row]) -> (r: bool)
    ensures
        r == families_fit(row_views(rows@)),
{
    let ghost all = row_views(rows@);
    let mut seen: Vec<String> = Vec::new();
    let mut i: usize = 0;
    assert(text::views(seen@) =~= families_seen(all.take(0)));
    while i < rows.len()
        invariant
            i <= rows.len(),
            all == row_views(rows@),
            text::views(seen@) == families_seen(all.take(i as int)),
            forall|k: int|
                0 <= k < seen@.len() ==> totals_fit(members(all, (#[trigger] seen@[k])@)),
        decreases rows.len() - i,
    {
        let ghost known = text::views(seen@);
        let family = family_text(&rows[i]);
        proof {
            assert(all[i as int] == rows@[i as int]@);
            assert(all.take(i + 1).drop_last() =~= all.take(i as int));
            assert(all.take(i + 1).last() == all[i as int]);
        }
        let mut k: usize = 0;
        while k < seen.len() && !text::same(seen[k].as_str(), family.as_str())
            invariant
                k <= seen.len(),
                known == text::views(seen@),
                forall|j: int| 0 <= j < k ==> #[trigger] known[j] != family@,
            decreases seen.len() - k,
        {
            assert(known[k as int] == seen@[k as int]@);
            k = k + 1;
        }
        if k == seen.len() {
            assert(!known.contains(family@));
            if !family_fits(rows, family.as_str()) {
                proof {
                    lemma_families_cover(all, i as int);
                }
                return false;
            }
            seen.push(family);
            assert(text::views(seen@) =~= known.push(family@));
        } else {
            assert(known[k as int] == seen@[k as int]@);
            assert(known.contains(family@));
        }
        i = i + 1;
    }
    assert(all.take(i as int) =~= all);
    assert forall|k: int| 0 <= k < families_seen(all).len() implies totals_fit(
        members(all, #[trigger] families_seen(all)[k]),
    ) by {
        assert(families_seen(all)[k] == seen@[k]@);
    }
    true
}

/// Whether adding the rows up stays within the range of an `i64`.
pub fn can_total(rows: &[Row]) -> (r: bool)
    ensures
        r == totals_fit(row_views(rows@)),
{
    let ghost all = row_views(rows@);
    let mut files: i64 = 0;
    let mut stats = SignedStats::default();
    let mut i: usize = 0;
    proof {
        assert forall|n: int| 0 <= n <= all.take(0).len() implies totals_in_i64(
            totals(#[trigger] all.take(0).take(n)),
        ) by {
            assert(all.take(0).take(n) =~= Seq::empty());
        }
    }
    while i < rows.len()
        invariant
            i <= rows.len(),
            all == row_views(rows@),
            totals_fit(all.take(i as int)),
            (files as int, stats@) == totals(all.take(i as int)),
        decreases rows.len() - i,
    {
        let row = &rows[i];
        let ghost now = all.take(i as int);
        proof {
            assert(all[i as int] == row@);
            assert(all.take(i + 1) =~= now.push(row@));
            assert(now.push(row@).drop_last() =~= now);
            lemma_totals_fit_push(now, row@);
            assert(now.take(now.len() as int) =~= now);
            assert(totals_in_i64(totals(now.take(now.len() as int))));
        }
        if row.kind != RowKind::Family {
            match add_row(files, &stats, row) {
                Some(sum) => {
                    files = sum.0;
                    stats = sum.1;
                },
                None => {
                    proof {
                        if totals_fit(all) {
                            lemma_totals_fit_prefix(all, i + 1);
                        }
                    }
                    return false;
                },
            }
        }
        i = i + 1;
    }
    assert(all.take(i as int) =~= all);
    true
}

/// Whether the lines of every row, and of the total, are within the range of an
/// `i64`.
pub fn can_count_lines(rows: &[Row]) -> (r: bool)
    requires
        totals_fit(row_views(rows@)),
    ensures
        r == all_lines_fit(row_views(rows@)),
{
    let ghost all = row_views(rows@);
    let mut i: usize = 0;
    while i < rows.len()
        invariant
            i <= rows.len(),
            all == row_views(rows@),
            forall|k: int| 0 <= k < i ==> lines_fit(#[trigger] all[k]),
        decreases rows.len() - i,
    {
        assert(all[i as int] == rows@[i as int]@);
        let lines = sort_key_of(&rows[i], Sort::Lines);
        if lines < i64::MIN as i128 || lines > i64::MAX as i128 {
            return false;
        }
        i = i + 1;
    }
    let lines = sort_key_of(&total_row(rows), Sort::Lines);
    i64::MIN as i128 <= lines && lines <= i64::MAX as i128
}

// ---------------------------------------------------------------------------
// Laws of the order of rows
// ---------------------------------------------------------------------------

/// Row `a` may stand above row `b` where rows come by the size of a count,
/// whichever way it goes, and then by label.
pub open spec fn may_stand_above(a: RowModel, b: RowModel, x: int, y: int) -> bool {
    let x = if x < 0 {
        -x
    } else {
        x
    };
    let y = if y < 0 {
        -y
    } else {
        y
    };
    x > y || (x == y && !order::text_precedes(b.label, a.label))
}

proof fn lemma_finished_pair(rows: Seq<RowModel>, sort: Sort, top: Option<usize>, i: int, j: int)
    requires
        0 <= i < j < finished(rows, sort, top).len(),
    ensures
        !order::before(
            row_rank(sort)(finished(rows, sort, top)[j]),
            row_rank(sort)(finished(rows, sort, top)[i]),
        ),
{
    let rank = row_rank(sort);
    order::law_sort_orders(rows, rank);
    let sorted = order::sorted_by(rows, rank);
    assert(finished(rows, sort, top)[i] == sorted[i]);
    assert(finished(rows, sort, top)[j] == sorted[j]);
}

proof fn lemma_column_pair(a: RowModel, b: RowModel, sort: Sort)
    requires
        !(sort is Name),
        !order::before(row_rank(sort)(b), row_rank(sort)(a)),
    ensures
        may_stand_above(a, b, sort_key(a, sort), sort_key(b, sort)),
{
    let m = row_rank(sort)(b);
    let n = row_rank(sort)(a);
    assert(m[0] == -numbers::magnitude(sort_key(b, sort)));
    assert(n[0] == -numbers::magnitude(sort_key(a, sort)));
    assert(m.skip(1) =~= order::text_rank(b.label));
    assert(n.skip(1) =~= order::text_rank(a.label));
    order::law_texts_are_ordered_by_their_bytes(b.label, a.label);
}

/// Sorted by code, rows come by all of their lines of code, test code among
/// them.
pub proof fn law_sorted_by_code(rows: Seq<RowModel>, top: Option<usize>, i: int, j: int)
    requires
        0 <= i < j < finished(rows, Sort::Code, top).len(),
    ensures
        ({
            let a = finished(rows, Sort::Code, top)[i];
            let b = finished(rows, Sort::Code, top)[j];
            may_stand_above(
                a,
                b,
                a.stats.prod.code + a.stats.test.code,
                b.stats.prod.code + b.stats.test.code,
            )
        }),
{
    lemma_finished_pair(rows, Sort::Code, top, i, j);
    lemma_column_pair(
        finished(rows, Sort::Code, top)[i],
        finished(rows, Sort::Code, top)[j],
        Sort::Code,
    );
}

/// Sorted by comments, rows come by all of their comments, those in test code
/// among them.
pub proof fn law_sorted_by_comments(rows: Seq<RowModel>, top: Option<usize>, i: int, j: int)
    requires
        0 <= i < j < finished(rows, Sort::Comments, top).len(),
    ensures
        ({
            let a = finished(rows, Sort::Comments, top)[i];
            let b = finished(rows, Sort::Comments, top)[j];
            may_stand_above(
                a,
                b,
                a.stats.prod.comments + a.stats.test.comments,
                b.stats.prod.comments + b.stats.test.comments,
            )
        }),
{
    lemma_finished_pair(rows, Sort::Comments, top, i, j);
    lemma_column_pair(
        finished(rows, Sort::Comments, top)[i],
        finished(rows, Sort::Comments, top)[j],
        Sort::Comments,
    );
}

/// Sorted by blanks, rows come by all of their blank lines, those in test code
/// among them.
pub proof fn law_sorted_by_blanks(rows: Seq<RowModel>, top: Option<usize>, i: int, j: int)
    requires
        0 <= i < j < finished(rows, Sort::Blanks, top).len(),
    ensures
        ({
            let a = finished(rows, Sort::Blanks, top)[i];
            let b = finished(rows, Sort::Blanks, top)[j];
            may_stand_above(
                a,
                b,
                a.stats.prod.blanks + a.stats.test.blanks,
                b.stats.prod.blanks + b.stats.test.blanks,
            )
        }),
{
    lemma_finished_pair(rows, Sort::Blanks, top, i, j);
    lemma_column_pair(
        finished(rows, Sort::Blanks, top)[i],
        finished(rows, Sort::Blanks, top)[j],
        Sort::Blanks,
    );
}

/// Sorted by tests, rows come by their lines of test code.
pub proof fn law_sorted_by_test(rows: Seq<RowModel>, top: Option<usize>, i: int, j: int)
    requires
        0 <= i < j < finished(rows, Sort::Test, top).len(),
    ensures
        ({
            let a = finished(rows, Sort::Test, top)[i];
            let b = finished(rows, Sort::Test, top)[j];
            may_stand_above(a, b, a.stats.test.code, b.stats.test.code)
        }),
{
    lemma_finished_pair(rows, Sort::Test, top, i, j);
    lemma_column_pair(
        finished(rows, Sort::Test, top)[i],
        finished(rows, Sort::Test, top)[j],
        Sort::Test,
    );
}

/// Sorted by lines, rows come by the sum of all six counts.
pub proof fn law_sorted_by_lines(rows: Seq<RowModel>, top: Option<usize>, i: int, j: int)
    requires
        0 <= i < j < finished(rows, Sort::Lines, top).len(),
    ensures
        ({
            let a = finished(rows, Sort::Lines, top)[i];
            let b = finished(rows, Sort::Lines, top)[j];
            may_stand_above(
                a,
                b,
                a.stats.prod.code + a.stats.prod.comments + a.stats.prod.blanks + a.stats.test.code
                    + a.stats.test.comments + a.stats.test.blanks,
                b.stats.prod.code + b.stats.prod.comments + b.stats.prod.blanks + b.stats.test.code
                    + b.stats.test.comments + b.stats.test.blanks,
            )
        }),
{
    lemma_finished_pair(rows, Sort::Lines, top, i, j);
    lemma_column_pair(
        finished(rows, Sort::Lines, top)[i],
        finished(rows, Sort::Lines, top)[j],
        Sort::Lines,
    );
}

/// Sorted by name, rows come by label alone.
pub proof fn law_sorted_by_name(rows: Seq<RowModel>, top: Option<usize>, i: int, j: int)
    requires
        0 <= i < j < finished(rows, Sort::Name, top).len(),
    ensures
        !order::text_precedes(
            finished(rows, Sort::Name, top)[j].label,
            finished(rows, Sort::Name, top)[i].label,
        ),
{
    lemma_finished_pair(rows, Sort::Name, top, i, j);
    order::law_texts_are_ordered_by_their_bytes(
        finished(rows, Sort::Name, top)[j].label,
        finished(rows, Sort::Name, top)[i].label,
    );
}

/// A limit keeps the rows that would stand at the top without it, as many as it
/// says; where there are no more, it keeps all of them.
pub proof fn law_a_limit_keeps_the_top(rows: Seq<RowModel>, sort: Sort, top: usize)
    ensures
        ({
            let all = finished(rows, sort, None);
            let kept = finished(rows, sort, Some(top));
            &&& all.len() == rows.len()
            &&& top <= rows.len() ==> kept == all.take(top as int)
            &&& top >= rows.len() ==> kept == all
        }),
{
    order::law_sort_keeps_everything(rows, row_rank(sort));
    let all = finished(rows, sort, None);
    if top == rows.len() {
        assert(all.take(top as int) =~= all);
    }
}

/// Files are grouped into rows that come by family, those without one first,
/// and within a family by label.
pub proof fn law_row_keys_come_by_family_and_label(
    a: (Option<Seq<char>>, Seq<char>),
    b: (Option<Seq<char>>, Seq<char>),
)
    ensures
        order::before(key_rank(a), key_rank(b)) <==> match (a.0, b.0) {
            (None, Some(_)) => true,
            (Some(_), None) => false,
            (None, None) => order::text_precedes(a.1, b.1),
            (Some(x), Some(y)) => order::text_precedes(x, y) || (x == y && order::text_precedes(
                a.1,
                b.1,
            )),
        },
{
    let m = key_rank(a);
    let n = key_rank(b);
    order::law_texts_are_ordered_by_their_bytes(a.1, b.1);
    match (a.0, b.0) {
        (None, Some(_)) => {
            assert(m[0] == 0 && n[0] == 1);
        },
        (Some(_), None) => {
            assert(m[0] == 1 && n[0] == 0);
        },
        (None, None) => {
            assert(m[0] == 0 && n[0] == 0);
            assert(m.skip(1) =~= order::text_rank(a.1));
            assert(n.skip(1) =~= order::text_rank(b.1));
        },
        (Some(x), Some(y)) => {
            assert(m[0] == 1 && n[0] == 1);
            assert(m.skip(1) =~= order::closed_rank(x) + order::text_rank(a.1));
            assert(n.skip(1) =~= order::closed_rank(y) + order::text_rank(b.1));
            order::law_a_text_in_front_decides_first(
                x,
                y,
                order::text_rank(a.1),
                order::text_rank(b.1),
            );
        },
    }
}

// ---------------------------------------------------------------------------
// Laws of sums and families
// ---------------------------------------------------------------------------

/// A row that is no roll-up adds its files and each of its counts to the total;
/// a roll-up adds nothing. Without rows the total is nothing.
pub proof fn law_a_row_adds_its_counts(rows: Seq<RowModel>, row: RowModel)
    ensures
        ({
            let a = total_model(rows);
            let b = total_model(rows.push(row));
            let k = if row.kind is Family {
                0int
            } else {
                1int
            };
            &&& b.files == a.files + k * row.files
            &&& b.stats.prod.code == a.stats.prod.code + k * row.stats.prod.code
            &&& b.stats.prod.comments == a.stats.prod.comments + k * row.stats.prod.comments
            &&& b.stats.prod.blanks == a.stats.prod.blanks + k * row.stats.prod.blanks
            &&& b.stats.test.code == a.stats.test.code + k * row.stats.test.code
            &&& b.stats.test.comments == a.stats.test.comments + k * row.stats.test.comments
            &&& b.stats.test.blanks == a.stats.test.blanks + k * row.stats.test.blanks
            &&& a.label == "TOTAL"@
            &&& a.family is None
            &&& a.kind is Plain
        }),
        ({
            let none = total_model(Seq::empty());
            &&& none.files == 0
            &&& none.stats.prod.code == 0 && none.stats.prod.comments == 0
                && none.stats.prod.blanks == 0
            &&& none.stats.test.code == 0 && none.stats.test.comments == 0
                && none.stats.test.blanks == 0
        }),
{
    assert(rows.push(row).drop_last() =~= rows);
}

/// The families that come up are those that rows have, each once. The one of
/// the first row is the first, and a family that comes up again keeps its place.
pub proof fn law_families_come_up_once(rows: Seq<RowModel>, row: RowModel)
    ensures
        ({
            let seen = families_seen(rows);
            let family = if row.family is Some {
                row.family->0
            } else {
                Seq::empty()
            };
            let again = exists|i: int|
                0 <= i < rows.len() && (#[trigger] rows[i]).family == Some(family) || 0 <= i
                    < rows.len() && rows[i].family is None && family.len() == 0;
            families_seen(rows.push(row)) == if again {
                seen
            } else {
                seen.push(family)
            }
        }),
        families_seen(Seq::empty()).len() == 0,
{
    let all = rows.push(row);
    assert(all.drop_last() =~= rows);
    let family = family_or_empty(row);
    lemma_families_are_those_of_rows(rows, family);
    if families_seen(rows).contains(family) {
        let i = choose|i: int| 0 <= i < rows.len() && family_or_empty(#[trigger] rows[i]) == family;
        assert(rows[i].family == Some(family) || rows[i].family is None && family.len() == 0);
    }
    if exists|i: int|
        0 <= i < rows.len() && (#[trigger] rows[i]).family == Some(family) || 0 <= i < rows.len()
            && rows[i].family is None && family.len() == 0 {
        let i = choose|i: int|
            0 <= i < rows.len() && (#[trigger] rows[i]).family == Some(family) || 0 <= i
                < rows.len() && rows[i].family is None && family.len() == 0;
        assert(family =~= family_or_empty(rows[i]));
    }
}

proof fn lemma_families_are_those_of_rows(rows: Seq<RowModel>, family: Seq<char>)
    ensures
        families_seen(rows).contains(family) <==> exists|i: int|
            0 <= i < rows.len() && family_or_empty(#[trigger] rows[i]) == family,
    decreases rows.len(),
{
    if rows.len() > 0 {
        let rest = rows.drop_last();
        let seen = families_seen(rest);
        let own = family_or_empty(rows.last());
        lemma_families_are_those_of_rows(rest, family);
        lemma_contains_push(seen, own, family);
        if families_seen(rows).contains(family) {
            if seen.contains(family) {
                let i = choose|i: int|
                    0 <= i < rest.len() && family_or_empty(#[trigger] rest[i]) == family;
                assert(family_or_empty(rows[i]) == family);
            } else {
                assert(family_or_empty(rows[rows.len() - 1]) == family);
            }
        }
        if exists|i: int| 0 <= i < rows.len() && family_or_empty(#[trigger] rows[i]) == family {
            let i = choose|i: int|
                0 <= i < rows.len() && family_or_empty(#[trigger] rows[i]) == family;
            if i < rest.len() {
                assert(family_or_empty(rest[i]) == family);
            }
        }
    }
}

/// The members of a family are the rows that have it, in their order. Rows
/// without a family are those of the empty one.
pub proof fn law_members_are_the_rows_of_the_family(
    rows: Seq<RowModel>,
    row: RowModel,
    family: Seq<char>,
)
    ensures
        members(rows.push(row), family) == if row.family == Some(family) || (row.family is None
            && family.len() == 0) {
            members(rows, family).push(row)
        } else {
            members(rows, family)
        },
        members(Seq::empty(), family).len() == 0,
{
    assert(rows.push(row).drop_last() =~= rows);
    if row.family is None && family.len() == 0 {
        assert(family =~= family_or_empty(row));
    }
}

/// Below its roll-up a row says what it said before, and only its place changes:
/// it is a member, and the last one knows that it is.
pub proof fn law_members_keep_what_they_say(rows: Seq<RowModel>, i: int)
    requires
        0 <= i < rows.len(),
        forall|k: int| 0 <= k < rows.len() ==> (#[trigger] rows[k]).kind is Plain,
    ensures
        member_rows(rows).len() == rows.len(),
        ({
            let row = member_rows(rows)[i];
            &&& row.label == rows[i].label
            &&& row.files == rows[i].files
            &&& row.stats == rows[i].stats
            &&& row.family == rows[i].family
            &&& row.kind == RowKind::Member { last: i == rows.len() - 1 }
        }),
{
}

/// A roll-up is named after its family and has the sums of its members. Families
/// come by the same column as the rows, and each stands above its own rows.
pub proof fn law_families_stand_above_their_rows(rows: Seq<RowModel>, sort: Sort) -> (blocks: Seq<
    (RowModel, Seq<RowModel>),
>)
    requires
        exists|i: int| 0 <= i < rows.len() && (#[trigger] rows[i]).family is Some,
    ensures
        with_families(rows, sort) == interleaved(blocks),
        blocks.len() == families_seen(rows).len(),
        forall|i: int|
            0 <= i < blocks.len() ==> {
                let block = #[trigger] blocks[i];
                let own = members(rows, block.0.label);
                &&& families_seen(rows).contains(block.0.label)
                &&& block.0.kind is Family
                &&& block.0.family == Some(block.0.label)
                &&& block.0.files == total_model(own).files
                &&& block.0.stats == total_model(own).stats
                &&& block.1 == member_rows(own)
            },
        forall|i: int, j: int|
            #![trigger blocks[i], blocks[j]]
            0 <= i < j < blocks.len() ==> {
                let a = blocks[i].0;
                let b = blocks[j].0;
                match sort {
                    Sort::Code => may_stand_above(
                        a,
                        b,
                        a.stats.prod.code + a.stats.test.code,
                        b.stats.prod.code + b.stats.test.code,
                    ),
                    Sort::Comments => may_stand_above(
                        a,
                        b,
                        a.stats.prod.comments + a.stats.test.comments,
                        b.stats.prod.comments + b.stats.test.comments,
                    ),
                    Sort::Blanks => may_stand_above(
                        a,
                        b,
                        a.stats.prod.blanks + a.stats.test.blanks,
                        b.stats.prod.blanks + b.stats.test.blanks,
                    ),
                    Sort::Test => may_stand_above(a, b, a.stats.test.code, b.stats.test.code),
                    Sort::Lines => may_stand_above(
                        a,
                        b,
                        a.stats.prod.code + a.stats.prod.comments + a.stats.prod.blanks
                            + a.stats.test.code + a.stats.test.comments + a.stats.test.blanks,
                        b.stats.prod.code + b.stats.prod.comments + b.stats.prod.blanks
                            + b.stats.test.code + b.stats.test.comments + b.stats.test.blanks,
                    ),
                    Sort::Name => !order::text_precedes(b.label, a.label),
                }
            },
{
    let unsorted = family_blocks(rows);
    let rank = block_rank(sort);
    let blocks = order::sorted_by(unsorted, rank);
    order::law_sort_keeps_everything(unsorted, rank);
    order::law_sort_orders(unsorted, rank);
    broadcast use vstd::seq_lib::group_to_multiset_ensures;

    assert forall|i: int| 0 <= i < blocks.len() implies {
        let block = #[trigger] blocks[i];
        let own = members(rows, block.0.label);
        &&& families_seen(rows).contains(block.0.label)
        &&& block.0.kind is Family
        &&& block.0.family == Some(block.0.label)
        &&& block.0.files == total_model(own).files
        &&& block.0.stats == total_model(own).stats
        &&& block.1 == member_rows(own)
    } by {
        assert(blocks.contains(blocks[i]));
        assert(blocks.to_multiset().count(blocks[i]) > 0);
        assert(unsorted.contains(blocks[i]));
        let k = choose|k: int| 0 <= k < unsorted.len() && unsorted[k] == blocks[i];
        assert(families_seen(rows)[k] == blocks[i].0.label);
    }
    assert forall|i: int, j: int| 0 <= i < j < blocks.len() implies {
        ||| sort is Name && !order::text_precedes(
            (#[trigger] blocks[j]).0.label,
            (#[trigger] blocks[i]).0.label,
        )
        ||| !(sort is Name) && may_stand_above(
            blocks[i].0,
            blocks[j].0,
            sort_key(blocks[i].0, sort),
            sort_key(blocks[j].0, sort),
        )
    } by {
        assert(!order::before(rank(blocks[j]), rank(blocks[i])));
        if sort is Name {
            order::law_texts_are_ordered_by_their_bytes(blocks[j].0.label, blocks[i].0.label);
        } else {
            lemma_column_pair(blocks[i].0, blocks[j].0, sort);
        }
    }
    blocks
}

/// Blocks are written one after the other, each as its roll-up and what stands
/// below.
pub proof fn law_blocks_are_written_in_turn(
    blocks: Seq<(RowModel, Seq<RowModel>)>,
    block: (RowModel, Seq<RowModel>),
)
    ensures
        interleaved(blocks.push(block)) == interleaved(blocks) + seq![block.0] + block.1,
        interleaved(Seq::empty()).len() == 0,
{
    assert(blocks.push(block).drop_last() =~= blocks);
    assert(interleaved(blocks.push(block)) =~= interleaved(blocks) + seq![block.0] + block.1);
}

/// Rows of which none has a family stay as they are.
pub proof fn law_rows_without_families_stay(rows: Seq<RowModel>, sort: Sort)
    requires
        forall|i: int| 0 <= i < rows.len() ==> (#[trigger] rows[i]).family is None,
    ensures
        with_families(rows, sort) == rows,
{
}

// ---------------------------------------------------------------------------
// Laws of the table
// ---------------------------------------------------------------------------

/// Each column holds what its heading says: code outside of tests under `IMPL`,
/// all comments under `DOC`, test code under `TEST`, and all six counts under
/// `TOTAL`. The share of comments is of all lines, that of tests of all code.
pub proof fn law_columns_hold_what_their_headings_say(row: RowModel, signed: bool)
    ensures
        ({
            let c = cells(row, signed);
            let h = headings();
            let prod = row.stats.prod;
            let test = row.stats.test;
            let comments = prod.comments + test.comments;
            let code = prod.code + test.code;
            let lines = code + comments + prod.blanks + test.blanks;
            &&& c.len() == 7 && h.len() == 7
            &&& h[0] == "FILES"@ && c[0] == numbers::number(row.files, signed)
            &&& h[1] == "IMPL"@ && c[1] == numbers::number(prod.code, signed)
            &&& h[2] == "DOC"@ && c[2] == numbers::number(comments, signed)
            &&& h[3] == "TEST"@ && c[3] == numbers::number(test.code, signed)
            &&& h[4] == "TOTAL"@ && c[4] == numbers::number(lines, signed)
            &&& h[5] == "DOC%"@ && c[5] == numbers::share_text(comments, lines)
            &&& h[6] == "TEST%"@ && c[6] == numbers::share_text(test.code, code)
        }),
{
}

/// The headline repeats the cells of the total.
pub proof fn law_the_headline_repeats_the_total(total: RowModel, signed: bool)
    ensures
        ({
            let c = cells(total, signed);
            let verb = if signed {
                " lines changed: "@
            } else {
                " lines counted: "@
            };
            summary(total, signed) == c[4] + verb + c[1] + " implementation · "@ + c[3]
                + " test ("@ + c[6] + " of code) · "@ + c[2] + " documentation ("@ + c[5]
                + " of all lines)"@
        }),
{
}

/// A column is as wide as the widest of its cells: none is wider, and one fills
/// it.
pub proof fn law_columns_fit_their_cells(lines: Seq<Seq<Seq<char>>>, i: int)
    ensures
        forall|k: int|
            0 <= k < lines.len() ==> (#[trigger] lines[k])[i].len() <= column_width(lines, i),
        lines.len() > 0 ==> exists|k: int|
            0 <= k < lines.len() && (#[trigger] lines[k])[i].len() == column_width(lines, i),
    decreases lines.len(),
{
    if lines.len() > 0 {
        let rest = lines.drop_last();
        let n = lines.len() - 1;
        law_columns_fit_their_cells(rest, i);
        assert forall|k: int| 0 <= k < lines.len() implies (#[trigger] lines[k])[i].len()
            <= column_width(lines, i) by {
            if k < n {
                assert(rest[k] == lines[k]);
            }
        }
        if column_width(lines, i) == lines[n][i].len() {
            assert(lines[n][i].len() == column_width(lines, i));
        } else {
            let k = choose|k: int|
                0 <= k < rest.len() && (#[trigger] rest[k])[i].len() == column_width(rest, i);
            assert(lines[k][i].len() == column_width(lines, i));
        }
    }
}

/// The label column is as wide as the widest label with its glyph, and no
/// narrower than its heading and the label of the total.
pub proof fn law_labels_fit_their_column(rows: Seq<RowModel>, heading: Seq<char>)
    ensures
        ({
            let w = label_width(rows, heading);
            &&& heading.len() <= w
            &&& 5 <= w
            &&& forall|k: int|
                0 <= k < rows.len() ==> glyph((#[trigger] rows[k]).kind).len() + rows[k].label.len()
                    <= w
            &&& {
                ||| w == heading.len()
                ||| w == 5
                ||| exists|k: int|
                    0 <= k < rows.len() && glyph((#[trigger] rows[k]).kind).len()
                        + rows[k].label.len() == w
            }
        }),
{
    reveal_strlit("TOTAL");
    lemma_widest_label(rows);
}

proof fn lemma_widest_label(rows: Seq<RowModel>)
    ensures
        forall|k: int|
            0 <= k < rows.len() ==> glyph((#[trigger] rows[k]).kind).len() + rows[k].label.len()
                <= widest_label(rows),
        rows.len() > 0 ==> exists|k: int|
            0 <= k < rows.len() && glyph((#[trigger] rows[k]).kind).len() + rows[k].label.len()
                == widest_label(rows),
    decreases rows.len(),
{
    if rows.len() > 0 {
        let rest = rows.drop_last();
        let n = rows.len() - 1;
        lemma_widest_label(rest);
        assert forall|k: int| 0 <= k < rows.len() implies glyph((#[trigger] rows[k]).kind).len()
            + rows[k].label.len() <= widest_label(rows) by {
            if k < n {
                assert(rest[k] == rows[k]);
            }
        }
        if widest_label(rows) == glyph(rows[n].kind).len() + rows[n].label.len() {
            assert(glyph(rows[n].kind).len() + rows[n].label.len() == widest_label(rows));
        } else {
            let k = choose|k: int|
                0 <= k < rest.len() && glyph((#[trigger] rest[k]).kind).len()
                    + rest[k].label.len() == widest_label(rest);
            assert(glyph(rows[k].kind).len() + rows[k].label.len() == widest_label(rows));
        }
    }
}

/// A cell is pushed to the right: spaces in front fill its column, and where it
/// does not fit it stays as it is.
pub proof fn law_cells_are_pushed_to_the_right(cell: Seq<char>, width: int)
    ensures
        cell.len() >= width ==> padded(cell, width) == cell,
        cell.len() < width ==> {
            &&& padded(cell, width).len() == width
            &&& padded(cell, width).skip(width - cell.len()) == cell
            &&& forall|i: int|
                0 <= i < width - cell.len() ==> #[trigger] padded(cell, width)[i] == ' '
        },
{
    if cell.len() >= width {
        assert(padded(cell, width) =~= cell);
    } else {
        assert(padded(cell, width).skip(width - cell.len()) =~= cell);
    }
}

/// Without colour a label is its glyph, its name, and spaces up to the width of
/// its column.
pub proof fn law_labels_are_pushed_to_the_left(
    prefix: Seq<char>,
    label: Seq<char>,
    width: int,
    style: Style,
)
    requires
        prefix.len() + label.len() <= width,
    ensures
        ({
            let t = label_text(prefix, label, width, style, false);
            let n = prefix.len() + label.len();
            &&& t.len() == width
            &&& t.take(n as int) == prefix + label
            &&& forall|i: int| n <= i < width ==> #[trigger] t[i] == ' '
        }),
{
    let t = label_text(prefix, label, width, style, false);
    let n = (prefix.len() + label.len()) as int;
    assert(t.take(n) =~= prefix + label);
}

/// Painting a text wraps it: the style's escape sequence stands in front and the
/// one that ends it behind. Without colour, or without a style, or with nothing
/// to paint, the text stays as it is.
pub proof fn law_painting_wraps_the_text(s: Seq<char>, style: Style, color: bool)
    ensures
        !color || style is Plain || s.len() == 0 ==> painted(s, style, color) == s,
        color && !(style is Plain) && s.len() > 0 ==> {
            let p = painted(s, style, color);
            let code = match style {
                Style::Bold => "\x1b[1m"@,
                Style::Dim => "\x1b[2m"@,
                Style::Added => "\x1b[32m"@,
                _ => "\x1b[31m"@,
            };
            &&& p.len() == code.len() + s.len() + 4
            &&& p.take(code.len() as int) == code
            &&& p.subrange(code.len() as int, (code.len() + s.len()) as int) == s
            &&& p.skip(p.len() - 4) == "\x1b[0m"@
        },
{
    reveal_strlit("\x1b[0m");
    if color && !(style is Plain) && s.len() > 0 {
        let p = painted(s, style, color);
        let code = style.code_model();
        assert(p.take(code.len() as int) =~= code);
        assert(p.subrange(code.len() as int, (code.len() + s.len()) as int) =~= s);
        assert(p.skip(p.len() - 4) =~= "\x1b[0m"@);
    }
}

/// In a diff gains are painted as added and losses as removed; nothing else is
/// painted, and neither is anything outside of a diff.
pub proof fn law_gains_and_losses_have_their_colours(n: int, signed: bool)
    ensures
        number_style(numbers::number(n, signed), signed) == if !signed || n == 0 {
            Style::Plain
        } else if n > 0 {
            Style::Added
        } else {
            Style::Removed
        },
        forall|a: Style, b: Style| #[trigger]
            a.or_model(b) == if a == Style::Plain {
                b
            } else {
                a
            },
{
    reveal_strlit("+");
    reveal_strlit("-");
    reveal_strlit("0");
    if n > 0 {
        numbers::law_signs_tell_gains_from_losses(n as nat, signed);
    } else if n < 0 {
        numbers::law_signs_tell_gains_from_losses((-n) as nat, signed);
        assert(number_style(numbers::number(n, signed), signed) == if signed {
            Style::Removed
        } else {
            Style::Plain
        });
    } else {
        numbers::law_signs_tell_gains_from_losses(1, signed);
    }
}

proof fn lemma_cells_len(cells: Seq<Seq<char>>, widths: Seq<int>, style: Style, signed: bool)
    requires
        cells.len() <= widths.len(),
        forall|i: int| 0 <= i < cells.len() ==> (#[trigger] cells[i]).len() <= widths[i],
    ensures
        cells_text(cells, widths, style, signed, false).len() == sum(
            widths.take(cells.len() as int),
        ) + 2 * cells.len(),
    decreases cells.len(),
{
    reveal_strlit("  ");
    if cells.len() > 0 {
        let n = cells.len() - 1;
        let rest = cells.drop_last();
        assert forall|i: int| 0 <= i < rest.len() implies (#[trigger] rest[i]).len()
            <= widths[i] by {
            assert(rest[i] == cells[i]);
        }
        lemma_cells_len(rest, widths, style, signed);
        assert(widths.take(n + 1).drop_last() =~= widths.take(n));
        assert(widths.take(n + 1).last() == widths[n]);
        assert(cells[n].len() <= widths[n]);
    }
}

/// Without colour every line of a table is equally wide, and so are its rules:
/// as wide as the columns together, with two spaces before each column of
/// numbers.
pub proof fn law_lines_of_a_table_are_equally_wide(
    layout: Layout,
    prefix: Seq<char>,
    label: Seq<char>,
    cells: Seq<Seq<char>>,
    style: Style,
)
    requires
        !layout.color,
        prefix.len() + label.len() <= layout.label_width,
        cells.len() == layout.widths.len(),
        forall|i: int| 0 <= i < cells.len() ==> (#[trigger] cells[i]).len() <= layout.widths[i],
    ensures
        ({
            let width = layout.label_width + sum(layout.widths) + 2 * layout.widths.len();
            &&& line_text(layout, prefix, label, cells, style).len() == width
            &&& rule_text(layout).len() == width + 1
            &&& forall|i: int| 0 <= i < width ==> #[trigger] rule_text(layout)[i] == '─'
            &&& rule_text(layout)[width] == '\n'
        }),
{
    reveal_strlit("\n");
    lemma_cells_len(cells, layout.widths, style, layout.signed);
    assert(layout.widths.take(cells.len() as int) =~= layout.widths);
    assert(line_text(layout, prefix, label, cells, style).len() == layout.label_width + sum(
        layout.widths,
    ) + 2 * layout.widths.len());
}

/// Each cell stands behind two spaces, painted by its own sign where the line
/// has no style, and cells follow each other in the order of their columns.
pub proof fn law_cells_follow_each_other(
    cells: Seq<Seq<char>>,
    cell: Seq<char>,
    widths: Seq<int>,
    style: Style,
    signed: bool,
    color: bool,
)
    requires
        cells.len() < widths.len(),
    ensures
        ({
            let paint = if !(style is Plain) {
                style
            } else if signed && cell.len() > 0 && cell[0] == '+' {
                Style::Added
            } else if signed && cell.len() > 0 && cell[0] == '-' {
                Style::Removed
            } else {
                Style::Plain
            };
            cells_text(cells.push(cell), widths, style, signed, color) == cells_text(
                cells,
                widths,
                style,
                signed,
                color,
            ) + "  "@ + painted(padded(cell, widths[cells.len() as int]), paint, color)
        }),
        cells_text(Seq::empty(), widths, style, signed, color).len() == 0,
{
    assert(cells.push(cell).drop_last() =~= cells);
}

/// Only the rows of a family are drawn as branches; a branch is as wide for the
/// last one as for the others.
pub proof fn law_branches_lead_to_members(kind: RowKind)
    ensures
        glyph(kind).len() == if kind is Member {
            4int
        } else {
            0int
        },
        kind is Member ==> glyph(kind)[0] == if kind == (RowKind::Member { last: true }) {
            '└'
        } else {
            '├'
        },
        kind is Member ==> glyph(kind)[1] == '─' && glyph(kind)[2] == ' ' && glyph(kind)[3] == ' ',
{
    reveal_strlit("├─  ");
    reveal_strlit("└─  ");
    reveal_strlit("");
}

/// The rows of a table are written one after the other, each with its branch,
/// its label and its cells, a roll-up in bold.
pub proof fn law_rows_are_written_in_turn(layout: Layout, rows: Seq<RowModel>, row: RowModel)
    ensures
        rows_text(layout, rows.push(row)) == rows_text(layout, rows) + line_text(
            layout,
            glyph(row.kind),
            row.label,
            cells(row, layout.signed),
            if row.kind == RowKind::Family {
                Style::Bold
            } else {
                Style::Plain
            },
        ) + "\n"@,
        rows_text(layout, Seq::empty()).len() == 0,
{
    assert(rows.push(row).drop_last() =~= rows);
}

// ---------------------------------------------------------------------------
// Laws of CSV and JSON
// ---------------------------------------------------------------------------

/// Doubling works on each character by itself: a quote becomes two, and all
/// else stays.
pub proof fn law_quotes_are_doubled(a: Seq<char>, c: char)
    ensures
        doubled(Seq::empty()).len() == 0,
        c == '"' ==> doubled(a.push(c)) == doubled(a) + seq!['"', '"'],
        c != '"' ==> doubled(a.push(c)) == doubled(a) + seq![c],
{
    assert(a.push(c).drop_last() =~= a);
    if c == '"' {
        assert(doubled(a.push(c)) =~= doubled(a) + seq!['"', '"']);
    } else {
        assert(doubled(a.push(c)) =~= doubled(a) + seq![c]);
    }
}

/// Each quote counts once: where two stand together the first is dropped.
pub open spec fn undoubled(s: Seq<char>) -> Seq<char>
    decreases s.len(),
{
    if s.len() == 0 {
        Seq::empty()
    } else if s.len() > 1 && s[s.len() - 1] == '"' && s[s.len() - 2] == '"' {
        undoubled(s.take(s.len() - 2)).push('"')
    } else {
        undoubled(s.take(s.len() - 1)).push(s[s.len() - 1])
    }
}

/// A field can be read back: one without a comma, a quote or a line feed stands
/// as it is, and any other stands between quotes, with its own quotes doubled.
pub proof fn law_fields_can_be_read_back(field: Seq<char>)
    ensures
        (forall|i: int|
            0 <= i < field.len() ==> #[trigger] field[i] != ',' && field[i] != '"' && field[i]
                != '\n') ==> escaped(field) == field,
        (exists|i: int|
            0 <= i < field.len() && (#[trigger] field[i] == ',' || field[i] == '"' || field[i]
                == '\n')) ==> {
            let e = escaped(field);
            &&& e.len() >= 2
            &&& e[0] == '"'
            &&& e[e.len() - 1] == '"'
            &&& undoubled(e.subrange(1, e.len() - 1)) == field
        },
{
    reveal_strlit("\"");
    if exists|i: int|
        0 <= i < field.len() && (#[trigger] field[i] == ',' || field[i] == '"' || field[i] == '\n') {
        let i = choose|i: int|
            0 <= i < field.len() && (#[trigger] field[i] == ',' || field[i] == '"' || field[i]
                == '\n');
        assert(needs_quotes(field[i]));
        let e = escaped(field);
        assert(e.subrange(1, e.len() - 1) =~= doubled(field));
        lemma_undoubled(field);
    }
}

proof fn lemma_undoubled(s: Seq<char>)
    ensures
        undoubled(doubled(s)) == s,
    decreases s.len(),
{
    let d = doubled(s);
    if s.len() > 0 {
        let rest = doubled(s.drop_last());
        lemma_undoubled(s.drop_last());
        if s.last() == '"' {
            assert(d.take(d.len() - 2) =~= rest);
        } else {
            assert(d.take(d.len() - 1) =~= rest);
        }
        assert(undoubled(d) =~= s);
    } else {
        assert(undoubled(d) =~= s);
    }
}

/// A line of CSV has the label, the files, the six counts and their sum, each
/// behind a comma; with families the family stands in front.
pub proof fn law_csv_lines_hold_the_counts(row: RowModel)
    ensures
        ({
            let p = row.stats.prod;
            let t = row.stats.test;
            let family = if row.family is Some {
                row.family->0
            } else {
                Seq::empty()
            };
            let sum = p.code + p.comments + p.blanks + t.code + t.comments + t.blanks;
            &&& csv_line(row, false) == escaped(row.label) + ","@ + numbers::decimal(row.files)
                + ","@ + numbers::decimal(p.code) + ","@ + numbers::decimal(p.comments) + ","@
                + numbers::decimal(p.blanks) + ","@ + numbers::decimal(t.code) + ","@
                + numbers::decimal(t.comments) + ","@ + numbers::decimal(t.blanks) + ","@
                + numbers::decimal(sum) + "\n"@
            &&& csv_line(row, true) == escaped(family) + ","@ + escaped(row.label) + ","@
                + numbers::decimal(row.files) + ","@ + numbers::decimal(p.code) + ","@
                + numbers::decimal(p.comments) + ","@ + numbers::decimal(p.blanks) + ","@
                + numbers::decimal(t.code) + ","@ + numbers::decimal(t.comments) + ","@
                + numbers::decimal(t.blanks) + ","@ + numbers::decimal(sum) + "\n"@
        }),
{
    reveal_strlit("");
    let family = if row.family is Some {
        row.family->0
    } else {
        Seq::empty()
    };
    assert(family =~= family_or_empty(row));
    let p = row.stats.prod;
    let t = row.stats.test;
    assert(row.stats.lines() == p.code + p.comments + p.blanks + t.code + t.comments + t.blanks);
    assert(""@ + escaped(row.label) =~= escaped(row.label));
}

/// One more row is one more line before that of the total, as long as it does
/// not bring the first family.
pub proof fn law_csv_has_a_line_for_each_row(
    heading: Seq<char>,
    rows: Seq<RowModel>,
    row: RowModel,
    families: bool,
)
    requires
        families == exists|i: int| 0 <= i < rows.len() && (#[trigger] rows[i]).family is Some,
    ensures
        csv_lines(rows.push(row), families) == csv_lines(rows, families) + csv_line(row, families),
        csv_lines(Seq::empty(), families).len() == 0,
        csv_text(heading, rows) == (if families {
            "family,"@
        } else {
            Seq::empty()
        }) + text::lowercased(heading)
            + ",files,impl_code,impl_comments,impl_blanks,test_code,test_comments,test_blanks,total\n"@
            + csv_lines(rows, families) + csv_line(total_model(rows), families),
{
    reveal_strlit("");
    assert(rows.push(row).drop_last() =~= rows);
    assert(""@ =~= Seq::<char>::empty());
}

/// What the last entry with a key holds; `None` where the key is not there.
pub open spec fn entry_under(entries: Seq<(Seq<char>, Tree)>, key: Seq<char>) -> Option<Tree>
    decreases entries.len(),
{
    if entries.len() == 0 {
        None
    } else if entries.last().0 == key {
        Some(entries.last().1)
    } else {
        entry_under(entries.drop_last(), key)
    }
}

/// What stands under a key of a table; `None` where the key is not there.
pub open spec fn under(tree: Tree, key: Seq<char>) -> Option<Tree>
    recommends
        tree is Table,
{
    entry_under(tree->Table_0, key)
}

proof fn lemma_under(entries: Seq<(Seq<char>, Tree)>, i: int)
    requires
        0 <= i < entries.len(),
        forall|a: int, b: int|
            0 <= a < b < entries.len() ==> (#[trigger] entries[a]).0 != (#[trigger] entries[b]).0,
    ensures
        entry_under(entries, entries[i].0) == Some(entries[i].1),
    decreases entries.len(),
{
    let n = entries.len() - 1;
    if i < n {
        let rest = entries.drop_last();
        assert(entries[i].0 != entries[n].0);
        assert forall|a: int, b: int| 0 <= a < b < rest.len() implies (#[trigger] rest[a]).0 != (
        #[trigger] rest[b]).0 by {
            assert(entries[a].0 != entries[b].0);
        }
        lemma_under(rest, i);
        assert(rest[i] == entries[i]);
    }
}

proof fn lemma_not_under(entries: Seq<(Seq<char>, Tree)>, key: Seq<char>)
    requires
        forall|a: int| 0 <= a < entries.len() ==> (#[trigger] entries[a]).0 != key,
    ensures
        entry_under(entries, key) is None,
    decreases entries.len(),
{
    if entries.len() > 0 {
        let rest = entries.drop_last();
        assert(entries[entries.len() - 1].0 != key);
        assert forall|a: int| 0 <= a < rest.len() implies (#[trigger] rest[a]).0 != key by {
            assert(entries[a].0 != key);
        }
        lemma_not_under(rest, key);
    }
}

/// In JSON the counts stand under their names.
pub proof fn law_json_names_the_counts(tally: Tally)
    ensures
        counts_tree(tally) is Table,
        (counts_tree(tally)->Table_0).len() == 3,
        under(counts_tree(tally), "code"@) == Some(Tree::Number(numbers::decimal(tally.code))),
        under(counts_tree(tally), "comments"@) == Some(
            Tree::Number(numbers::decimal(tally.comments)),
        ),
        under(counts_tree(tally), "blanks"@) == Some(Tree::Number(numbers::decimal(tally.blanks))),
{
    reveal_strlit("code");
    reveal_strlit("comments");
    reveal_strlit("blanks");
    let entries = counts_tree(tally)->Table_0;
    assert("code"@[1] == 'o' && "comments"@.len() == 8 && "blanks"@.len() == 6 && "code"@.len()
        == 4);
    lemma_under(entries, 0);
    lemma_under(entries, 1);
    lemma_under(entries, 2);
}

/// In JSON a row has its label, its files, the two sides of its counts and the
/// sum of all six, and its family exactly if it has one.
pub proof fn law_json_says_what_the_row_says(row: RowModel)
    ensures
        ({
            let p = row.stats.prod;
            let t = row.stats.test;
            let tree = row_tree(row);
            &&& tree is Table
            &&& under(tree, "label"@) == Some(Tree::Text(row.label))
            &&& under(tree, "files"@) == Some(Tree::Number(numbers::decimal(row.files)))
            &&& under(tree, "impl"@) == Some(counts_tree(p))
            &&& under(tree, "test"@) == Some(counts_tree(t))
            &&& under(tree, "lines"@) == Some(
                Tree::Number(
                    numbers::decimal(
                        p.code + p.comments + p.blanks + t.code + t.comments + t.blanks,
                    ),
                ),
            )
            &&& row.family is Some ==> under(tree, "family"@) == Some(Tree::Text(row.family->0))
            &&& row.family is None ==> under(tree, "family"@) is None
            &&& (tree->Table_0).len() == if row.family is Some {
                6int
            } else {
                5int
            }
        }),
{
    reveal_strlit("label");
    reveal_strlit("files");
    reveal_strlit("impl");
    reveal_strlit("test");
    reveal_strlit("lines");
    reveal_strlit("family");
    let entries = row_tree(row)->Table_0;
    assert("label"@.len() == 5 && "files"@.len() == 5 && "lines"@.len() == 5 && "impl"@.len() == 4
        && "test"@.len() == 4 && "family"@.len() == 6);
    assert("label"@[1] == 'a' && "files"@[0] == 'f' && "lines"@[1] == 'i' && "lines"@[0] == 'l'
        && "impl"@[0] == 'i' && "test"@[0] == 't');
    let d: int = if row.family is Some {
        1
    } else {
        0
    };
    assert(entries[d].0 == "files"@);
    assert(entries[d + 1].0 == "impl"@);
    assert(entries[d + 2].0 == "label"@);
    assert(entries[d + 3].0 == "lines"@);
    assert(entries[d + 4].0 == "test"@);
    lemma_under(entries, d);
    lemma_under(entries, d + 1);
    lemma_under(entries, d + 2);
    lemma_under(entries, d + 3);
    lemma_under(entries, d + 4);
    if row.family is Some {
        assert(entries[0].0 == "family"@);
        lemma_under(entries, 0);
    } else {
        lemma_not_under(entries, "family"@);
    }
}

/// In JSON a report names its source and its dimension, says whether it is a
/// diff, and has every row and the total.
pub proof fn law_json_holds_every_row(
    source: Seq<char>,
    dimension: Seq<char>,
    rows: Seq<RowModel>,
    diff: bool,
)
    ensures
        ({
            let tree = report_tree(source, dimension, rows, diff);
            &&& tree is Table
            &&& (tree->Table_0).len() == 5
            &&& under(tree, "source"@) == Some(Tree::Text(source))
            &&& under(tree, "dimension"@) == Some(Tree::Text(dimension))
            &&& under(tree, "diff"@) == Some(Tree::Bool(diff))
            &&& under(tree, "total"@) == Some(row_tree(total_model(rows)))
            &&& under(tree, "rows"@) is Some
            &&& under(tree, "rows"@)->0 is List
            &&& (under(tree, "rows"@)->0->List_0).len() == rows.len()
            &&& forall|i: int|
                0 <= i < rows.len() ==> #[trigger] (under(tree, "rows"@)->0->List_0)[i] == row_tree(
                    rows[i],
                )
        }),
{
    reveal_strlit("source");
    reveal_strlit("dimension");
    reveal_strlit("diff");
    reveal_strlit("total");
    reveal_strlit("rows");
    let entries = report_tree(source, dimension, rows, diff)->Table_0;
    assert("source"@.len() == 6 && "dimension"@.len() == 9 && "diff"@.len() == 4 && "total"@.len()
        == 5 && "rows"@.len() == 4 && "rows"@[0] == 'r' && "diff"@[0] == 'd');
    lemma_under(entries, 0);
    lemma_under(entries, 1);
    lemma_under(entries, 2);
    lemma_under(entries, 3);
    lemma_under(entries, 4);
}

// ---------------------------------------------------------------------------
// Laws of the grouping
// ---------------------------------------------------------------------------

/// A file is grouped by what the dimension says, and its family counts only
/// where languages are grouped by family.
pub proof fn law_files_are_grouped_as_asked_for(
    registry: Registry,
    file: FileReport,
    depth: int,
    group: bool,
)
    ensures
        label_model(registry, file, Dimension::File, depth) == file.path@,
        label_model(registry, file, Dimension::Directory, depth) == path::directory(
            file.path@,
            depth,
        ),
        label_model(registry, file, Dimension::Extension, depth) == report::extension_label(
            file.path@,
        ),
        label_model(registry, file, Dimension::Language, depth) == report::language_name_of(
            registry,
            file.language,
        ),
        family_model(registry, file, Dimension::Language, true) == Some(
            label_model(registry, file, Dimension::Family, depth),
        ),
        family_model(registry, file, Dimension::Language, false) is None,
        family_model(registry, file, Dimension::Family, group) is None,
        family_model(registry, file, Dimension::Extension, group) is None,
        family_model(registry, file, Dimension::File, group) is None,
        family_model(registry, file, Dimension::Directory, group) is None,
{
}

/// One more file raises the number of its row by one, and that of no other row.
pub proof fn law_a_file_counts_for_its_row<T>(keys: Seq<T>, own: T, key: T)
    ensures
        count_where(keys.push(own), key) == count_where(keys, key) + if own == key {
            1int
        } else {
            0int
        },
        count_where(Seq::<T>::empty(), key) == 0,
{
    assert(keys.push(own).drop_last() =~= keys);
}

/// The net change of a row is what it has afterwards less what it had before, in
/// each count.
pub proof fn law_changes_are_what_is_left(
    before: Seq<FileReport>,
    before_keys: Seq<Seq<char>>,
    after: Seq<FileReport>,
    after_keys: Seq<Seq<char>>,
    key: Seq<char>,
)
    ensures
        ({
            let change = net_change(before, before_keys, after, after_keys, key);
            let a = report::tally_where(after, after_keys, key);
            let b = report::tally_where(before, before_keys, key);
            let back = net_change(after, after_keys, before, before_keys, key);
            &&& change.0 + count_where(before_keys, key) == count_where(after_keys, key)
            &&& change.1.prod.code + b.prod.code == a.prod.code
            &&& change.1.prod.comments + b.prod.comments == a.prod.comments
            &&& change.1.prod.blanks + b.prod.blanks == a.prod.blanks
            &&& change.1.test.code + b.test.code == a.test.code
            &&& change.1.test.comments + b.test.comments == a.test.comments
            &&& change.1.test.blanks + b.test.blanks == a.test.blanks
            &&& back.0 == -change.0
            &&& back.1.prod.code == -change.1.prod.code
        }),
{
}

/// A table has its header, the headings of its columns, a line for each row, the
/// total and the headline, in this order, with a rule before and behind each of
/// the three in between. The header is bold, the headings are dim, and the total
/// is bold.
pub proof fn law_a_table_has_its_parts_in_order(
    header: Seq<char>,
    heading: Seq<char>,
    rows: Seq<RowModel>,
    signed: bool,
    color: bool,
) -> (parts: Seq<Seq<char>>)
    ensures
        ({
            let layout = Layout {
                label_width: label_width(rows, heading),
                widths: widths(rows, signed),
                signed,
                color,
            };
            let total = total_model(rows);
            let rule = rule_text(layout);
            &&& parts.len() == 9
            &&& table_text(header, heading, rows, signed, color) == parts[0] + parts[1] + parts[2]
                + parts[3] + parts[4] + parts[5] + parts[6] + parts[7] + parts[8]
            &&& parts[0] == painted(header, Style::Bold, color) + "\n"@
            &&& parts[1] == rule && parts[3] == rule && parts[5] == rule && parts[7] == rule
            &&& parts[2] == line_text(layout, ""@, heading, headings(), Style::Dim) + "\n"@
            &&& parts[4] == rows_text(layout, rows)
            &&& parts[6] == line_text(layout, ""@, "TOTAL"@, cells(total, signed), Style::Bold)
                + "\n"@
            &&& parts[8] == summary(total, signed) + "\n"@
        }),
{
    let layout = Layout {
        label_width: label_width(rows, heading),
        widths: widths(rows, signed),
        signed,
        color,
    };
    let total = total_model(rows);
    let rule = rule_text(layout);
    let a = painted(header, Style::Bold, color) + "\n"@;
    let b = line_text(layout, ""@, heading, headings(), Style::Dim);
    let c = line_text(layout, ""@, "TOTAL"@, cells(total, signed), Style::Bold);
    let d = summary(total, signed);
    let rows = rows_text(layout, rows);
    lemma_joined_in_turn(a + rule, b, "\n"@);
    lemma_joined_in_turn(a + rule + (b + "\n"@) + rule + rows + rule, c, "\n"@);
    lemma_joined_in_turn(
        a + rule + (b + "\n"@) + rule + rows + rule + (c + "\n"@) + rule,
        d,
        "\n"@,
    );
    seq![a, rule, b + "\n"@, rule, rows, rule, c + "\n"@, rule, d + "\n"@]
}

proof fn lemma_joined_in_turn(a: Seq<char>, b: Seq<char>, c: Seq<char>)
    ensures
        a + b + c == a + (b + c),
{
    assert(a + b + c =~= a + (b + c));
}

/// The widths of the columns are those that fit the headings, the total and
/// every row.
pub proof fn law_widths_fit_every_line(rows: Seq<RowModel>, signed: bool, i: int)
    requires
        0 <= i < 7,
    ensures
        widths(rows, signed).len() == 7,
        headings()[i].len() <= widths(rows, signed)[i],
        cells(total_model(rows), signed)[i].len() <= widths(rows, signed)[i],
        forall|k: int|
            0 <= k < rows.len() ==> cells(#[trigger] rows[k], signed)[i].len() <= widths(
                rows,
                signed,
            )[i],
        ({
            let w = widths(rows, signed)[i];
            ||| w == headings()[i].len()
            ||| w == cells(total_model(rows), signed)[i].len()
            ||| exists|k: int| 0 <= k < rows.len() && cells(#[trigger] rows[k], signed)[i].len() == w
        }),
{
    let lines = cell_lines(rows, signed);
    law_columns_fit_their_cells(lines, i);
    assert(lines[0] == headings());
    assert(lines[1] == cells(total_model(rows), signed));
    assert forall|k: int| 0 <= k < rows.len() implies cells(#[trigger] rows[k], signed)[i].len()
        <= widths(rows, signed)[i] by {
        assert(lines[k + 2] == cells(rows[k], signed));
    }
    let k = choose|k: int|
        0 <= k < lines.len() && (#[trigger] lines[k])[i].len() == column_width(lines, i);
    if k >= 2 {
        assert(lines[k] == cells(rows[k - 2], signed));
    }
}

/// Each file belongs to the row of its own family and label.
pub proof fn law_each_file_has_its_row(
    registry: Registry,
    files: Seq<FileReport>,
    dimension: Dimension,
    depth: int,
    group: bool,
    i: int,
)
    requires
        0 <= i < files.len(),
    ensures
        ({
            let keys = row_keys(registry, files, dimension, depth, group);
            &&& keys.len() == files.len()
            &&& keys[i].0 == family_model(registry, files[i], dimension, group)
            &&& keys[i].1 == label_model(registry, files[i], dimension, depth)
        }),
{
}

/// The numbers of a row are no further than `b` from nothing.
pub open spec fn row_within(row: RowModel, b: int) -> bool {
    &&& -b <= row.files <= b
    &&& -b <= row.stats.prod.code <= b
    &&& -b <= row.stats.prod.comments <= b
    &&& -b <= row.stats.prod.blanks <= b
    &&& -b <= row.stats.test.code <= b
    &&& -b <= row.stats.test.comments <= b
    &&& -b <= row.stats.test.blanks <= b
}

proof fn lemma_totals_within(rows: Seq<RowModel>, b: int)
    requires
        0 <= b,
        forall|i: int|
            0 <= i < rows.len() && !((#[trigger] rows[i]).kind is Family) ==> row_within(
                rows[i],
                b,
            ),
    ensures
        row_within(total_model(rows), b * rows.len()),
    decreases rows.len(),
{
    if rows.len() > 0 {
        let rest = rows.drop_last();
        let n = rest.len() as int;
        assert forall|i: int|
            0 <= i < rest.len() && !((#[trigger] rest[i]).kind is Family) implies row_within(
            rest[i],
            b,
        ) by {
            assert(rest[i] == rows[i]);
        }
        lemma_totals_within(rest, b);
        assert(b * (n + 1) == b * n + b) by (nonlinear_arith);
        let last = rows[rows.len() - 1];
        assert(!(last.kind is Family) ==> row_within(last, b));
    }
}

/// Rows can be added up wherever their numbers are small enough for how many
/// there are, and then each family can be.
pub proof fn law_small_numbers_can_be_added_up(rows: Seq<RowModel>, b: int)
    requires
        0 <= b,
        b * rows.len() <= i64::MAX,
        forall|i: int|
            0 <= i < rows.len() && !((#[trigger] rows[i]).kind is Family) ==> row_within(
                rows[i],
                b,
            ),
    ensures
        totals_fit(rows),
        families_fit(rows),
{
    lemma_small_totals_fit(rows, b);
    assert forall|k: int| 0 <= k < families_seen(rows).len() implies totals_fit(
        members(rows, #[trigger] families_seen(rows)[k]),
    ) by {
        let family = families_seen(rows)[k];
        let own = members(rows, family);
        lemma_members_within(rows, family, b);
        assert(b * own.len() <= b * rows.len()) by (nonlinear_arith)
            requires
                0 <= b,
                own.len() <= rows.len(),
        ;
        lemma_small_totals_fit(own, b);
    }
}

proof fn lemma_small_totals_fit(rows: Seq<RowModel>, b: int)
    requires
        0 <= b,
        b * rows.len() <= i64::MAX,
        forall|i: int|
            0 <= i < rows.len() && !((#[trigger] rows[i]).kind is Family) ==> row_within(
                rows[i],
                b,
            ),
    ensures
        totals_fit(rows),
{
    assert forall|n: int| 0 <= n <= rows.len() implies totals_in_i64(
        totals(#[trigger] rows.take(n)),
    ) by {
        let some = rows.take(n);
        assert forall|i: int|
            0 <= i < some.len() && !((#[trigger] some[i]).kind is Family) implies row_within(
            some[i],
            b,
        ) by {
            assert(some[i] == rows[i]);
        }
        lemma_totals_within(some, b);
        assert(b * n <= b * rows.len()) by (nonlinear_arith)
            requires
                0 <= b,
                n <= rows.len(),
        ;
    }
}

proof fn lemma_members_within(rows: Seq<RowModel>, family: Seq<char>, b: int)
    requires
        forall|i: int|
            0 <= i < rows.len() && !((#[trigger] rows[i]).kind is Family) ==> row_within(
                rows[i],
                b,
            ),
    ensures
        members(rows, family).len() <= rows.len(),
        forall|i: int|
            0 <= i < members(rows, family).len() && !((#[trigger] members(
                rows,
                family,
            )[i]).kind is Family) ==> row_within(members(rows, family)[i], b),
    decreases rows.len(),
{
    if rows.len() > 0 {
        let rest = rows.drop_last();
        assert forall|i: int|
            0 <= i < rest.len() && !((#[trigger] rest[i]).kind is Family) implies row_within(
            rest[i],
            b,
        ) by {
            assert(rest[i] == rows[i]);
        }
        lemma_members_within(rest, family, b);
        let before = members(rest, family);
        let all = members(rows, family);
        let last = rows[rows.len() - 1];
        assert forall|i: int|
            0 <= i < all.len() && !((#[trigger] all[i]).kind is Family) implies row_within(
            all[i],
            b,
        ) by {
            if i < before.len() {
                assert(all[i] == before[i]);
            } else {
                assert(all[i] == last);
            }
        }
    }
}

/// A row can be written with its sum wherever its six numbers are small enough.
pub proof fn law_small_rows_can_be_written(row: RowModel, b: int)
    requires
        0 <= b,
        6 * b <= i64::MAX,
        row_within(row, b),
    ensures
        lines_fit(row),
{
}

/// Rows tie exactly if they have the same label and, unless they are sorted by
/// name, a change of the same size in the column. Rows that tie keep their
/// order.
pub proof fn law_ties_keep_their_order(
    rows: Seq<RowModel>,
    sort: Sort,
    a: RowModel,
    b: RowModel,
)
    ensures
        order::of_rank(finished(rows, sort, None), row_rank(sort), row_rank(sort)(a))
            == order::of_rank(rows, row_rank(sort), row_rank(sort)(a)),
        ({
            let size = |n: int|
                if n < 0 {
                    -n
                } else {
                    n
                };
            let same = match sort {
                Sort::Code => size(a.stats.prod.code + a.stats.test.code) == size(
                    b.stats.prod.code + b.stats.test.code,
                ),
                Sort::Comments => size(a.stats.prod.comments + a.stats.test.comments) == size(
                    b.stats.prod.comments + b.stats.test.comments,
                ),
                Sort::Blanks => size(a.stats.prod.blanks + a.stats.test.blanks) == size(
                    b.stats.prod.blanks + b.stats.test.blanks,
                ),
                Sort::Test => size(a.stats.test.code) == size(b.stats.test.code),
                Sort::Lines => size(
                    a.stats.prod.code + a.stats.prod.comments + a.stats.prod.blanks
                        + a.stats.test.code + a.stats.test.comments + a.stats.test.blanks,
                ) == size(
                    b.stats.prod.code + b.stats.prod.comments + b.stats.prod.blanks
                        + b.stats.test.code + b.stats.test.comments + b.stats.test.blanks,
                ),
                Sort::Name => true,
            };
            row_rank(sort)(a) == row_rank(sort)(b) <==> a.label == b.label && same
        }),
{
    let rank = row_rank(sort);
    order::law_sort_is_stable(rows, rank, rank(a));
    order::lemma_text_rank_differs(a.label, b.label);
    if !(sort is Name) {
        let m = rank(a);
        let n = rank(b);
        let x = -numbers::magnitude(sort_key(a, sort));
        let y = -numbers::magnitude(sort_key(b, sort));
        assert(m == seq![x] + order::text_rank(a.label));
        assert(n == seq![y] + order::text_rank(b.label));
        assert(m[0] == x && n[0] == y);
        assert(m.skip(1) =~= order::text_rank(a.label));
        assert(n.skip(1) =~= order::text_rank(b.label));
    }
}

/// In a label the glyph is dim and the name has the style of its line; the spaces
/// behind them are counted without the escape sequences.
pub proof fn law_glyphs_are_dim(
    prefix: Seq<char>,
    label: Seq<char>,
    width: int,
    style: Style,
    color: bool,
)
    ensures
        ({
            let shown = painted(prefix, Style::Dim, color) + painted(label, style, color);
            let t = label_text(prefix, label, width, style, color);
            let own = prefix.len() + label.len();
            &&& t.take(shown.len() as int) == shown
            &&& t.len() == shown.len() + if width > own {
                width - own
            } else {
                0
            }
            &&& forall|i: int| shown.len() <= i < t.len() ==> #[trigger] t[i] == ' '
        }),
{
    let shown = painted(prefix, Style::Dim, color) + painted(label, style, color);
    let t = label_text(prefix, label, width, style, color);
    assert(t.take(shown.len() as int) =~= shown);
}

/// A line of a table is its label and then its cells. A rule is dim, and apart
/// from that the same with colour and without.
pub proof fn law_lines_start_with_their_label(
    layout: Layout,
    prefix: Seq<char>,
    label: Seq<char>,
    cells: Seq<Seq<char>>,
    style: Style,
)
    ensures
        ({
            let front = label_text(prefix, label, layout.label_width, style, layout.color);
            let back = cells_text(cells, layout.widths, style, layout.signed, layout.color);
            let line = line_text(layout, prefix, label, cells, style);
            &&& line.len() == front.len() + back.len()
            &&& line.take(front.len() as int) == front
            &&& line.skip(front.len() as int) == back
        }),
        ({
            let bare = rule_text(Layout { color: false, ..layout });
            &&& bare.len() > 0
            &&& rule_text(layout) == painted(
                bare.take(bare.len() - 1),
                Style::Dim,
                layout.color,
            ) + "\n"@
        }),
{
    reveal_strlit("\n");
    let front = label_text(prefix, label, layout.label_width, style, layout.color);
    let back = cells_text(cells, layout.widths, style, layout.signed, layout.color);
    let line = line_text(layout, prefix, label, cells, style);
    assert(line.take(front.len() as int) =~= front);
    assert(line.skip(front.len() as int) =~= back);
    let dashes = repeated(
        '─',
        layout.label_width + sum(layout.widths) + 2 * layout.widths.len(),
    );
    let bare = rule_text(Layout { color: false, ..layout });
    assert(bare.take(bare.len() - 1) =~= dashes);
}

/// The sum of widths is what each adds.
pub proof fn law_widths_add_up(s: Seq<int>, w: int)
    ensures
        sum(s.push(w)) == sum(s) + w,
        sum(Seq::empty()) == 0,
{
    assert(s.push(w).drop_last() =~= s);
}

/// Rows and their total can be written with their sums wherever their numbers
/// are small enough for how many rows there are.
pub proof fn law_small_reports_can_be_written(rows: Seq<RowModel>, b: int)
    requires
        0 <= b,
        6 * b <= i64::MAX,
        6 * (b * rows.len()) <= i64::MAX,
        forall|i: int| 0 <= i < rows.len() ==> row_within(#[trigger] rows[i], b),
    ensures
        all_lines_fit(rows),
{
    lemma_totals_within(rows, b);
    assert forall|i: int| 0 <= i < rows.len() implies lines_fit(#[trigger] rows[i]) by {
        assert(row_within(rows[i], b));
    }
}

proof fn lemma_interleaved_within(blocks: Seq<(RowModel, Seq<RowModel>)>, b: int)
    requires
        forall|k: int| 0 <= k < blocks.len() ==> (#[trigger] blocks[k]).0.kind is Family,
        forall|k: int, i: int|
            0 <= k < blocks.len() && 0 <= i < blocks[k].1.len() ==> row_within(
                #[trigger] blocks[k].1[i],
                b,
            ),
    ensures
        forall|i: int|
            0 <= i < interleaved(blocks).len() && !((#[trigger] interleaved(
                blocks,
            )[i]).kind is Family) ==> row_within(interleaved(blocks)[i], b),
    decreases blocks.len(),
{
    if blocks.len() > 0 {
        let rest = blocks.drop_last();
        let n = blocks.len() - 1;
        assert forall|k: int| 0 <= k < rest.len() implies (#[trigger] rest[k]).0.kind is Family by {
            assert(rest[k] == blocks[k]);
        }
        assert forall|k: int, i: int|
            0 <= k < rest.len() && 0 <= i < rest[k].1.len() implies row_within(
            #[trigger] rest[k].1[i],
            b,
        ) by {
            assert(row_within(blocks[k].1[i], b));
        }
        lemma_interleaved_within(rest, b);
        let before = interleaved(rest);
        let all = interleaved(blocks);
        let m = before.len() as int;
        assert(blocks[n].0.kind is Family);
        assert forall|i: int|
            0 <= i < all.len() && !((#[trigger] all[i]).kind is Family) implies row_within(
            all[i],
            b,
        ) by {
            if i < m {
                assert(all[i] == before[i]);
            } else if i == m {
                assert(all[i] == blocks[n].0);
            } else {
                assert(all[i] == blocks[n].1[i - m - 1]);
                assert(row_within(blocks[n].1[i - m - 1], b));
            }
        }
    }
}

/// Grouping rows by family brings in roll-ups only: every other row has the
/// numbers of one of the rows.
pub proof fn law_only_roll_ups_are_brought_in(rows: Seq<RowModel>, sort: Sort, b: int)
    requires
        no_roll_ups(rows),
        forall|i: int| 0 <= i < rows.len() ==> row_within(#[trigger] rows[i], b),
    ensures
        forall|i: int|
            0 <= i < with_families(rows, sort).len() && !((#[trigger] with_families(
                rows,
                sort,
            )[i]).kind is Family) ==> row_within(with_families(rows, sort)[i], b),
{
    if !ungrouped(rows) {
        let blocks = law_families_stand_above_their_rows(rows, sort);
        assert forall|k: int, i: int|
            0 <= k < blocks.len() && 0 <= i < blocks[k].1.len() implies row_within(
            #[trigger] blocks[k].1[i],
            b,
        ) by {
            let family = blocks[k].0.label;
            let own = members(rows, family);
            lemma_members_within(rows, family, b);
            lemma_members_no_roll_ups(rows, family);
            assert(!(own[i].kind is Family));
            assert(row_within(own[i], b));
        }
        assert forall|k: int| 0 <= k < blocks.len() implies (
        #[trigger] blocks[k]).0.kind is Family by {}
        lemma_interleaved_within(blocks, b);
    }
}

} // verus!
