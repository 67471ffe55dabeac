//! Counting results and the ways of slicing them.

use std::ops::{Add, Sub};

use vstd::prelude::*;
use vstd::std_specs::convert::FromSpecImpl;
use vstd::std_specs::ops::{AddSpecImpl, SubSpecImpl};

use crate::lang::{LanguageId, Registry};
use crate::order;
use crate::ordmap;
use crate::ordmap::{Key, OrdMap};
use crate::path;
use crate::path::PathKey;
use crate::text;

verus! {

// ---------------------------------------------------------------------------
// The mathematical counts
// ---------------------------------------------------------------------------

/// Line counts along the code/comment/blank axis, without an upper limit.
pub struct Tally {
    pub code: int,
    pub comments: int,
    pub blanks: int,
}

/// A [`Tally`] for each side of the test/not-test axis.
pub struct SplitTally {
    pub prod: Tally,
    pub test: Tally,
}

impl Tally {
    pub open spec fn zero() -> Tally {
        Tally { code: 0, comments: 0, blanks: 0 }
    }

    pub open spec fn plus(self, other: Tally) -> Tally {
        Tally {
            code: self.code + other.code,
            comments: self.comments + other.comments,
            blanks: self.blanks + other.blanks,
        }
    }

    pub open spec fn minus(self, other: Tally) -> Tally {
        Tally {
            code: self.code - other.code,
            comments: self.comments - other.comments,
            blanks: self.blanks - other.blanks,
        }
    }

    pub open spec fn lines(self) -> int {
        self.code + self.comments + self.blanks
    }

    /// The tally of a single line.
    pub open spec fn one(kind: LineKind) -> Tally {
        Tally {
            code: if kind is Code { 1 } else { 0 },
            comments: if kind is Comment { 1 } else { 0 },
            blanks: if kind is Blank { 1 } else { 0 },
        }
    }
}

impl SplitTally {
    pub open spec fn zero() -> SplitTally {
        SplitTally { prod: Tally::zero(), test: Tally::zero() }
    }

    pub open spec fn plus(self, other: SplitTally) -> SplitTally {
        SplitTally { prod: self.prod.plus(other.prod), test: self.test.plus(other.test) }
    }

    pub open spec fn minus(self, other: SplitTally) -> SplitTally {
        SplitTally { prod: self.prod.minus(other.prod), test: self.test.minus(other.test) }
    }

    pub open spec fn total(self) -> Tally {
        self.prod.plus(self.test)
    }

    pub open spec fn lines(self) -> int {
        self.total().lines()
    }

    /// How many lines of a kind there are.
    pub open spec fn at(self, kind: LineKind, is_test: bool) -> int {
        let tally = if is_test {
            self.test
        } else {
            self.prod
        };
        match kind {
            LineKind::Code => tally.code,
            LineKind::Comment => tally.comments,
            LineKind::Blank => tally.blanks,
        }
    }

    /// The tally of a single line.
    pub open spec fn one(kind: LineKind, is_test: bool) -> SplitTally {
        if is_test {
            SplitTally { prod: Tally::zero(), test: Tally::one(kind) }
        } else {
            SplitTally { prod: Tally::one(kind), test: Tally::zero() }
        }
    }
}

// ---------------------------------------------------------------------------
// Counts
// ---------------------------------------------------------------------------

/// What a single line was classified as.
#[derive(Debug, Clone, Copy, PartialEq, Eq, Structural)]
pub enum LineKind {
    Code,
    Comment,
    Blank,
}

/// Line counts along the code/comment/blank axis.
#[derive(Debug, Clone, Copy, PartialEq, Eq, Structural)]
pub struct Counts {
    pub code: u64,
    pub comments: u64,
    pub blanks: u64,
}

impl View for Counts {
    type V = Tally;

    open spec fn view(&self) -> Tally {
        Tally { code: self.code as int, comments: self.comments as int, blanks: self.blanks as int }
    }
}

impl Default for Counts {
    fn default() -> (r: Counts)
        ensures
            r@ == Tally::zero(),
    {
        Counts { code: 0, comments: 0, blanks: 0 }
    }
}

impl Counts {
    /// Every line, whatever its kind.
    pub fn lines(&self) -> (r: u64)
        requires
            self@.lines() <= u64::MAX,
        ensures
            r == self@.lines(),
    {
        self.code + self.comments + self.blanks
    }

    pub fn is_empty(&self) -> (r: bool)
        ensures
            r == (self@.lines() == 0),
    {
        self.code == 0 && self.comments == 0 && self.blanks == 0
    }
}

impl Counts {
    pub open spec fn can_add(self, rhs: Counts) -> bool {
        &&& self.code + rhs.code <= u64::MAX
        &&& self.comments + rhs.comments <= u64::MAX
        &&& self.blanks + rhs.blanks <= u64::MAX
    }

    pub open spec fn added(self, rhs: Counts) -> Counts {
        Counts {
            code: (self.code + rhs.code) as u64,
            comments: (self.comments + rhs.comments) as u64,
            blanks: (self.blanks + rhs.blanks) as u64,
        }
    }
}

impl AddSpecImpl<Counts> for Counts {
    open spec fn obeys_add_spec() -> bool {
        true
    }

    open spec fn add_req(self, rhs: Counts) -> bool {
        self.can_add(rhs)
    }

    open spec fn add_spec(self, rhs: Counts) -> Counts {
        self.added(rhs)
    }
}

impl Add<Counts> for Counts {
    type Output = Counts;

    fn add(self, rhs: Counts) -> (r: Counts) {
        Counts {
            code: self.code + rhs.code,
            comments: self.comments + rhs.comments,
            blanks: self.blanks + rhs.blanks,
        }
    }
}

/// Line counts split by whether the lines are test code.
///
/// This is the unit of aggregation: every dimension reported on is a map from
/// some key to one of these.
#[derive(Debug, Clone, Copy, PartialEq, Eq, Structural)]
pub struct Stats {
    /// Lines that are not test code.
    pub prod: Counts,
    /// Lines that are test code.
    pub test: Counts,
}

impl View for Stats {
    type V = SplitTally;

    open spec fn view(&self) -> SplitTally {
        SplitTally { prod: self.prod@, test: self.test@ }
    }
}

impl Default for Stats {
    fn default() -> (r: Stats)
        ensures
            r@ == SplitTally::zero(),
    {
        Stats {
            prod: Counts { code: 0, comments: 0, blanks: 0 },
            test: Counts { code: 0, comments: 0, blanks: 0 },
        }
    }
}

impl Stats {
    pub fn total(&self) -> (r: Counts)
        requires
            self@.total().code <= u64::MAX,
            self@.total().comments <= u64::MAX,
            self@.total().blanks <= u64::MAX,
        ensures
            r@ == self@.total(),
    {
        self.prod + self.test
    }

    pub fn lines(&self) -> (r: u64)
        requires
            self@.lines() <= u64::MAX,
        ensures
            r == self@.lines(),
    {
        self.total().lines()
    }

    pub fn is_empty(&self) -> (r: bool)
        ensures
            r == (self@.lines() == 0),
    {
        self.prod.is_empty() && self.test.is_empty()
    }

    /// The share of counted code lines that are test code, as a numerator and
    /// a denominator. `None` when there are no code lines to take a ratio of.
    pub fn test_ratio(&self) -> (r: Option<(u64, u64)>)
        requires
            self@.total().code <= u64::MAX,
        ensures
            r is None <==> self@.total().code == 0,
            r matches Some(ratio) ==> ratio.0 == self@.test.code && ratio.1 == self@.total().code,
    {
        let total: u64 = self.prod.code + self.test.code;
        if total > 0 {
            Some((self.test.code, total))
        } else {
            None
        }
    }

    /// Record one classified line in the appropriate bucket.
    pub fn record(&mut self, kind: LineKind, is_test: bool)
        requires
            old(self)@.at(kind, is_test) < u64::MAX,
        ensures
            final(self)@ == old(self)@.plus(SplitTally::one(kind, is_test)),
    {
        if is_test {
            match kind {
                LineKind::Code => {
                    self.test.code = self.test.code + 1;
                },
                LineKind::Comment => {
                    self.test.comments = self.test.comments + 1;
                },
                LineKind::Blank => {
                    self.test.blanks = self.test.blanks + 1;
                },
            }
        } else {
            match kind {
                LineKind::Code => {
                    self.prod.code = self.prod.code + 1;
                },
                LineKind::Comment => {
                    self.prod.comments = self.prod.comments + 1;
                },
                LineKind::Blank => {
                    self.prod.blanks = self.prod.blanks + 1;
                },
            }
        }
    }
}

impl Stats {
    pub open spec fn can_add(self, rhs: Stats) -> bool {
        self.prod.can_add(rhs.prod) && self.test.can_add(rhs.test)
    }

    pub open spec fn added(self, rhs: Stats) -> Stats {
        Stats { prod: self.prod.added(rhs.prod), test: self.test.added(rhs.test) }
    }
}

impl AddSpecImpl<Stats> for Stats {
    open spec fn obeys_add_spec() -> bool {
        true
    }

    open spec fn add_req(self, rhs: Stats) -> bool {
        self.can_add(rhs)
    }

    open spec fn add_spec(self, rhs: Stats) -> Stats {
        self.added(rhs)
    }
}

impl Add<Stats> for Stats {
    type Output = Stats;

    fn add(self, rhs: Stats) -> (r: Stats) {
        Stats { prod: self.prod + rhs.prod, test: self.test + rhs.test }
    }
}

// ---------------------------------------------------------------------------
// Signed arithmetic, for diffing two reports
// ---------------------------------------------------------------------------

/// Line counts that may be negative, produced by diffing two reports.
#[derive(Debug, Clone, Copy, PartialEq, Eq, Structural)]
pub struct SignedCounts {
    pub code: i64,
    pub comments: i64,
    pub blanks: i64,
}

impl View for SignedCounts {
    type V = Tally;

    open spec fn view(&self) -> Tally {
        Tally { code: self.code as int, comments: self.comments as int, blanks: self.blanks as int }
    }
}

impl Default for SignedCounts {
    fn default() -> (r: SignedCounts)
        ensures
            r@ == Tally::zero(),
    {
        SignedCounts { code: 0, comments: 0, blanks: 0 }
    }
}

/// Whether `n` is within the range of an `i64`.
pub open spec fn in_i64(n: int) -> bool {
    i64::MIN <= n <= i64::MAX
}

impl SignedCounts {
    pub fn lines(&self) -> (r: i64)
        requires
            in_i64(self.code + self.comments),
            in_i64(self@.lines()),
        ensures
            r == self@.lines(),
    {
        self.code + self.comments + self.blanks
    }

    pub fn is_empty(&self) -> (r: bool)
        ensures
            r == (self@ == Tally::zero()),
    {
        self.code == 0 && self.comments == 0 && self.blanks == 0
    }
}

impl SignedCounts {
    pub open spec fn of(c: Counts) -> SignedCounts {
        SignedCounts {
            code: c.code as i64,
            comments: c.comments as i64,
            blanks: c.blanks as i64,
        }
    }
}

impl FromSpecImpl<Counts> for SignedCounts {
    open spec fn obeys_from_spec() -> bool {
        true
    }

    open spec fn from_spec(c: Counts) -> SignedCounts {
        SignedCounts::of(c)
    }
}

impl From<Counts> for SignedCounts {
    fn from(c: Counts) -> (r: SignedCounts) {
        SignedCounts { code: c.code as i64, comments: c.comments as i64, blanks: c.blanks as i64 }
    }
}

impl SignedCounts {
    pub open spec fn can_sub(self, rhs: SignedCounts) -> bool {
        &&& in_i64(self.code - rhs.code)
        &&& in_i64(self.comments - rhs.comments)
        &&& in_i64(self.blanks - rhs.blanks)
    }

    pub open spec fn subtracted(self, rhs: SignedCounts) -> SignedCounts {
        SignedCounts {
            code: (self.code - rhs.code) as i64,
            comments: (self.comments - rhs.comments) as i64,
            blanks: (self.blanks - rhs.blanks) as i64,
        }
    }
}

impl SubSpecImpl<SignedCounts> for SignedCounts {
    open spec fn obeys_sub_spec() -> bool {
        true
    }

    open spec fn sub_req(self, rhs: SignedCounts) -> bool {
        self.can_sub(rhs)
    }

    open spec fn sub_spec(self, rhs: SignedCounts) -> SignedCounts {
        self.subtracted(rhs)
    }
}

impl Sub<SignedCounts> for SignedCounts {
    type Output = SignedCounts;

    fn sub(self, rhs: SignedCounts) -> (r: SignedCounts) {
        SignedCounts {
            code: self.code - rhs.code,
            comments: self.comments - rhs.comments,
            blanks: self.blanks - rhs.blanks,
        }
    }
}

impl SignedCounts {
    pub open spec fn can_add(self, rhs: SignedCounts) -> bool {
        &&& in_i64(self.code + rhs.code)
        &&& in_i64(self.comments + rhs.comments)
        &&& in_i64(self.blanks + rhs.blanks)
    }

    pub open spec fn added(self, rhs: SignedCounts) -> SignedCounts {
        SignedCounts {
            code: (self.code + rhs.code) as i64,
            comments: (self.comments + rhs.comments) as i64,
            blanks: (self.blanks + rhs.blanks) as i64,
        }
    }
}

impl AddSpecImpl<SignedCounts> for SignedCounts {
    open spec fn obeys_add_spec() -> bool {
        true
    }

    open spec fn add_req(self, rhs: SignedCounts) -> bool {
        self.can_add(rhs)
    }

    open spec fn add_spec(self, rhs: SignedCounts) -> SignedCounts {
        self.added(rhs)
    }
}

impl Add<SignedCounts> for SignedCounts {
    type Output = SignedCounts;

    fn add(self, rhs: SignedCounts) -> (r: SignedCounts) {
        SignedCounts {
            code: self.code + rhs.code,
            comments: self.comments + rhs.comments,
            blanks: self.blanks + rhs.blanks,
        }
    }
}

/// [`Stats`] that may be negative.
#[derive(Debug, Clone, Copy, PartialEq, Eq, Structural)]
pub struct SignedStats {
    pub prod: SignedCounts,
    pub test: SignedCounts,
}

impl View for SignedStats {
    type V = SplitTally;

    open spec fn view(&self) -> SplitTally {
        SplitTally { prod: self.prod@, test: self.test@ }
    }
}

impl Default for SignedStats {
    fn default() -> (r: SignedStats)
        ensures
            r@ == SplitTally::zero(),
    {
        SignedStats {
            prod: SignedCounts { code: 0, comments: 0, blanks: 0 },
            test: SignedCounts { code: 0, comments: 0, blanks: 0 },
        }
    }
}

impl SignedStats {
    pub fn total(&self) -> (r: SignedCounts)
        requires
            self.prod.can_add(self.test),
        ensures
            r@ == self@.total(),
    {
        self.prod + self.test
    }

    pub fn lines(&self) -> (r: i64)
        requires
            self.prod.can_add(self.test),
            in_i64(self@.total().code + self@.total().comments),
            in_i64(self@.lines()),
        ensures
            r == self@.lines(),
    {
        self.total().lines()
    }

    pub fn is_empty(&self) -> (r: bool)
        ensures
            r == (self@ == SplitTally::zero()),
    {
        self.prod.is_empty() && self.test.is_empty()
    }
}

impl SignedStats {
    pub open spec fn of(s: Stats) -> SignedStats {
        SignedStats {
            prod: SignedCounts::of(s.prod),
            test: SignedCounts::of(s.test),
        }
    }
}

impl FromSpecImpl<Stats> for SignedStats {
    open spec fn obeys_from_spec() -> bool {
        true
    }

    open spec fn from_spec(s: Stats) -> SignedStats {
        SignedStats::of(s)
    }
}

impl From<Stats> for SignedStats {
    fn from(s: Stats) -> (r: SignedStats) {
        SignedStats { prod: SignedCounts::from(s.prod), test: SignedCounts::from(s.test) }
    }
}

impl SignedStats {
    pub open spec fn can_sub(self, rhs: SignedStats) -> bool {
        self.prod.can_sub(rhs.prod) && self.test.can_sub(rhs.test)
    }

    pub open spec fn subtracted(self, rhs: SignedStats) -> SignedStats {
        SignedStats { prod: self.prod.subtracted(rhs.prod), test: self.test.subtracted(rhs.test) }
    }
}

impl SubSpecImpl<SignedStats> for SignedStats {
    open spec fn obeys_sub_spec() -> bool {
        true
    }

    open spec fn sub_req(self, rhs: SignedStats) -> bool {
        self.can_sub(rhs)
    }

    open spec fn sub_spec(self, rhs: SignedStats) -> SignedStats {
        self.subtracted(rhs)
    }
}

impl Sub<SignedStats> for SignedStats {
    type Output = SignedStats;

    fn sub(self, rhs: SignedStats) -> (r: SignedStats) {
        SignedStats { prod: self.prod - rhs.prod, test: self.test - rhs.test }
    }
}

// ---------------------------------------------------------------------------
// Files
// ---------------------------------------------------------------------------

/// The result of counting one file.
#[derive(Debug, Clone, PartialEq, Eq)]
pub struct FileReport {
    /// Path relative to the root of the tree the file came from.
    pub path: String,
    /// `None` for files whose language could not be determined.
    pub language: Option<LanguageId>,
    /// Set when the file's *path* marked it as test code, as opposed to
    /// individual blocks within it.
    pub is_test_file: bool,
    pub stats: Stats,
}

/// The name of a language that may be unknown.
pub open spec fn language_name_of(registry: Registry, language: Option<LanguageId>) -> Seq<char> {
    match language {
        Some(id) => registry.langs()[id.0 as int].name@,
        None => "Unknown"@,
    }
}

/// The extension of a path in lower case, or its whole file name if it has
/// none.
pub open spec fn extension_label(path: Seq<char>) -> Seq<char> {
    match path::extension(path) {
        Some(ext) => text::lowered(ext),
        None => match path::file_name(path) {
            Some(name) => name,
            None => Seq::empty(),
        },
    }
}

impl FileReport {
    /// The name of the family the file's language belongs to, e.g. `JavaScript`
    /// for a `.tsx` file. Languages no family claims report `Other`.
    pub fn family_name(&self, registry: &Registry) -> (r: String)
        requires
            registry.wf(),
            registry.knows(self.language),
        ensures
            r@ == registry.family_name_of(self.language),
    {
        registry.family_name(self.language).to_owned()
    }

    pub fn language_name(&self, registry: &Registry) -> (r: String)
        requires
            registry.knows(self.language),
        ensures
            r@ == language_name_of(*registry, self.language),
    {
        match self.language {
            Some(id) => registry.get(id).name.clone(),
            None => "Unknown".to_owned(),
        }
    }

    /// The file's extension, lowercased. Files without one report their whole
    /// filename, which is what makes `Makefile` and `Dockerfile` legible.
    pub fn extension(&self) -> (r: String)
        ensures
            r@ == extension_label(self.path@),
    {
        match path::extension_of(self.path.as_str()) {
            Some(ext) => text::lower(ext.as_str()),
            None => match path::file_name_of(self.path.as_str()) {
                Some(name) => name,
                None => String::new(),
            },
        }
    }
}

// ---------------------------------------------------------------------------
// Reports
// ---------------------------------------------------------------------------

/// A collection of per-file results.
///
/// Merging is a concatenation, so folding thousands of single-file reports
/// together is linear and allocation-light. Aggregation along any dimension is
/// deferred until something actually asks for it.
#[derive(Debug, Clone, PartialEq, Eq)]
pub struct Report {
    pub files: Vec<FileReport>,
}

impl View for Report {
    type V = Seq<FileReport>;

    open spec fn view(&self) -> Seq<FileReport> {
        self.files@
    }
}

impl Default for Report {
    fn default() -> (r: Report)
        ensures
            r@ == Seq::<FileReport>::empty(),
    {
        Report { files: Vec::new() }
    }
}

/// The files of several reports, in their order.
pub open spec fn all_files(reports: Seq<Report>) -> Seq<FileReport>
    decreases reports.len(),
{
    if reports.len() == 0 {
        Seq::empty()
    } else {
        all_files(reports.drop_last()) + reports.last()@
    }
}

/// The tally of some files.
pub open spec fn total_tally(files: Seq<FileReport>) -> SplitTally
    decreases files.len(),
{
    if files.len() == 0 {
        SplitTally::zero()
    } else {
        total_tally(files.drop_last()).plus(files.last().stats@)
    }
}

/// The tally of the files whose key is `key`, where `keys` has the key of each.
pub open spec fn tally_where<T>(files: Seq<FileReport>, keys: Seq<T>, key: T) -> SplitTally
    decreases files.len(),
{
    if files.len() == 0 {
        SplitTally::zero()
    } else {
        let rest = tally_where(files.drop_last(), keys.drop_last(), key);
        if keys.last() == key {
            rest.plus(files.last().stats@)
        } else {
            rest
        }
    }
}

/// Counts are never negative.
pub open spec fn counts_up(tally: SplitTally) -> bool {
    &&& tally.prod.code >= 0
    &&& tally.prod.comments >= 0
    &&& tally.prod.blanks >= 0
    &&& tally.test.code >= 0
    &&& tally.test.comments >= 0
    &&& tally.test.blanks >= 0
}

/// None of the counts is above `limit`.
pub open spec fn within(tally: SplitTally, limit: int) -> bool {
    &&& tally.prod.code <= limit
    &&& tally.prod.comments <= limit
    &&& tally.prod.blanks <= limit
    &&& tally.test.code <= limit
    &&& tally.test.comments <= limit
    &&& tally.test.blanks <= limit
}

/// None of the counts of any group is above `limit`.
pub open spec fn groups_within<T>(files: Seq<FileReport>, keys: Seq<T>, limit: int) -> bool {
    forall|key: T| within(#[trigger] tally_where(files, keys, key), limit)
}

/// The counts that a tally stands for.
pub open spec fn stats_of(tally: SplitTally) -> Stats {
    Stats {
        prod: Counts {
            code: tally.prod.code as u64,
            comments: tally.prod.comments as u64,
            blanks: tally.prod.blanks as u64,
        },
        test: Counts {
            code: tally.test.code as u64,
            comments: tally.test.comments as u64,
            blanks: tally.test.blanks as u64,
        },
    }
}

/// Counts are told by their tally.
pub proof fn lemma_stats_of(stats: Stats)
    ensures
        stats_of(stats@) == stats,
{
}

pub proof fn lemma_total_counts_up(files: Seq<FileReport>, n: int)
    requires
        0 <= n <= files.len(),
    ensures
        counts_up(total_tally(files)),
        counts_up(total_tally(files.take(n))),
        counts_up(total_tally(files).minus(total_tally(files.take(n)))),
    decreases files.len(),
{
    if n == files.len() {
        assert(files.take(n) =~= files);
        if n > 0 {
            lemma_total_counts_up(files.drop_last(), n - 1);
        }
    } else {
        lemma_total_counts_up(files.drop_last(), n);
        assert(files.drop_last().take(n) =~= files.take(n));
    }
}

/// The files of one key count no more than all of them.
pub proof fn lemma_part_of_total<T>(files: Seq<FileReport>, keys: Seq<T>, key: T)
    requires
        files.len() == keys.len(),
    ensures
        counts_up(tally_where(files, keys, key)),
        counts_up(total_tally(files)),
        tally_where(files, keys, key).lines() <= total_tally(files).lines(),
        tally_where(files, keys, key).prod.code <= total_tally(files).prod.code,
        tally_where(files, keys, key).prod.comments <= total_tally(files).prod.comments,
        tally_where(files, keys, key).prod.blanks <= total_tally(files).prod.blanks,
        tally_where(files, keys, key).test.code <= total_tally(files).test.code,
        tally_where(files, keys, key).test.comments <= total_tally(files).test.comments,
        tally_where(files, keys, key).test.blanks <= total_tally(files).test.blanks,
    decreases files.len(),
{
    if files.len() > 0 {
        lemma_part_of_total(files.drop_last(), keys.drop_last(), key);
    }
}

/// The first files of a key count no more than all of that key.
pub proof fn lemma_tally_where_grows<T>(files: Seq<FileReport>, keys: Seq<T>, key: T, n: int)
    requires
        files.len() == keys.len(),
        0 <= n <= files.len(),
    ensures
        counts_up(tally_where(files, keys, key)),
        counts_up(tally_where(files.take(n), keys.take(n), key)),
        ({
            let some = tally_where(files.take(n), keys.take(n), key);
            let all = tally_where(files, keys, key);
            counts_up(all.minus(some))
        }),
    decreases files.len(),
{
    if n == files.len() {
        assert(files.take(n) =~= files);
        assert(keys.take(n) =~= keys);
        lemma_part_of_total(files, keys, key);
    } else {
        lemma_tally_where_grows(files.drop_last(), keys.drop_last(), key, n);
        assert(files.drop_last().take(n) =~= files.take(n));
        assert(keys.drop_last().take(n) =~= keys.take(n));
    }
}

/// Groups stay below a limit as they grow.
pub proof fn lemma_groups_within_prefix<T>(
    files: Seq<FileReport>,
    keys: Seq<T>,
    limit: int,
    n: int,
)
    requires
        files.len() == keys.len(),
        0 <= n <= files.len(),
        groups_within(files, keys, limit),
    ensures
        groups_within(files.take(n), keys.take(n), limit),
{
    assert forall|key: T| within(
        #[trigger] tally_where(files.take(n), keys.take(n), key),
        limit,
    ) by {
        lemma_tally_where_grows(files, keys, key, n);
        assert(within(tally_where(files, keys, key), limit));
    }
}

pub proof fn lemma_tally_where_absent<T>(files: Seq<FileReport>, keys: Seq<T>, key: T)
    requires
        files.len() == keys.len(),
        !keys.contains(key),
    ensures
        tally_where(files, keys, key) == SplitTally::zero(),
    decreases files.len(),
{
    if files.len() > 0 {
        assert(keys.last() == keys[keys.len() - 1]);
        assert forall|k: T| keys.drop_last().contains(k) implies keys.contains(k) by {
            let i = choose|i: int| 0 <= i < keys.drop_last().len() && keys.drop_last()[i] == k;
            assert(keys[i] == k);
        }
        lemma_tally_where_absent(files.drop_last(), keys.drop_last(), key);
    }
}

/// The groups are those of the keys, and each has the tally of its files.
pub open spec fn groups<T>(groups: Map<T, Stats>, files: Seq<FileReport>, keys: Seq<T>) -> bool {
    &&& keys.len() == files.len()
    &&& forall|key: T| #[trigger] groups.dom().contains(key) <==> keys.contains(key)
    &&& forall|key: T| #[trigger]
        groups.dom().contains(key) ==> groups[key]@ == tally_where(files, keys, key)
}

/// A function gives these keys to some files.
pub open spec fn keys_given<'s, K: Key, F: Fn(&'s FileReport) -> K>(
    function: F,
    files: Seq<FileReport>,
    given: Seq<K>,
) -> bool {
    &&& given.len() == files.len()
    &&& forall|i: int|
        0 <= i < files.len() ==> call_ensures(function, (&files[i],), #[trigger] given[i])
}

/// What some keys are.
pub open spec fn key_views<K: Key>(given: Seq<K>) -> Seq<K::V> {
    given.map_values(|k: K| k@)
}

/// A key is the first that was given of those equal to it.
pub open spec fn given_first<K: Key>(given: Seq<K>, key: K) -> bool {
    exists|i: int|
        #![trigger given[i]]
        0 <= i < given.len() && given[i] == key && forall|j: int|
            0 <= j < i ==> (#[trigger] given[j])@ != key@
}

/// Files can be grouped along a function, however far that has come: no sum is
/// out of the range of the counts.
pub open spec fn can_group<'s, K: Key, F: Fn(&'s FileReport) -> K>(
    function: F,
    files: Seq<FileReport>,
) -> bool {
    forall|n: int, given: Seq<K>|
        0 <= n <= files.len() && #[trigger] keys_given(function, files.take(n), given)
            ==> groups_within(files.take(n), key_views(given), u64::MAX as int)
}

/// The groups are those that a function makes of some files. Of equal keys the
/// first that was given is held.
pub open spec fn grouped_by<'s, K: Key, F: Fn(&'s FileReport) -> K>(
    function: F,
    files: Seq<FileReport>,
    given: Seq<K>,
    map: OrdMap<K, Stats>,
) -> bool {
    &&& keys_given(function, files, given)
    &&& groups(map@, files, key_views(given))
    &&& forall|i: int|
        0 <= i < map.entries().len() ==> given_first(given, (#[trigger] map.entries()[i]).0)
}

impl Report {
    pub fn new() -> (r: Report)
        ensures
            r@ == Seq::<FileReport>::empty(),
    {
        Report { files: Vec::new() }
    }

    pub fn from_file(file: FileReport) -> (r: Report)
        ensures
            r@ == seq![file],
    {
        let mut files: Vec<FileReport> = Vec::new();
        files.push(file);
        assert(files@ =~= seq![file]);
        Report { files }
    }

    /// Joins two reports.
    pub fn merge(a: Report, b: Report) -> (r: Report)
        ensures
            r@ == a@ + b@,
    {
        let mut a = a;
        a.absorb(b);
        a
    }

    /// Merges `other` into `self` in place, reusing `self`'s allocation.
    pub fn absorb(&mut self, other: Report)
        ensures
            final(self)@ == old(self)@ + other@,
    {
        let mut more = other.files;
        self.files.append(&mut more);
    }

    /// Adds files behind those of the report.
    pub fn extend(&mut self, files: Vec<FileReport>)
        ensures
            final(self)@ == old(self)@ + files@,
    {
        let mut more = files;
        self.files.append(&mut more);
    }

    /// Merges the files of several reports, in their order.
    pub fn collect(reports: Vec<Report>) -> (r: Report)
        ensures
            r@ == all_files(reports@),
    {
        let ghost all = reports@;
        let mut out = Report::new();
        for report in it: reports.into_iter()
            invariant
                it.seq() == all,
                out@ == all_files(all.take(it.index())),
        {
            let ghost i = it.index();
            assert(all.take(i + 1).drop_last() =~= all.take(i));
            assert(all.take(i + 1).last() == report);
            out.absorb(report);
        }
        assert(all.take(all.len() as int) =~= all);
        out
    }

    pub fn is_empty(&self) -> (r: bool)
        ensures
            r == (self@.len() == 0),
    {
        self.files.len() == 0
    }

    pub fn len(&self) -> (r: usize)
        ensures
            r == self@.len(),
    {
        self.files.len()
    }

    /// Grand totals across every file.
    pub fn totals(&self) -> (r: Stats)
        requires
            within(total_tally(self@), u64::MAX as int),
        ensures
            r@ == total_tally(self@),
    {
        let mut sum = Stats::default();
        let mut i: usize = 0;
        while i < self.files.len()
            invariant
                i <= self.files.len(),
                within(total_tally(self@), u64::MAX as int),
                sum@ == total_tally(self@.take(i as int)),
            decreases self.files.len() - i,
        {
            proof {
                assert(self@.take(i + 1).drop_last() =~= self@.take(i as int));
                lemma_total_counts_up(self@, i + 1);
                lemma_total_counts_up(self@, i as int);
            }
            sum = sum + self.files[i].stats;
            i = i + 1;
        }
        assert(self@.take(i as int) =~= self@);
        sum
    }

    /// Aggregates along an arbitrary dimension.
    pub fn group_by<K: Key, F: Fn(&FileReport) -> K>(&self, key: F) -> (r: OrdMap<K, Stats>)
        requires
            forall|i: int| 0 <= i < self@.len() ==> call_requires(key, (&#[trigger] self@[i],)),
            can_group::<K, F>(key, self@),
        ensures
            r.wf(),
            exists|given: Seq<K>| #[trigger] grouped_by(key, self@, given, r),
    {
        self.group_by_ref(key)
    }

    /// As [`Report::group_by`], but the key may borrow from the report.
    pub fn group_by_ref<'s, K: Key, F: Fn(&'s FileReport) -> K>(&'s self, key: F) -> (r: OrdMap<
        K,
        Stats,
    >)
        requires
            forall|i: int| 0 <= i < self@.len() ==> call_requires(key, (&#[trigger] self@[i],)),
            can_group::<K, F>(key, self@),
        ensures
            r.wf(),
            exists|given: Seq<K>| #[trigger] grouped_by(key, self@, given, r),
    {
        let mut out: OrdMap<K, Stats> = OrdMap::new();
        let ghost mut given: Seq<K> = Seq::empty();
        let mut i: usize = 0;
        assert(self@.take(0) =~= Seq::empty());
        while i < self.files.len()
            invariant
                i <= self.files.len(),
                can_group::<K, F>(key, self@),
                forall|j: int|
                    0 <= j < self@.len() ==> call_requires(key, (&#[trigger] self@[j],)),
                out.wf(),
                grouped_by(key, self@.take(i as int), given, out),
            decreases self.files.len() - i,
        {
            let file = &self.files[i];
            assert(*file == self@[i as int]);
            let k = key(file);
            let ghost files = self@.take(i as int);
            let ghost more = self@.take(i + 1);
            let ghost before = out;
            let ghost earlier = given;
            let ghost later = given.push(k);
            let ghost keys = key_views(earlier);
            let ghost grown = key_views(later);
            proof {
                assert(more.drop_last() =~= files);
                assert(grown =~= keys.push(k@));
                assert(grown.drop_last() =~= keys);
                assert forall|j: int| 0 <= j < more.len() implies call_ensures(
                    key,
                    (&more[j],),
                    #[trigger] later[j],
                ) by {
                    if j < i {
                        assert(later[j] == earlier[j]);
                        assert(files[j] == more[j]);
                    }
                }
                assert(keys_given(key, more, later));
                assert(within(tally_where(more, grown, k@), u64::MAX as int));
                if !keys.contains(k@) {
                    lemma_tally_where_absent(files, keys, k@);
                }
                lemma_part_of_total(files, keys, k@);
            }
            let sum = match out.get(&k) {
                Some(sum) => *sum + file.stats,
                None => Stats::default() + file.stats,
            };
            out.insert(k, sum);
            proof {
                assert(sum@ == tally_where(more, grown, k@));
                assert forall|x: K::V| #[trigger] out@.dom().contains(x) <==> grown.contains(
                    x,
                ) by {
                    if grown.contains(x) {
                        let j = choose|j: int| 0 <= j < grown.len() && grown[j] == x;
                        if j < keys.len() {
                            assert(keys[j] == x);
                            assert(before@.dom().contains(x));
                        }
                    }
                    if out@.dom().contains(x) {
                        if x == k@ {
                            assert(grown[i as int] == x);
                        } else {
                            assert(before@.dom().contains(x));
                            let j = choose|j: int| 0 <= j < keys.len() && keys[j] == x;
                            assert(grown[j] == x);
                        }
                    }
                }
                assert forall|x: K::V| #[trigger] out@.dom().contains(x) implies out@[x]@
                    == tally_where(more, grown, x) by {
                    if x != k@ {
                        assert(before@.dom().contains(x));
                    }
                }
                assert forall|j: int| 0 <= j < out.entries().len() implies given_first(
                    later,
                    (#[trigger] out.entries()[j]).0,
                ) by {
                    let held = out.entries()[j].0;
                    assert(ordmap::holds(out.entries(), held));
                    if ordmap::holds(before.entries(), held) {
                        let b = choose|b: int|
                            0 <= b < before.entries().len() && (#[trigger] before.entries()[b]).0
                                == held;
                        assert(given_first(earlier, before.entries()[b].0));
                        let f = choose|f: int|
                            #![trigger earlier[f]]
                            0 <= f < earlier.len() && earlier[f] == held && forall|g: int|
                                0 <= g < f ==> (#[trigger] earlier[g])@ != held@;
                        assert(later[f] == held);
                        assert forall|g: int| 0 <= g < f implies (#[trigger] later[g])@
                            != held@ by {
                            assert(later[g] == earlier[g]);
                        }
                    } else {
                        assert(later[i as int] == held);
                        assert forall|g: int| 0 <= g < i implies (#[trigger] later[g])@
                            != held@ by {
                            assert(later[g] == earlier[g]);
                            assert(keys[g] == earlier[g]@);
                            assert(keys.contains(keys[g]));
                        }
                    }
                }
                given = later;
            }
            i = i + 1;
        }
        assert(self@.take(i as int) =~= self@);
        assert(grouped_by(key, self@, given, out));
        out
    }
}

/// The registry knows the language of every file.
pub open spec fn knows_all(registry: Registry, files: Seq<FileReport>) -> bool {
    forall|i: int| 0 <= i < files.len() ==> registry.knows((#[trigger] files[i]).language)
}

/// The name of each file's language.
pub open spec fn language_keys(registry: Registry, files: Seq<FileReport>) -> Seq<Seq<char>> {
    files.map_values(|f: FileReport| language_name_of(registry, f.language))
}

/// The name of the family of each file's language.
pub open spec fn family_keys(registry: Registry, files: Seq<FileReport>) -> Seq<Seq<char>> {
    files.map_values(|f: FileReport| registry.family_name_of(f.language))
}

/// The extension of each file.
pub open spec fn extension_keys(files: Seq<FileReport>) -> Seq<Seq<char>> {
    files.map_values(|f: FileReport| extension_label(f.path@))
}

/// The path of each file, as it is written.
pub open spec fn path_texts(files: Seq<FileReport>) -> Seq<Seq<char>> {
    files.map_values(|f: FileReport| f.path@)
}

/// The directory that each file is rolled up into, as it is written.
pub open spec fn directory_texts(files: Seq<FileReport>, depth: int) -> Seq<Seq<char>> {
    files.map_values(|f: FileReport| path::directory(f.path@, depth))
}

/// A path is written like the first of those with the same parts.
pub open spec fn spelled_first(texts: Seq<Seq<char>>, text: Seq<char>) -> bool {
    exists|i: int|
        #![trigger texts[i]]
        0 <= i < texts.len() && texts[i] == text && forall|j: int|
            0 <= j < i ==> path::parts(#[trigger] texts[j]) != path::parts(texts[i])
}

/// The path of each file.
pub open spec fn path_keys(files: Seq<FileReport>) -> Seq<Seq<path::PartModel>> {
    files.map_values(|f: FileReport| path::parts(f.path@))
}

/// The directory that each file is rolled up into.
pub open spec fn directory_keys(files: Seq<FileReport>, depth: int) -> Seq<Seq<path::PartModel>> {
    files.map_values(|f: FileReport| path::parts(path::directory(f.path@, depth)))
}

/// Files are ranked by their lines, the largest first.
pub open spec fn size_rank() -> spec_fn(FileReport) -> Seq<int> {
    |f: FileReport| seq![-f.stats@.lines()]
}

/// Whether `a` has more lines than `b`.
fn larger(a: &FileReport, b: &FileReport) -> (r: bool)
    ensures
        r == order::before(size_rank()(*a), size_rank()(*b)),
{
    reveal_with_fuel(order::before, 2);
    let s = &a.stats;
    let x: u128 = s.prod.code as u128 + s.prod.comments as u128 + s.prod.blanks as u128
        + s.test.code as u128 + s.test.comments as u128 + s.test.blanks as u128;
    let t = &b.stats;
    let y: u128 = t.prod.code as u128 + t.prod.comments as u128 + t.prod.blanks as u128
        + t.test.code as u128 + t.test.comments as u128 + t.test.blanks as u128;
    x > y
}

impl Report {
    pub fn by_language(&self, registry: &Registry) -> (r: OrdMap<String, Stats>)
        requires
            knows_all(*registry, self@),
            groups_within(self@, language_keys(*registry, self@), u64::MAX as int),
        ensures
            r.wf(),
            groups(r@, self@, language_keys(*registry, self@)),
    {
        let key = |f: &FileReport| -> (k: String)
            requires
                registry.knows(f.language),
            ensures
                k@ == language_name_of(*registry, f.language),
            { f.language_name(registry) };
        proof {
            let keys = language_keys(*registry, self@);
            assert forall|n: int, given: Seq<String>|
                0 <= n <= self@.len() && #[trigger] keys_given(
                    key,
                    self@.take(n),
                    given,
                ) implies groups_within(self@.take(n), key_views(given), u64::MAX as int) by {
                assert(key_views(given) =~= keys.take(n));
                lemma_groups_within_prefix(self@, keys, u64::MAX as int, n);
            }
        }
        let r = self.group_by(key);
        proof {
            let given = choose|given: Seq<String>| #[trigger] grouped_by(key, self@, given, r);
            assert(key_views(given) =~= language_keys(*registry, self@));
        }
        r
    }

    pub fn by_family(&self, registry: &Registry) -> (r: OrdMap<String, Stats>)
        requires
            registry.wf(),
            knows_all(*registry, self@),
            groups_within(self@, family_keys(*registry, self@), u64::MAX as int),
        ensures
            r.wf(),
            groups(r@, self@, family_keys(*registry, self@)),
    {
        let key = |f: &FileReport| -> (k: String)
            requires
                registry.wf(),
                registry.knows(f.language),
            ensures
                k@ == registry.family_name_of(f.language),
            { f.family_name(registry) };
        proof {
            let keys = family_keys(*registry, self@);
            assert forall|n: int, given: Seq<String>|
                0 <= n <= self@.len() && #[trigger] keys_given(
                    key,
                    self@.take(n),
                    given,
                ) implies groups_within(self@.take(n), key_views(given), u64::MAX as int) by {
                assert(key_views(given) =~= keys.take(n));
                lemma_groups_within_prefix(self@, keys, u64::MAX as int, n);
            }
        }
        let r = self.group_by(key);
        proof {
            let given = choose|given: Seq<String>| #[trigger] grouped_by(key, self@, given, r);
            assert(key_views(given) =~= family_keys(*registry, self@));
        }
        r
    }

    pub fn by_extension(&self) -> (r: OrdMap<String, Stats>)
        requires
            groups_within(self@, extension_keys(self@), u64::MAX as int),
        ensures
            r.wf(),
            groups(r@, self@, extension_keys(self@)),
    {
        let key = |f: &FileReport| -> (k: String)
            ensures
                k@ == extension_label(f.path@),
            { f.extension() };
        proof {
            let keys = extension_keys(self@);
            assert forall|n: int, given: Seq<String>|
                0 <= n <= self@.len() && #[trigger] keys_given(
                    key,
                    self@.take(n),
                    given,
                ) implies groups_within(self@.take(n), key_views(given), u64::MAX as int) by {
                assert(key_views(given) =~= keys.take(n));
                lemma_groups_within_prefix(self@, keys, u64::MAX as int, n);
            }
        }
        let r = self.group_by(key);
        proof {
            let given = choose|given: Seq<String>| #[trigger] grouped_by(key, self@, given, r);
            assert(key_views(given) =~= extension_keys(self@));
        }
        r
    }

    pub fn by_path(&self) -> (r: OrdMap<PathKey, Stats>)
        requires
            groups_within(self@, path_keys(self@), u64::MAX as int),
        ensures
            r.wf(),
            groups(r@, self@, path_keys(self@)),
            forall|i: int|
                0 <= i < r.entries().len() ==> spelled_first(
                    path_texts(self@),
                    (#[trigger] r.entries()[i]).0.text@,
                ),
    {
        let key = |f: &FileReport| -> (k: PathKey)
            ensures
                k.text@ == f.path@,
            { PathKey { text: f.path.clone() } };
        proof {
            let keys = path_keys(self@);
            assert forall|n: int, given: Seq<PathKey>|
                0 <= n <= self@.len() && #[trigger] keys_given(
                    key,
                    self@.take(n),
                    given,
                ) implies groups_within(self@.take(n), key_views(given), u64::MAX as int) by {
                assert(key_views(given) =~= keys.take(n));
                lemma_groups_within_prefix(self@, keys, u64::MAX as int, n);
            }
        }
        let r = self.group_by_ref(key);
        proof {
            let given = choose|given: Seq<PathKey>| #[trigger] grouped_by(key, self@, given, r);
            assert(key_views(given) =~= path_keys(self@));
            let texts = path_texts(self@);
            assert forall|i: int| 0 <= i < r.entries().len() implies spelled_first(
                texts,
                (#[trigger] r.entries()[i]).0.text@,
            ) by {
                let held = r.entries()[i].0;
                assert(given_first(given, held));
                let f = choose|f: int|
                    #![trigger given[f]]
                    0 <= f < given.len() && given[f] == held && forall|g: int|
                        0 <= g < f ==> (#[trigger] given[g])@ != held@;
                assert(texts[f] == held.text@);
                assert forall|g: int| 0 <= g < f implies path::parts(#[trigger] texts[g])
                    != path::parts(texts[f]) by {
                    assert(given[g]@ != held@);
                }
            }
        }
        r
    }

    /// Aggregates by the first `depth` path components, which is the useful
    /// dimension for "which part of the tree was touched". A file shallower
    /// than `depth` groups under its own directory.
    pub fn by_directory(&self, depth: usize) -> (r: OrdMap<PathKey, Stats>)
        requires
            groups_within(self@, directory_keys(self@, depth as int), u64::MAX as int),
        ensures
            r.wf(),
            groups(r@, self@, directory_keys(self@, depth as int)),
            forall|i: int|
                0 <= i < r.entries().len() ==> spelled_first(
                    directory_texts(self@, depth as int),
                    (#[trigger] r.entries()[i]).0.text@,
                ),
    {
        let key = |f: &FileReport| -> (k: PathKey)
            ensures
                k.text@ == path::directory(f.path@, depth as int),
            { PathKey { text: path::directory_of(f.path.as_str(), depth) } };
        proof {
            let keys = directory_keys(self@, depth as int);
            assert forall|n: int, given: Seq<PathKey>|
                0 <= n <= self@.len() && #[trigger] keys_given(
                    key,
                    self@.take(n),
                    given,
                ) implies groups_within(self@.take(n), key_views(given), u64::MAX as int) by {
                assert(key_views(given) =~= keys.take(n));
                lemma_groups_within_prefix(self@, keys, u64::MAX as int, n);
            }
        }
        let r = self.group_by(key);
        proof {
            let given = choose|given: Seq<PathKey>| #[trigger] grouped_by(key, self@, given, r);
            assert(key_views(given) =~= directory_keys(self@, depth as int));
            let texts = directory_texts(self@, depth as int);
            assert forall|i: int| 0 <= i < r.entries().len() implies spelled_first(
                texts,
                (#[trigger] r.entries()[i]).0.text@,
            ) by {
                let held = r.entries()[i].0;
                assert(given_first(given, held));
                let f = choose|f: int|
                    #![trigger given[f]]
                    0 <= f < given.len() && given[f] == held && forall|g: int|
                        0 <= g < f ==> (#[trigger] given[g])@ != held@;
                assert(texts[f] == held.text@);
                assert forall|g: int| 0 <= g < f implies path::parts(#[trigger] texts[g])
                    != path::parts(texts[f]) by {
                    assert(given[g]@ != held@);
                }
            }
        }
        r
    }

    /// Sorts files in place, largest first, by total lines.
    pub fn sort_by_size(&mut self)
        ensures
            final(self)@ == order::sorted_by(old(self)@, size_rank()),
    {
        let mut files: Vec<FileReport> = Vec::new();
        files.append(&mut self.files);
        assert(files@ =~= old(self)@);
        self.files = order::stable_sort(files, larger, Ghost(size_rank()));
    }
}

// ---------------------------------------------------------------------------
// Net change
// ---------------------------------------------------------------------------

/// What a key counts, where a key that is not there counts nothing.
pub open spec fn signed_at<T>(groups: Map<T, Stats>, key: T) -> SignedStats {
    if groups.dom().contains(key) {
        SignedStats::of(groups[key])
    } else {
        SignedStats::of(stats_of(SplitTally::zero()))
    }
}

/// The net change of a key.
pub open spec fn net<T>(before: Map<T, Stats>, after: Map<T, Stats>, key: T) -> SignedStats {
    if before.dom().contains(key) {
        signed_at(after, key).subtracted(SignedStats::of(before[key]))
    } else {
        signed_at(after, key)
    }
}

/// The net change between two reports: `after - before`, keyed by some
/// dimension. Keys present in only one side are treated as zero on the other,
/// and keys that do not change are left out.
pub fn diff_by<K: Key>(before: &OrdMap<K, Stats>, after: &OrdMap<K, Stats>) -> (r: OrdMap<
    K,
    SignedStats,
>)
    requires
        before.wf(),
        after.wf(),
        forall|key: K::V| #[trigger]
            before@.dom().contains(key) ==> signed_at(after@, key).can_sub(
                SignedStats::of(before@[key]),
            ),
    ensures
        r.wf(),
        forall|key: K::V| #[trigger]
            r@.dom().contains(key) <==> net(before@, after@, key)@ != SplitTally::zero(),
        forall|key: K::V| #[trigger]
            r@.dom().contains(key) ==> r@[key] == net(before@, after@, key),
{
    proof {
        before.lemma_entries();
        after.lemma_entries();
    }
    let mut out: OrdMap<K, SignedStats> = OrdMap::new();
    let mut i: usize = 0;
    while i < after.len()
        invariant
            i <= after.entries().len(),
            before.wf(),
            after.wf(),
            forall|key: K::V| #[trigger]
                before@.dom().contains(key) ==> signed_at(after@, key).can_sub(
                    SignedStats::of(before@[key]),
                ),
            forall|k: int|
                0 <= k < after.entries().len() ==> after@.dom().contains(
                    (#[trigger] after.entries()[k]).0@,
                ) && after@[after.entries()[k].0@] == after.entries()[k].1,
            out.wf(),
            forall|key: K::V| #[trigger]
                out@.dom().contains(key) ==> out@[key] == net(before@, after@, key)
                    && after@.dom().contains(key) && net(before@, after@, key)@
                    != SplitTally::zero(),
            forall|k: int|
                0 <= k < i ==> {
                    let key = (#[trigger] after.entries()[k]).0@;
                    net(before@, after@, key)@ != SplitTally::zero() ==> out@.dom().contains(key)
                },
        decreases after.entries().len() - i,
    {
        let entry = after.at(i);
        let now = SignedStats::from(entry.1);
        let change = match before.get(&entry.0) {
            Some(was) => now - SignedStats::from(*was),
            None => now,
        };
        assert(change == net(before@, after@, entry.0@));
        if !change.is_empty() {
            out.insert(entry.0.duplicate(), change);
        }
        i = i + 1;
    }
    assert forall|key: K::V|
        after@.dom().contains(key) && net(before@, after@, key)@ != SplitTally::zero() implies
        #[trigger] out@.dom().contains(key) by {
        let k = choose|k: int| crate::ordmap::key_stands_at(after.entries(), key, k);
        assert(after.entries()[k].0@ == key);
    }
    let mut i: usize = 0;
    while i < before.len()
        invariant
            i <= before.entries().len(),
            before.wf(),
            after.wf(),
            forall|key: K::V| #[trigger]
                before@.dom().contains(key) ==> signed_at(after@, key).can_sub(
                    SignedStats::of(before@[key]),
                ),
            forall|k: int|
                0 <= k < before.entries().len() ==> before@.dom().contains(
                    (#[trigger] before.entries()[k]).0@,
                ) && before@[before.entries()[k].0@] == before.entries()[k].1,
            out.wf(),
            forall|key: K::V| #[trigger]
                out@.dom().contains(key) ==> out@[key] == net(before@, after@, key) && net(
                    before@,
                    after@,
                    key,
                )@ != SplitTally::zero(),
            forall|key: K::V|
                after@.dom().contains(key) && net(before@, after@, key)@ != SplitTally::zero()
                    ==> #[trigger] out@.dom().contains(key),
            forall|k: int|
                0 <= k < i ==> {
                    let key = (#[trigger] before.entries()[k]).0@;
                    net(before@, after@, key)@ != SplitTally::zero() ==> out@.dom().contains(key)
                },
        decreases before.entries().len() - i,
    {
        let entry = before.at(i);
        if !after.contains(&entry.0) {
            let change = SignedStats::default() - SignedStats::from(entry.1);
            assert(change == net(before@, after@, entry.0@));
            if !change.is_empty() {
                out.insert(entry.0.duplicate(), change);
            }
        }
        i = i + 1;
    }
    assert forall|key: K::V| net(before@, after@, key)@ != SplitTally::zero() implies
        #[trigger] out@.dom().contains(key) by {
        if !after@.dom().contains(key) && before@.dom().contains(key) {
            let k = choose|k: int| crate::ordmap::key_stands_at(before.entries(), key, k);
            assert(before.entries()[k].0@ == key);
        }
    }
    out
}

// ---------------------------------------------------------------------------
// Laws
// ---------------------------------------------------------------------------

/// The totals of two reports that are merged add up.
pub proof fn law_merging_adds_totals(a: Seq<FileReport>, b: Seq<FileReport>)
    ensures
        total_tally(a + b) == total_tally(a).plus(total_tally(b)),
    decreases b.len(),
{
    if b.len() == 0 {
        assert(a + b =~= a);
    } else {
        law_merging_adds_totals(a, b.drop_last());
        assert((a + b).drop_last() =~= a + b.drop_last());
    }
}

/// Merging with an empty report changes nothing, and it does not matter which
/// two of three reports are merged first.
pub proof fn law_merging_is_concatenation(
    a: Seq<FileReport>,
    b: Seq<FileReport>,
    c: Seq<FileReport>,
)
    ensures
        a + Seq::<FileReport>::empty() == a,
        Seq::<FileReport>::empty() + a == a,
        (a + b) + c == a + (b + c),
{
    assert(a + Seq::<FileReport>::empty() =~= a);
    assert(Seq::<FileReport>::empty() + a =~= a);
    assert((a + b) + c =~= a + (b + c));
}

/// The tallies of the groups `distinct`, added up.
pub open spec fn sum_of_groups<T>(
    files: Seq<FileReport>,
    keys: Seq<T>,
    distinct: Seq<T>,
) -> SplitTally
    decreases distinct.len(),
{
    if distinct.len() == 0 {
        SplitTally::zero()
    } else {
        sum_of_groups(files, keys, distinct.drop_last()).plus(
            tally_where(files, keys, distinct.last()),
        )
    }
}

proof fn lemma_sum_of_groups_step<T>(files: Seq<FileReport>, keys: Seq<T>, distinct: Seq<T>)
    requires
        files.len() == keys.len(),
        files.len() > 0,
        distinct.no_duplicates(),
    ensures
        sum_of_groups(files, keys, distinct) == if distinct.contains(keys.last()) {
            sum_of_groups(files.drop_last(), keys.drop_last(), distinct).plus(files.last().stats@)
        } else {
            sum_of_groups(files.drop_last(), keys.drop_last(), distinct)
        },
    decreases distinct.len(),
{
    if distinct.len() > 0 {
        let rest = distinct.drop_last();
        lemma_sum_of_groups_step(files, keys, rest);
        let key = keys.last();
        if rest.contains(key) {
            let i = choose|i: int| 0 <= i < rest.len() && rest[i] == key;
            assert(distinct[i] == key);
            assert(distinct.last() != key);
        }
        if distinct.contains(key) && distinct.last() != key {
            let i = choose|i: int| 0 <= i < distinct.len() && distinct[i] == key;
            assert(rest[i] == key);
        }
    }
}

/// Grouping loses nothing and counts nothing twice: along any dimension the
/// groups add up to the totals.
pub proof fn law_groups_add_up_to_the_totals<T>(
    files: Seq<FileReport>,
    keys: Seq<T>,
    distinct: Seq<T>,
)
    requires
        files.len() == keys.len(),
        distinct.no_duplicates(),
        forall|i: int| 0 <= i < keys.len() ==> distinct.contains(#[trigger] keys[i]),
    ensures
        sum_of_groups(files, keys, distinct) == total_tally(files),
    decreases files.len(),
{
    if files.len() == 0 {
        lemma_sum_of_no_files(files, keys, distinct);
    } else {
        assert forall|i: int| 0 <= i < keys.drop_last().len() implies distinct.contains(
            #[trigger] keys.drop_last()[i],
        ) by {
            assert(distinct.contains(keys[i]));
        }
        law_groups_add_up_to_the_totals(files.drop_last(), keys.drop_last(), distinct);
        lemma_sum_of_groups_step(files, keys, distinct);
        assert(distinct.contains(keys[keys.len() - 1]));
    }
}

proof fn lemma_sum_of_no_files<T>(files: Seq<FileReport>, keys: Seq<T>, distinct: Seq<T>)
    requires
        files.len() == 0,
    ensures
        sum_of_groups(files, keys, distinct) == SplitTally::zero(),
    decreases distinct.len(),
{
    if distinct.len() > 0 {
        lemma_sum_of_no_files(files, keys, distinct.drop_last());
    }
}

/// Diffing a report against itself shows no change.
pub proof fn law_no_change_against_itself<T>(groups: Map<T, Stats>, key: T)
    ensures
        net(groups, groups, key)@ == SplitTally::zero(),
{
}

/// A key that only exists before shows as its negated counts.
pub proof fn law_only_before_is_negated<T>(before: Map<T, Stats>, after: Map<T, Stats>, key: T)
    requires
        before.dom().contains(key),
        !after.dom().contains(key),
        within(before[key]@, i64::MAX as int),
    ensures
        net(before, after, key)@ == SplitTally::zero().minus(before[key]@),
{
}

/// A key that only exists after shows as its counts.
pub proof fn law_only_after_is_added<T>(before: Map<T, Stats>, after: Map<T, Stats>, key: T)
    requires
        !before.dom().contains(key),
        after.dom().contains(key),
        within(after[key]@, i64::MAX as int),
    ensures
        net(before, after, key)@ == after[key]@,
{
}

/// The net change is what there is after minus what there was before.
pub proof fn law_net_change_is_the_difference<T>(
    before: Map<T, Stats>,
    after: Map<T, Stats>,
    key: T,
)
    requires
        before.dom().contains(key),
        after.dom().contains(key),
        within(before[key]@, i64::MAX as int),
        within(after[key]@, i64::MAX as int),
    ensures
        net(before, after, key)@ == after[key]@.minus(before[key]@),
{
}

/// Sums and differences are taken count by count, and neither side of a split
/// touches the other.
pub proof fn law_counts_add_up_one_by_one(a: SplitTally, b: SplitTally)
    ensures
        ({
            let s = a.plus(b);
            &&& s.prod.code == a.prod.code + b.prod.code
            &&& s.prod.comments == a.prod.comments + b.prod.comments
            &&& s.prod.blanks == a.prod.blanks + b.prod.blanks
            &&& s.test.code == a.test.code + b.test.code
            &&& s.test.comments == a.test.comments + b.test.comments
            &&& s.test.blanks == a.test.blanks + b.test.blanks
        }),
        a.plus(b).minus(b) == a,
        a.plus(b).lines() == a.lines() + b.lines(),
        a.total().code == a.prod.code + a.test.code,
        a.total().comments == a.prod.comments + a.test.comments,
        a.total().blanks == a.prod.blanks + a.test.blanks,
        a.total().lines() == a.lines(),
        a.prod.lines() == a.prod.code + a.prod.comments + a.prod.blanks,
        a.lines() == a.prod.lines() + a.test.lines(),
{
}

/// A line counts once: for its kind and its side, and for nothing else.
pub proof fn law_a_line_counts_once(kind: LineKind, is_test: bool, other: LineKind, side: bool)
    ensures
        SplitTally::one(kind, is_test).at(other, side) == if kind == other && is_test == side {
            1int
        } else {
            0int
        },
        SplitTally::one(kind, is_test).lines() == 1,
{
}

/// Each file adds its counts to the totals, and to those of its own group only.
pub proof fn law_a_file_counts_for_its_group<T>(
    files: Seq<FileReport>,
    keys: Seq<T>,
    file: FileReport,
    own: T,
    key: T,
)
    ensures
        ({
            let a = total_tally(files);
            let b = total_tally(files.push(file));
            let s = file.stats@;
            &&& b.prod.code == a.prod.code + s.prod.code
            &&& b.prod.comments == a.prod.comments + s.prod.comments
            &&& b.prod.blanks == a.prod.blanks + s.prod.blanks
            &&& b.test.code == a.test.code + s.test.code
            &&& b.test.comments == a.test.comments + s.test.comments
            &&& b.test.blanks == a.test.blanks + s.test.blanks
        }),
        ({
            let a = tally_where(files, keys, key);
            let b = tally_where(files.push(file), keys.push(own), key);
            let s = file.stats@;
            let k: int = if own == key {
                1
            } else {
                0
            };
            &&& b.prod.code == a.prod.code + k * s.prod.code
            &&& b.prod.comments == a.prod.comments + k * s.prod.comments
            &&& b.prod.blanks == a.prod.blanks + k * s.prod.blanks
            &&& b.test.code == a.test.code + k * s.test.code
            &&& b.test.comments == a.test.comments + k * s.test.comments
            &&& b.test.blanks == a.test.blanks + k * s.test.blanks
        }),
        total_tally(Seq::empty()).lines() == 0,
        tally_where(Seq::empty(), Seq::<T>::empty(), key).lines() == 0,
{
    assert(files.push(file).drop_last() =~= files);
    assert(keys.push(own).drop_last() =~= keys);
}

/// A file goes by its extension in lower case, and without one by its name as
/// it is written. One whose first character is its only dot has none.
pub proof fn law_files_go_by_extension_or_name(
    path: Seq<char>,
    stem: Seq<char>,
    ext: Seq<char>,
)
    requires
        forall|k: int| 0 <= k < ext.len() ==> #[trigger] ext[k] != '.',
    ensures
        path::file_name(path) == Some(stem.push('.') + ext) && stem.len() > 0 ==> extension_label(
            path,
        ) == text::lowered(ext),
        path::file_name(path) == Some(seq!['.'] + ext) ==> extension_label(path) == seq!['.'] + ext,
        path::file_name(path) == Some(ext) ==> extension_label(path) == ext,
        path::file_name(path) is None ==> extension_label(path).len() == 0,
{
    path::law_the_extension_follows_the_last_dot(stem, ext);
}

/// A file of a known language goes by the language's name.
pub proof fn law_unknown_languages_are_called_unknown(registry: Registry, id: LanguageId)
    ensures
        language_name_of(registry, None) == "Unknown"@,
        language_name_of(registry, Some(id)) == registry.langs()[id.0 as int].name@,
{
}

/// The largest files come first, by the sum of all six counts, and none is lost.
pub proof fn law_the_largest_files_come_first(files: Seq<FileReport>, i: int, j: int)
    requires
        0 <= i < j < files.len(),
    ensures
        ({
            let sorted = order::sorted_by(files, size_rank());
            let a = sorted[i].stats@;
            let b = sorted[j].stats@;
            &&& sorted.to_multiset() == files.to_multiset()
            &&& a.prod.code + a.prod.comments + a.prod.blanks + a.test.code + a.test.comments
                + a.test.blanks >= b.prod.code + b.prod.comments + b.prod.blanks + b.test.code
                + b.test.comments + b.test.blanks
        }),
{
    let rank = size_rank();
    let sorted = order::sorted_by(files, rank);
    order::law_sort_orders(files, rank);
    order::law_sort_keeps_everything(files, rank);
    assert(!order::before(rank(sorted[j]), rank(sorted[i])));
    assert(rank(sorted[i])[0] == -sorted[i].stats@.lines());
    assert(rank(sorted[j])[0] == -sorted[j].stats@.lines());
}

/// A change is counted in each count: what is there after, less what was there
/// before, where a group that is not there has nothing.
pub proof fn law_changes_are_counted_one_by_one<T>(
    before: Map<T, Stats>,
    after: Map<T, Stats>,
    key: T,
)
    requires
        before.dom().contains(key) ==> within(before[key]@, i64::MAX as int),
        after.dom().contains(key) ==> within(after[key]@, i64::MAX as int),
    ensures
        ({
            let a = if before.dom().contains(key) {
                before[key]@
            } else {
                SplitTally::zero()
            };
            let b = if after.dom().contains(key) {
                after[key]@
            } else {
                SplitTally::zero()
            };
            let n = net(before, after, key)@;
            &&& n.prod.code == b.prod.code - a.prod.code
            &&& n.prod.comments == b.prod.comments - a.prod.comments
            &&& n.prod.blanks == b.prod.blanks - a.prod.blanks
            &&& n.test.code == b.test.code - a.test.code
            &&& n.test.comments == b.test.comments - a.test.comments
            &&& n.test.blanks == b.test.blanks - a.test.blanks
        }),
{
}

/// Merged reports have the files of each, in turn.
pub proof fn law_merged_reports_have_all_files(reports: Seq<Report>, report: Report)
    ensures
        all_files(reports.push(report)) == all_files(reports) + report@,
        all_files(Seq::empty()).len() == 0,
{
    assert(reports.push(report).drop_last() =~= reports);
}

/// The counts of files add up, and differ, as their tallies do; nothing is lost
/// where the counts become signed.
pub proof fn law_machine_counts_are_exact(a: Stats, b: Stats, x: SignedStats, y: SignedStats)
    ensures
        a.can_add(b) ==> a.added(b)@ == a@.plus(b@),
        x.can_sub(y) ==> x.subtracted(y)@ == x@.minus(y@),
        within(a@, i64::MAX as int) ==> SignedStats::of(a)@ == a@,
        a.can_add(b) <==> within(a@.plus(b@), u64::MAX as int),
{
}

/// Files tie exactly if they have the same number of lines. Files that tie keep
/// their order.
pub proof fn law_files_of_a_size_keep_their_order(
    files: Seq<FileReport>,
    a: FileReport,
    b: FileReport,
)
    ensures
        order::of_rank(order::sorted_by(files, size_rank()), size_rank(), size_rank()(a))
            == order::of_rank(files, size_rank(), size_rank()(a)),
        ({
            let x = a.stats@;
            let y = b.stats@;
            size_rank()(a) == size_rank()(b) <==> x.prod.code + x.prod.comments + x.prod.blanks
                + x.test.code + x.test.comments + x.test.blanks == y.prod.code + y.prod.comments
                + y.prod.blanks + y.test.code + y.test.comments + y.test.blanks
        }),
{
    let rank = size_rank();
    order::law_sort_is_stable(files, rank, rank(a));
    assert(rank(a)[0] == -a.stats@.lines());
    assert(rank(b)[0] == -b.stats@.lines());
    if a.stats@.lines() == b.stats@.lines() {
        assert(rank(a) =~= rank(b));
    }
}

} // verus!
