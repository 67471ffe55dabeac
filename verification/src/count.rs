//! Line counting.
//!
//! The code/comment/blank classifier is a character-level state machine with
//! three modes:
//!
//! - *plain*: blanks count as blanks, quotes can open string mode, comment
//!   delimiters can open comment mode;
//! - *string*: comment delimiters are inert;
//! - *comment*: quotes are inert, and delimiters may nest.
//!
//! A fourth, orthogonal axis is whether the line is *test* code.
//!
//! Lines are pushed one at a time, so memory is bounded by the longest line.
//! This is sound because no comment or string delimiter in the language
//! database contains a newline, so no delimiter can straddle a line boundary.

use vstd::prelude::*;

use crate::lang::{BlockStyle, LanguageDef, LanguageId, Registry, Syntax};
use crate::report;
use crate::report::{LineKind, SplitTally, Stats};
use crate::text;

verus! {

/// Knobs that change how lines are classified.
#[derive(Debug, Clone)]
pub struct CountConfig {
    /// Count doc strings (Python's `"""..."""`) as comments rather than code.
    pub treat_doc_strings_as_comments: bool,
    /// Recognise test code *inside* a file, not just whole test files.
    pub detect_test_blocks: bool,
    /// Skip files that look binary instead of counting them.
    pub skip_binary: bool,
}

impl Default for CountConfig {
    fn default() -> (r: CountConfig)
        ensures
            r.treat_doc_strings_as_comments,
            r.detect_test_blocks,
            r.skip_binary,
    {
        CountConfig {
            treat_doc_strings_as_comments: true,
            detect_test_blocks: true,
            skip_binary: true,
        }
    }
}

/// How many lines a test marker may wait for its opening brace before it is
/// taken for a false positive and the block is given up on.
pub const MAX_LINES_AWAITING_BRACE: usize = 10;

/// Outcome of counting a single file.
#[derive(Debug, Clone, PartialEq, Eq)]
pub enum CountOutcome {
    Counted(Stats),
    /// The first line of the file contained a NUL byte.
    Binary,
}

// ---------------------------------------------------------------------------
// Strings and comments: the model
// ---------------------------------------------------------------------------

/// Where in the string/comment structure of a file a position is.
#[verifier::ext_equal]
pub struct Mode {
    /// The closing delimiter of the string around the position, if any.
    pub quote: Option<Seq<u8>>,
    /// The last string opened was a doc string.
    pub quote_is_doc: bool,
    /// The last string opened knows no escapes.
    pub quote_is_verbatim: bool,
    /// Closing delimiters of the comments around the position, outermost first.
    pub stack: Seq<Seq<u8>>,
}

impl Mode {
    /// The mode at the start of a file.
    pub open spec fn start() -> Mode {
        Mode {
            quote: None,
            quote_is_doc: false,
            quote_is_verbatim: false,
            stack: Seq::empty(),
        }
    }

    pub open spec fn is_plain(self) -> bool {
        self.quote is None && self.stack.len() == 0
    }
}

/// Pair `i` is the first whose opening delimiter `window` starts with.
pub open spec fn opens_first(pairs: Seq<(Seq<u8>, Seq<u8>)>, window: Seq<u8>, i: int) -> bool {
    &&& 0 <= i < pairs.len()
    &&& pairs[i].0.is_prefix_of(window)
    &&& forall|k: int| 0 <= k < i ==> !(#[trigger] pairs[k]).0.is_prefix_of(window)
}

/// The first pair whose opening delimiter `window` starts with.
pub open spec fn opener(pairs: Seq<(Seq<u8>, Seq<u8>)>, window: Seq<u8>) -> Option<
    (Seq<u8>, Seq<u8>),
> {
    if exists|i: int| opens_first(pairs, window, i) {
        Some(pairs[choose|i: int| opens_first(pairs, window, i)])
    } else {
        None
    }
}

/// `window` starts with one of `delimiters`.
pub open spec fn starts_with_any(delimiters: Seq<Seq<u8>>, window: Seq<u8>) -> bool {
    exists|i: int|
        0 <= i < delimiters.len() && (#[trigger] delimiters[i]).is_prefix_of(window)
}

/// `window` starts with the opening delimiter of one of `pairs`.
pub open spec fn opens_any(pairs: Seq<(Seq<u8>, Seq<u8>)>, window: Seq<u8>) -> bool {
    exists|i: int| 0 <= i < pairs.len() && (#[trigger] pairs[i]).0.is_prefix_of(window)
}

/// `window` starts with the delimiter that ends the open string.
pub open spec fn closes_quote(mode: Mode, window: Seq<u8>) -> bool {
    mode.quote matches Some(end) && end.is_prefix_of(window)
}

/// `window` starts with an escaped backslash or an escaped quote character.
/// Escapes count in plain text too, where `\"` must not open a string; they
/// do not count in (or after) a verbatim string.
pub open spec fn escapes(syntax: Syntax, mode: Mode, window: Seq<u8>) -> bool {
    &&& !mode.quote_is_verbatim
    &&& window.len() > 0
    &&& window[0] == 0x5c
    &&& (window.len() > 1 && window[1] == 0x5c || opens_any(syntax.quotes, window.skip(1)))
}

/// `window` starts with the delimiter that ends the innermost open comment.
pub open spec fn closes_comment(mode: Mode, window: Seq<u8>) -> bool {
    mode.stack.len() > 0 && mode.stack.last().is_prefix_of(window)
}

/// The string that `window` opens: its delimiters, whether it is a doc string
/// and whether it is verbatim. Doc quotes come first: `"""` must beat `"`.
pub open spec fn opened_quote(syntax: Syntax, window: Seq<u8>) -> Option<
    ((Seq<u8>, Seq<u8>), bool, bool),
> {
    match opener(syntax.doc_quotes, window) {
        Some(pair) => Some((pair, true, false)),
        None => match opener(syntax.verbatim_quotes, window) {
            Some(pair) => Some((pair, false, true)),
            None => match opener(syntax.quotes, window) {
                Some(pair) => Some((pair, false, false)),
                None => None,
            },
        },
    }
}

/// A comment with these delimiters may stand inside another comment.
pub open spec fn nests(syntax: Syntax, pair: (Seq<u8>, Seq<u8>)) -> bool {
    syntax.nested || syntax.nested_comments.contains(pair)
}

/// What the text at a position does.
pub enum Step {
    /// The rest of the line is a comment.
    Stop,
    /// Go on behind `width` bytes; `brace` is the change in brace depth.
    Move { mode: Mode, width: int, brace: int },
}

/// The step at a position where `window` is the rest of the line. Closing an
/// open string or comment takes priority over anything that the closing
/// delimiter's text might otherwise start.
pub open spec fn step(syntax: Syntax, mode: Mode, window: Seq<u8>) -> Step {
    if closes_quote(mode, window) {
        Step::Move {
            mode: Mode { quote: None, ..mode },
            width: mode.quote->0.len() as int,
            brace: 0,
        }
    } else if escapes(syntax, mode, window) {
        Step::Move { mode, width: 2, brace: 0 }
    } else if closes_comment(mode, window) {
        Step::Move {
            mode: Mode { stack: mode.stack.drop_last(), ..mode },
            width: mode.stack.last().len() as int,
            brace: 0,
        }
    } else if mode.quote is Some {
        Step::Move { mode, width: 1, brace: 0 }
    } else if mode.stack.len() == 0 && opened_quote(syntax, window) is Some {
        let (pair, is_doc, is_verbatim) = opened_quote(syntax, window)->0;
        Step::Move {
            mode: Mode {
                quote: Some(pair.1),
                quote_is_doc: is_doc,
                quote_is_verbatim: is_verbatim,
                stack: mode.stack,
            },
            width: pair.0.len() as int,
            brace: 0,
        }
    } else if opener(syntax.multi_line_comments + syntax.nested_comments, window) is Some {
        let pair = opener(syntax.multi_line_comments + syntax.nested_comments, window)->0;
        Step::Move {
            mode: if mode.stack.len() == 0 || nests(syntax, pair) {
                Mode { stack: mode.stack.push(pair.1), ..mode }
            } else {
                mode
            },
            width: pair.0.len() as int,
            brace: 0,
        }
    } else if mode.stack.len() == 0 && starts_with_any(syntax.line_comments, window) {
        Step::Stop
    } else {
        Step::Move {
            mode,
            width: 1,
            brace: if mode.stack.len() > 0 {
                0
            } else if window[0] == 0x7b {
                1
            } else if window[0] == 0x7d {
                -1
            } else {
                0int
            },
        }
    }
}

/// The mode behind the line, and the net `{` minus `}` seen in plain mode,
/// from position `at` on.
pub open spec fn scan(syntax: Syntax, mode: Mode, line: Seq<u8>, at: int) -> (Mode, int)
    decreases
            (if at < line.len() {
                line.len() - at
            } else {
                0
            }),
{
    if at < 0 || at >= line.len() || text::blank(line.skip(at)) {
        (mode, 0)
    } else {
        match step(syntax, mode, line.skip(at)) {
            Step::Stop => (mode, 0),
            Step::Move { mode: next, width, brace } => {
                let rest = scan(
                    syntax,
                    next,
                    line,
                    if width > 1 {
                        at + width
                    } else {
                        at + 1
                    },
                );
                (rest.0, brace + rest.1)
            },
        }
    }
}

/// `text` opens and closes the pair, and one delimiter does not serve as both.
pub open spec fn spans(pair: (Seq<u8>, Seq<u8>), text: Seq<u8>) -> bool {
    &&& pair.0.is_prefix_of(text)
    &&& pair.1.is_suffix_of(text)
    &&& text.len() >= pair.0.len() + pair.1.len()
}

/// One of `pairs` spans `text`.
pub open spec fn spanned_by_any(pairs: Seq<(Seq<u8>, Seq<u8>)>, text: Seq<u8>) -> bool {
    exists|i: int| 0 <= i < pairs.len() && spans(#[trigger] pairs[i], text)
}

/// Whether a whole line reads as a comment, where `mode` is the mode behind
/// it. `started` says that the line started inside a comment, or inside a doc
/// string that counts as one.
pub open spec fn reads_as_comment(
    syntax: Syntax,
    doc_strings: bool,
    mode: Mode,
    line: Seq<u8>,
    started: bool,
) -> bool {
    let trimmed = text::trimmed(line);
    if mode.quote is Some {
        mode.quote_is_doc && doc_strings
    } else {
        ||| started
        ||| starts_with_any(syntax.line_comments, trimmed)
        ||| spanned_by_any(syntax.any_multi_line_comments, trimmed)
        ||| doc_strings && spanned_by_any(syntax.doc_quotes, trimmed)
        ||| mode.stack.len() > 0 && exists|i: int|
            0 <= i < syntax.any_multi_line_comments.len() && (
            #[trigger] syntax.any_multi_line_comments[i]).1 == mode.stack.last()
                && syntax.any_multi_line_comments[i].0.is_prefix_of(trimmed)
    }
}

// ---------------------------------------------------------------------------
// Test regions: the model
// ---------------------------------------------------------------------------

/// A region of test code that is still open.
pub struct Region {
    pub style: BlockStyle,
    /// Indentation of the marker line.
    pub indent: int,
    pub depth: int,
    /// The opening brace has been seen.
    pub opened: bool,
    /// Lines since the marker, while still waiting for `{`.
    pub waiting: int,
}

/// A line outside any region: it is test code if it starts with a marker, and
/// then opens a region. Markers mean nothing inside a string or comment.
pub open spec fn open_region(
    syntax: Syntax,
    raw: Seq<u8>,
    line: Seq<u8>,
    plain: bool,
    delta: int,
) -> (bool, Option<Region>) {
    if plain && starts_with_any(syntax.test_blocks, line) {
        (
            true,
            Some(
                Region {
                    style: syntax.test_block_style,
                    indent: text::leading(raw) as int,
                    depth: delta,
                    opened: delta > 0,
                    waiting: 0,
                },
            ),
        )
    } else {
        (false, None)
    }
}

/// Whether a line that is not blank is test code by its region, and the region
/// behind it. `delta` is the line's change in brace depth.
pub open spec fn follow_region(
    syntax: Syntax,
    region: Option<Region>,
    raw: Seq<u8>,
    line: Seq<u8>,
    plain: bool,
    delta: int,
) -> (bool, Option<Region>) {
    match region {
        None => open_region(syntax, raw, line, plain, delta),
        Some(r) => match r.style {
            // The region covers everything indented deeper than the marker.
            BlockStyle::Indent => if text::leading(raw) > r.indent {
                (true, region)
            } else {
                open_region(syntax, raw, line, plain, delta)
            },
            BlockStyle::Braces => {
                let depth = r.depth + delta;
                if r.opened || delta > 0 {
                    // The closing brace is the last line of the region.
                    (
                        true,
                        if depth <= 0 {
                            None
                        } else {
                            Some(Region { depth, opened: true, ..r })
                        },
                    )
                } else if r.waiting + 1 > MAX_LINES_AWAITING_BRACE {
                    open_region(syntax, raw, line, plain, delta)
                } else {
                    (true, Some(Region { depth, waiting: r.waiting + 1, ..r }))
                }
            },
        },
    }
}

// ---------------------------------------------------------------------------
// Lines: the model
// ---------------------------------------------------------------------------

/// What stays the same over a whole file.
pub struct Setup {
    /// `None` for an unknown language.
    pub syntax: Option<Syntax>,
    pub doc_strings: bool,
    pub is_test_file: bool,
    /// Test regions inside the file are looked for.
    pub tracks: bool,
}

impl Setup {
    pub open spec fn of(lang: Option<Syntax>, is_test_file: bool, config: CountConfig) -> Setup {
        Setup {
            syntax: lang,
            doc_strings: config.treat_doc_strings_as_comments,
            is_test_file,
            tracks: config.detect_test_blocks && !is_test_file && lang is Some
                && lang->0.test_blocks.len() > 0,
        }
    }
}

/// What is remembered from one line to the next.
pub struct Memory {
    pub mode: Mode,
    pub region: Option<Region>,
}

impl Memory {
    pub open spec fn start() -> Memory {
        Memory { mode: Mode::start(), region: None }
    }
}

/// The part of a line that is looked at: FORTRAN only treats a marker as a
/// comment in the first column, elsewhere the white space around it is dropped.
pub open spec fn visible(syntax: Syntax, raw: Seq<u8>) -> Seq<u8> {
    if syntax.is_fortran {
        raw
    } else {
        text::trimmed(raw)
    }
}

/// The line starts inside a comment, or inside a doc string that counts as one.
pub open spec fn starts_in_comment(setup: Setup, mode: Mode) -> bool {
    mode.stack.len() > 0 || (setup.doc_strings && mode.quote is Some && mode.quote_is_doc)
}

/// What one line is: its kind, whether it is test code, and what is remembered
/// behind it.
pub open spec fn read_line(setup: Setup, memory: Memory, raw: Seq<u8>) -> (
    LineKind,
    bool,
    Memory,
) {
    match setup.syntax {
        None => (
            if text::blank(raw) {
                LineKind::Blank
            } else {
                LineKind::Code
            },
            setup.is_test_file,
            memory,
        ),
        Some(syntax) => {
            let line = visible(syntax, raw);
            let plain = memory.mode.is_plain();
            if plain && text::blank(raw) {
                // Blank lines never open or close a region; they inherit it.
                (LineKind::Blank, setup.is_test_file || memory.region is Some, memory)
            } else {
                let (mode, delta) = scan(syntax, memory.mode, line, 0);
                let kind = if syntax.literate || reads_as_comment(
                    syntax,
                    setup.doc_strings,
                    mode,
                    line,
                    starts_in_comment(setup, memory.mode),
                ) {
                    LineKind::Comment
                } else {
                    LineKind::Code
                };
                if setup.is_test_file {
                    (kind, true, Memory { mode, region: memory.region })
                } else if !setup.tracks {
                    (kind, false, Memory { mode, region: memory.region })
                } else {
                    let (is_test, region) = follow_region(
                        syntax,
                        memory.region,
                        raw,
                        line,
                        plain,
                        delta,
                    );
                    (kind, is_test, Memory { mode, region })
                }
            }
        },
    }
}

/// What is remembered behind `lines`, and their tally.
pub open spec fn read_lines(setup: Setup, lines: Seq<Seq<u8>>) -> (Memory, SplitTally)
    decreases lines.len(),
{
    if lines.len() == 0 {
        (Memory::start(), SplitTally::zero())
    } else {
        let (memory, tally) = read_lines(setup, lines.drop_last());
        let (kind, is_test, next) = read_line(setup, memory, lines.last());
        (next, tally.plus(SplitTally::one(kind, is_test)))
    }
}

// ---------------------------------------------------------------------------
// Delimiters
// ---------------------------------------------------------------------------

/// There is only one first opener.
proof fn lemma_opener(pairs: Seq<(Seq<u8>, Seq<u8>)>, window: Seq<u8>, i: int)
    requires
        opens_first(pairs, window, i),
    ensures
        opener(pairs, window) == Some(pairs[i]),
{
    let k = choose|k: int| opens_first(pairs, window, k);
    assert(opens_first(pairs, window, k));
    if k < i {
        assert(!pairs[k].0.is_prefix_of(window));
    }
    if i < k {
        assert(!pairs[i].0.is_prefix_of(window));
    }
}

/// The index of the first pair whose opening delimiter stands in `line` at `at`.
fn find_opener(pairs: &Vec<(String, String)>, line: &[u8], at: usize) -> (r: Option<usize>)
    requires
        at <= line.len(),
    ensures
        r matches Some(i) ==> opens_first(text::byte_pairs(pairs@), line@.skip(at as int), i as int)
            && opener(text::byte_pairs(pairs@), line@.skip(at as int)) == Some(
            text::byte_pairs(pairs@)[i as int],
        ),
        r is None ==> opener(text::byte_pairs(pairs@), line@.skip(at as int)) is None
            && !opens_any(text::byte_pairs(pairs@), line@.skip(at as int)),
{
    let ghost all = text::byte_pairs(pairs@);
    let ghost window = line@.skip(at as int);
    let mut i: usize = 0;
    while i < pairs.len()
        invariant
            i <= pairs.len(),
            at <= line.len(),
            all == text::byte_pairs(pairs@),
            window == line@.skip(at as int),
            forall|k: int| 0 <= k < i ==> !(#[trigger] all[k]).0.is_prefix_of(window),
        decreases pairs.len() - i,
    {
        assert(all[i as int].0 == text::bytes_of(pairs@[i as int].0@));
        if text::starts_at(line, at, pairs[i].0.as_str().as_bytes()) {
            proof {
                assert(opens_first(all, window, i as int));
                lemma_opener(all, window, i as int);
            }
            return Some(i);
        }
        i = i + 1;
    }
    None
}

/// Whether one of `delimiters` stands in `line` at `at`.
fn any_starts_at(delimiters: &Vec<String>, line: &[u8], at: usize) -> (r: bool)
    requires
        at <= line.len(),
    ensures
        r == starts_with_any(text::byte_strings(delimiters@), line@.skip(at as int)),
{
    let ghost all = text::byte_strings(delimiters@);
    let ghost window = line@.skip(at as int);
    let mut i: usize = 0;
    while i < delimiters.len()
        invariant
            i <= delimiters.len(),
            at <= line.len(),
            all == text::byte_strings(delimiters@),
            window == line@.skip(at as int),
            forall|k: int| 0 <= k < i ==> !(#[trigger] all[k]).is_prefix_of(window),
        decreases delimiters.len() - i,
    {
        assert(all[i as int] == text::bytes_of(delimiters@[i as int]@));
        if text::starts_at(line, at, delimiters[i].as_str().as_bytes()) {
            return true;
        }
        i = i + 1;
    }
    false
}

/// Whether one of `pairs` opens and closes `text`.
fn any_spans(pairs: &Vec<(String, String)>, line: &[u8]) -> (r: bool)
    ensures
        r == spanned_by_any(text::byte_pairs(pairs@), line@),
{
    let ghost all = text::byte_pairs(pairs@);
    assert(line@.skip(0) =~= line@);
    let mut i: usize = 0;
    while i < pairs.len()
        invariant
            i <= pairs.len(),
            all == text::byte_pairs(pairs@),
            line@.skip(0) == line@,
            forall|k: int| 0 <= k < i ==> !spans(#[trigger] all[k], line@),
        decreases pairs.len() - i,
    {
        assert(all[i as int] == (
            text::bytes_of(pairs@[i as int].0@),
            text::bytes_of(pairs@[i as int].1@),
        ));
        let start = pairs[i].0.as_str().as_bytes();
        let end = pairs[i].1.as_str().as_bytes();
        if start.len() <= line.len() && end.len() <= line.len() - start.len() && text::starts_at(
            line,
            0,
            start,
        ) && text::ends_with(line, end) {
            assert(spans(all[i as int], line@));
            return true;
        }
        i = i + 1;
    }
    false
}

// ---------------------------------------------------------------------------
// The state machine
// ---------------------------------------------------------------------------

/// The string/comment part of the machine's state.
struct Scanner<'a> {
    /// The closing delimiter of the string we are inside, if any.
    quote: Option<&'a str>,
    quote_is_doc: bool,
    quote_is_verbatim: bool,
    /// Closing delimiters of the comments we are inside, outermost first.
    stack: Vec<&'a str>,
}

impl<'a> Scanner<'a> {
    spec fn mode(&self) -> Mode {
        Mode {
            quote: match self.quote {
                Some(end) => Some(text::bytes_of(end@)),
                None => None,
            },
            quote_is_doc: self.quote_is_doc,
            quote_is_verbatim: self.quote_is_verbatim,
            stack: self.stack@.map_values(|end: &'a str| text::bytes_of(end@)),
        }
    }

    fn new() -> (r: Scanner<'a>)
        ensures
            r.mode() == Mode::start(),
    {
        let r = Scanner {
            quote: None,
            quote_is_doc: false,
            quote_is_verbatim: false,
            stack: Vec::new(),
        };
        assert(r.mode().stack =~= Seq::empty());
        r
    }

    fn is_plain(&self) -> (r: bool)
        ensures
            r == self.mode().is_plain(),
    {
        self.quote.is_none() && self.stack.len() == 0
    }

    /// Closes the open string or steps over an escape: how many bytes that is.
    fn parse_end_of_quote(&mut self, lang: &LanguageDef, line: &[u8], at: usize) -> (r: Option<
        usize,
    >)
        requires
            at < line.len(),
        ensures
            ({
                let before = old(self).mode();
                let after = final(self).mode();
                let window = line@.skip(at as int);
                if closes_quote(before, window) {
                    &&& after == (Mode { quote: None, ..before })
                    &&& r is Some
                    &&& r->0 == before.quote->0.len()
                } else if escapes(lang.syntax(), before, window) {
                    after == before && r == Some(2usize)
                } else {
                    after == before && r is None
                }
            }),
    {
        let ghost window = line@.skip(at as int);
        if let Some(end) = self.quote {
            if text::starts_at(line, at, end.as_bytes()) {
                self.quote = None;
                return Some(end.as_bytes().len());
            }
        }
        if self.quote_is_verbatim {
            return None;
        }
        // An escaped backslash, or an escaped quote character: skip both bytes
        // so the escapee cannot close or open a string.
        if line[at] != 0x5c {
            return None;
        }
        if at + 1 < line.len() && line[at + 1] == 0x5c {
            assert(window[1] == 0x5c);
            return Some(2);
        }
        assert(line@.skip(at + 1) =~= window.skip(1));
        if find_opener(&lang.quotes, line, at + 1).is_some() {
            return Some(2);
        }
        None
    }

    /// Closes the innermost comment: how long its closing delimiter is.
    fn parse_end_of_multi_line(&mut self, line: &[u8], at: usize) -> (r: Option<usize>)
        requires
            at < line.len(),
        ensures
            ({
                let before = old(self).mode();
                let after = final(self).mode();
                if closes_comment(before, line@.skip(at as int)) {
                    &&& after == (Mode { stack: before.stack.drop_last(), ..before })
                    &&& r is Some
                    &&& r->0 == before.stack.last().len()
                } else {
                    after == before && r is None
                }
            }),
    {
        let n = self.stack.len();
        if n == 0 {
            return None;
        }
        let last = self.stack[n - 1];
        assert(self.mode().stack.last() == text::bytes_of(last@));
        if text::starts_at(line, at, last.as_bytes()) {
            let ghost before = self.mode();
            self.stack.pop();
            assert(self.mode().stack =~= before.stack.drop_last());
            Some(last.as_bytes().len())
        } else {
            None
        }
    }

    /// Opens a string: how long its opening delimiter is.
    fn parse_quote(&mut self, lang: &'a LanguageDef, line: &[u8], at: usize) -> (r: Option<usize>)
        requires
            at < line.len(),
        ensures
            ({
                let before = old(self).mode();
                let after = final(self).mode();
                let opened = opened_quote(lang.syntax(), line@.skip(at as int));
                if before.stack.len() == 0 && opened is Some {
                    let (pair, is_doc, is_verbatim) = opened->0;
                    &&& after == (Mode {
                        quote: Some(pair.1),
                        quote_is_doc: is_doc,
                        quote_is_verbatim: is_verbatim,
                        stack: before.stack,
                    })
                    &&& r is Some
                    &&& r->0 == pair.0.len()
                } else {
                    after == before && r is None
                }
            }),
    {
        if self.stack.len() > 0 {
            return None;
        }
        // Doc quotes first: a triple quote must beat a single one.
        if let Some(i) = find_opener(&lang.doc_quotes, line, at) {
            self.quote = Some(lang.doc_quotes[i].1.as_str());
            self.quote_is_doc = true;
            self.quote_is_verbatim = false;
            return Some(lang.doc_quotes[i].0.as_str().as_bytes().len());
        }
        if let Some(i) = find_opener(&lang.verbatim_quotes, line, at) {
            self.quote = Some(lang.verbatim_quotes[i].1.as_str());
            self.quote_is_doc = false;
            self.quote_is_verbatim = true;
            return Some(lang.verbatim_quotes[i].0.as_str().as_bytes().len());
        }
        if let Some(i) = find_opener(&lang.quotes, line, at) {
            self.quote = Some(lang.quotes[i].1.as_str());
            self.quote_is_doc = false;
            self.quote_is_verbatim = false;
            return Some(lang.quotes[i].0.as_str().as_bytes().len());
        }
        None
    }

    /// Opens a comment: how long its opening delimiter is.
    fn parse_multi_line_comment(&mut self, lang: &'a LanguageDef, line: &[u8], at: usize) -> (r:
        Option<usize>)
        requires
            at < line.len(),
            old(self).mode().quote is None,
        ensures
            ({
                let before = old(self).mode();
                let after = final(self).mode();
                let syntax = lang.syntax();
                let opened = opener(
                    syntax.multi_line_comments + syntax.nested_comments,
                    line@.skip(at as int),
                );
                if opened is Some {
                    let pair = opened->0;
                    &&& after == (if before.stack.len() == 0 || nests(syntax, pair) {
                        Mode { stack: before.stack.push(pair.1), ..before }
                    } else {
                        before
                    })
                    &&& r is Some
                    &&& r->0 == pair.0.len()
                } else {
                    after == before && r is None
                }
            }),
    {
        let ghost syntax = lang.syntax();
        let ghost all = syntax.multi_line_comments + syntax.nested_comments;
        let ghost window = line@.skip(at as int);
        let (start, end): (&'a String, &'a String) = match find_opener(
            &lang.multi_line_comments,
            line,
            at,
        ) {
            Some(i) => {
                proof {
                    assert(opens_first(all, window, i as int));
                    lemma_opener(all, window, i as int);
                }
                (&lang.multi_line_comments[i].0, &lang.multi_line_comments[i].1)
            },
            None => match find_opener(&lang.nested_comments, line, at) {
                Some(i) => {
                    proof {
                        let k = syntax.multi_line_comments.len() + i;
                        assert forall|j: int| 0 <= j < k implies !(
                        #[trigger] all[j]).0.is_prefix_of(window) by {
                            if j < syntax.multi_line_comments.len() {
                                assert(all[j] == syntax.multi_line_comments[j]);
                            } else {
                                assert(all[j] == syntax.nested_comments[j
                                    - syntax.multi_line_comments.len()]);
                            }
                        }
                        assert(opens_first(all, window, k));
                        lemma_opener(all, window, k);
                    }
                    (&lang.nested_comments[i].0, &lang.nested_comments[i].1)
                },
                None => {
                    proof {
                        if exists|i: int| opens_first(all, window, i) {
                            let i = choose|i: int| opens_first(all, window, i);
                            if i < syntax.multi_line_comments.len() {
                                assert(all[i] == syntax.multi_line_comments[i]);
                            } else {
                                assert(all[i] == syntax.nested_comments[i
                                    - syntax.multi_line_comments.len()]);
                            }
                        }
                    }
                    return None;
                },
            },
        };
        let ghost before = self.mode();
        if self.stack.len() == 0 || comment_nests(lang, start, end) {
            // Only push when the comment can actually nest; otherwise the
            // inner delimiter is just text inside the outer comment.
            self.stack.push(end.as_str());
            assert(self.mode().stack =~= before.stack.push(text::bytes_of(end@)));
        }
        Some(start.as_str().as_bytes().len())
    }

    /// Walks the line, updating string/comment state. The result is the net
    /// `{` minus `}` seen in plain mode.
    fn scan_line(&mut self, lang: &'a LanguageDef, line: &[u8]) -> (r: i128)
        ensures
            (final(self).mode(), r as int) == scan(lang.syntax(), old(self).mode(), line@, 0),
            -line.len() <= r <= line.len(),
    {
        let ghost syntax = lang.syntax();
        let ghost whole = scan(syntax, self.mode(), line@, 0);
        let mut brace_delta: i128 = 0;
        let mut i: usize = 0;
        while i < line.len()
            invariant_except_break
                i <= line.len(),
                syntax == lang.syntax(),
                -i <= brace_delta <= i,
                whole.0 == scan(syntax, self.mode(), line@, i as int).0,
                whole.1 == brace_delta + scan(syntax, self.mode(), line@, i as int).1,
            ensures
                -line.len() <= brace_delta <= line.len(),
                whole == (self.mode(), brace_delta as int),
            decreases line.len() - i,
        {
            if text::blank_from(line, i) {
                break;
            }
            let ghost before = self.mode();
            let ghost window = line@.skip(i as int);
            let width: usize;
            if let Some(n) = self.parse_end_of_quote(lang, line, i) {
                width = n;
            } else if let Some(n) = self.parse_end_of_multi_line(line, i) {
                width = n;
            } else if self.quote.is_some() {
                width = 1;
            } else if let Some(n) = self.parse_quote(lang, line, i) {
                width = n;
            } else if let Some(n) = self.parse_multi_line_comment(lang, line, i) {
                width = n;
            } else if self.stack.len() == 0 && any_starts_at(&lang.line_comments, line, i) {
                // A line comment swallows the rest of the line, braces included.
                break;
            } else {
                if self.stack.len() == 0 {
                    if line[i] == 0x7b {
                        brace_delta = brace_delta + 1;
                    } else if line[i] == 0x7d {
                        brace_delta = brace_delta - 1;
                    }
                }
                width = 1;
            }
            assert(step(syntax, before, window) matches Step::Move { mode, width: w, brace }
                && mode == self.mode() && w == width);
            let next: usize = if width > 1 {
                width
            } else {
                1
            };
            if next > line.len() - i {
                assert(i + next > line@.len());
                assert(scan(syntax, self.mode(), line@, i + next) == (self.mode(), 0int));
                i = line.len();
            } else {
                i = i + next;
            }
        }
        brace_delta
    }

    /// Whether a whole line reads as a comment.
    fn line_is_comment(
        &self,
        lang: &LanguageDef,
        config: &CountConfig,
        line: &[u8],
        started_in_comments: bool,
    ) -> (r: bool)
        ensures
            r == reads_as_comment(
                lang.syntax(),
                config.treat_doc_strings_as_comments,
                self.mode(),
                line@,
                started_in_comments,
            ),
    {
        if self.quote.is_some() {
            // Inside a string. Only doc strings can read as comments, and only
            // when configured to.
            return self.quote_is_doc && config.treat_doc_strings_as_comments;
        }
        if started_in_comments {
            return true;
        }
        let trimmed = text::trim(line);
        assert(trimmed@.skip(0) =~= trimmed@);
        // A line comment, or a block comment opened and closed on one line, or
        // a doc string opened and closed on one line.
        if any_starts_at(&lang.line_comments, trimmed, 0) || any_spans(
            &lang.any_multi_line_comments,
            trimmed,
        ) || (config.treat_doc_strings_as_comments && any_spans(&lang.doc_quotes, trimmed)) {
            return true;
        }
        // The line opened a block comment that is still open.
        let n = self.stack.len();
        if n == 0 {
            return false;
        }
        let open = self.stack[n - 1];
        let ghost all = lang.syntax().any_multi_line_comments;
        assert(self.mode().stack.last() == text::bytes_of(open@));
        let mut i: usize = 0;
        while i < lang.any_multi_line_comments.len()
            invariant
                i <= lang.any_multi_line_comments.len(),
                all == lang.syntax().any_multi_line_comments,
                trimmed@.skip(0) == trimmed@,
                trimmed@ == text::trimmed(line@),
                self.mode().quote is None,
                self.mode().stack.len() > 0,
                self.mode().stack.last() == text::bytes_of(open@),
                forall|k: int|
                    0 <= k < i ==> !((#[trigger] all[k]).1 == text::bytes_of(open@)
                        && all[k].0.is_prefix_of(trimmed@)),
            decreases lang.any_multi_line_comments.len() - i,
        {
            let pair = &lang.any_multi_line_comments[i];
            proof {
                text::lemma_bytes_differ(pair.1@, open@);
                assert(all[i as int] == (text::bytes_of(pair.0@), text::bytes_of(pair.1@)));
            }
            if text::same(pair.1.as_str(), open) && text::starts_at(trimmed, 0, pair.0.as_str().as_bytes()) {
                return true;
            }
            i = i + 1;
        }
        false
    }
}

/// Whether a comment with these delimiters may stand inside another one.
fn comment_nests(lang: &LanguageDef, start: &String, end: &String) -> (r: bool)
    ensures
        r == nests(lang.syntax(), (text::bytes_of(start@), text::bytes_of(end@))),
{
    if lang.nested {
        return true;
    }
    let ghost all = lang.syntax().nested_comments;
    let mut i: usize = 0;
    while i < lang.nested_comments.len()
        invariant
            i <= lang.nested_comments.len(),
            all == lang.syntax().nested_comments,
            forall|k: int|
                0 <= k < i ==> #[trigger] all[k] != (
                    text::bytes_of(start@),
                    text::bytes_of(end@),
                ),
        decreases lang.nested_comments.len() - i,
    {
        let pair = &lang.nested_comments[i];
        proof {
            text::lemma_bytes_differ(pair.0@, start@);
            text::lemma_bytes_differ(pair.1@, end@);
            assert(all[i as int] == (text::bytes_of(pair.0@), text::bytes_of(pair.1@)));
        }
        if pair.0 == *start && pair.1 == *end {
            return true;
        }
        i = i + 1;
    }
    false
}

// ---------------------------------------------------------------------------
// Test detection
// ---------------------------------------------------------------------------

/// Tracks whether we are inside a region of test code.
///
/// A region opens when a line starts with one of the language's `test_blocks`
/// markers (`#[cfg(test)]`, `func TestFoo`, `describe(`, ...) and closes at the
/// end of the block that marker introduces: either when brace depth returns to
/// zero, or, for indentation-delimited languages, when the indentation returns
/// to the marker's level.
struct TestTracker {
    enabled: bool,
    state: Option<BlockState>,
}

#[derive(Clone, Copy)]
struct BlockState {
    style: BlockStyle,
    /// Indentation of the marker line, for [`BlockStyle::Indent`].
    indent: usize,
    depth: i128,
    /// Whether the opening brace has been seen yet.
    opened: bool,
    /// Lines elapsed since the marker, while still waiting for `{`.
    waiting: usize,
}

impl BlockState {
    spec fn region(self) -> Region {
        Region {
            style: self.style,
            indent: self.indent as int,
            depth: self.depth as int,
            opened: self.opened,
            waiting: self.waiting as int,
        }
    }
}

impl TestTracker {
    spec fn region(&self) -> Option<Region> {
        match self.state {
            Some(state) => Some(state.region()),
            None => None,
        }
    }

    /// Blank lines never open or close a region; they simply inherit it.
    fn classify_blank(&self, is_test_file: bool) -> (r: bool)
        ensures
            r == (is_test_file || self.region() is Some),
    {
        is_test_file || self.state.is_some()
    }

    /// Opens a region if the line starts with a marker in plain mode.
    fn open(
        &mut self,
        lang: &LanguageDef,
        raw: &[u8],
        line: &[u8],
        plain_at_start: bool,
        brace_delta: i128,
    ) -> (r: bool)
        ensures
            (r, final(self).region()) == open_region(
                lang.syntax(),
                raw@,
                line@,
                plain_at_start,
                brace_delta as int,
            ),
            final(self).enabled == old(self).enabled,
    {
        assert(line@.skip(0) =~= line@);
        if plain_at_start && any_starts_at(&lang.test_blocks, line, 0) {
            self.state = Some(
                BlockState {
                    style: lang.test_block_style,
                    indent: text::indent_of(raw),
                    depth: brace_delta,
                    opened: brace_delta > 0,
                    waiting: 0,
                },
            );
            true
        } else {
            self.state = None;
            false
        }
    }

    fn classify(
        &mut self,
        is_test_file: bool,
        lang: &LanguageDef,
        raw: &[u8],
        line: &[u8],
        plain_at_start: bool,
        brace_delta: i128,
    ) -> (r: bool)
        requires
            old(self).region() matches Some(region) ==> i128::MIN <= region.depth + brace_delta
                <= i128::MAX,
        ensures
            final(self).enabled == old(self).enabled,
            is_test_file ==> r && final(self).region() == old(self).region(),
            !is_test_file && !old(self).enabled ==> !r && final(self).region() == old(
                self,
            ).region(),
            !is_test_file && old(self).enabled ==> (r, final(self).region()) == follow_region(
                lang.syntax(),
                old(self).region(),
                raw@,
                line@,
                plain_at_start,
                brace_delta as int,
            ),
    {
        if is_test_file {
            return true;
        }
        if !self.enabled {
            return false;
        }
        let state = match self.state {
            Some(state) => state,
            None => {
                return self.open(lang, raw, line, plain_at_start, brace_delta);
            },
        };
        match state.style {
            BlockStyle::Indent => {
                // The region covers everything indented deeper than the marker.
                if text::indent_of(raw) > state.indent {
                    true
                } else {
                    // This line may itself open a new region.
                    self.open(lang, raw, line, plain_at_start, brace_delta)
                }
            },
            BlockStyle::Braces => {
                let depth: i128 = state.depth + brace_delta;
                if state.opened || brace_delta > 0 {
                    if depth <= 0 {
                        // The closing brace is the last line of the region.
                        self.state = None;
                    } else {
                        self.state = Some(BlockState { depth, opened: true, ..state });
                    }
                    true
                } else if state.waiting >= MAX_LINES_AWAITING_BRACE {
                    // The marker never introduced a block; treat it as a false
                    // positive and re-examine this line.
                    self.open(lang, raw, line, plain_at_start, brace_delta)
                } else {
                    self.state = Some(BlockState { depth, waiting: state.waiting + 1, ..state });
                    true
                }
            },
        }
    }
}

// ---------------------------------------------------------------------------
// Counting
// ---------------------------------------------------------------------------

/// Counts the lines of one file as they are pushed.
pub struct Counter<'a> {
    lang: Option<&'a LanguageDef>,
    config: &'a CountConfig,
    stats: Stats,
    scanner: Scanner<'a>,
    is_test_file: bool,
    tests: TestTracker,
}

/// The syntax of a language that may be unknown.
pub open spec fn syntax_of(lang: Option<&LanguageDef>) -> Option<Syntax> {
    match lang {
        Some(lang) => Some(lang.syntax()),
        None => None,
    }
}

impl<'a> Counter<'a> {
    pub closed spec fn setup(&self) -> Setup {
        Setup {
            syntax: syntax_of(self.lang),
            doc_strings: self.config.treat_doc_strings_as_comments,
            is_test_file: self.is_test_file,
            tracks: self.tests.enabled,
        }
    }

    pub closed spec fn memory(&self) -> Memory {
        Memory { mode: self.scanner.mode(), region: self.tests.region() }
    }

    /// The tally of the lines pushed so far.
    pub closed spec fn tally(&self) -> SplitTally {
        self.stats@
    }

    /// One more line can be counted without exceeding the range of the counts.
    pub open spec fn can_push(&self, raw: Seq<u8>) -> bool {
        &&& report::within(self.tally(), u64::MAX - 1)
        &&& self.memory().region matches Some(region) ==> i128::MIN <= region.depth - raw.len()
            && region.depth + raw.len() <= i128::MAX
    }

    pub fn new(lang: Option<&'a LanguageDef>, is_test_file: bool, config: &'a CountConfig) -> (r:
        Counter<'a>)
        ensures
            r.setup() == Setup::of(syntax_of(lang), is_test_file, *config),
            r.memory() == Memory::start(),
            r.tally() == SplitTally::zero(),
    {
        let has_markers = match lang {
            Some(lang) => lang.test_blocks.len() > 0,
            None => false,
        };
        Counter {
            lang,
            config,
            stats: Stats::default(),
            scanner: Scanner::new(),
            is_test_file,
            tests: TestTracker {
                enabled: config.detect_test_blocks && !is_test_file && has_markers,
                state: None,
            },
        }
    }

    /// The counts of the lines pushed so far.
    pub fn finish(self) -> (r: Stats)
        ensures
            r@ == self.tally(),
    {
        self.stats
    }

    /// Whether one more line can be counted.
    pub fn has_room(&self, raw: &[u8]) -> (r: bool)
        ensures
            r == self.can_push(raw@),
    {
        let s = &self.stats;
        let counts = s.prod.code < u64::MAX && s.prod.comments < u64::MAX && s.prod.blanks
            < u64::MAX && s.test.code < u64::MAX && s.test.comments < u64::MAX && s.test.blanks
            < u64::MAX;
        let room = match self.tests.state {
            Some(state) => {
                let n: i128 = raw.len() as i128;
                state.depth >= i128::MIN + n && state.depth <= i128::MAX - n
            },
            None => true,
        };
        counts && room
    }

    /// Counts one line, which is given without its line terminator.
    pub fn push_line(&mut self, raw: &[u8])
        requires
            old(self).can_push(raw@),
        ensures
            final(self).setup() == old(self).setup(),
            ({
                let (kind, is_test, memory) = read_line(
                    old(self).setup(),
                    old(self).memory(),
                    raw@,
                );
                &&& final(self).memory() == memory
                &&& final(self).tally() == old(self).tally().plus(SplitTally::one(kind, is_test))
            }),
    {
        assert(raw@.skip(0) =~= raw@);
        let lang = match self.lang {
            Some(lang) => lang,
            None => {
                // Unknown language: no comment or string syntax to speak of.
                let kind = if text::blank_from(raw, 0) {
                    LineKind::Blank
                } else {
                    LineKind::Code
                };
                let is_test = self.is_test_file;
                self.stats.record(kind, is_test);
                return;
            },
        };
        // FORTRAN only treats a marker as a comment in the first column, so
        // trimming leading whitespace would change the answer.
        let line = if lang.is_fortran {
            raw
        } else {
            text::trim(raw)
        };
        let plain_at_start = self.scanner.is_plain();
        // Blank lines are only blank in plain mode; a blank line inside a block
        // comment is part of the comment.
        if plain_at_start && text::blank_from(raw, 0) {
            let is_test = self.tests.classify_blank(self.is_test_file);
            self.stats.record(LineKind::Blank, is_test);
            return;
        }
        let started_in_comments = self.scanner.stack.len() > 0 || (
        self.config.treat_doc_strings_as_comments && self.scanner.quote.is_some()
            && self.scanner.quote_is_doc);
        let brace_delta = self.scanner.scan_line(lang, line);
        let kind = if lang.literate || self.scanner.line_is_comment(
            lang,
            self.config,
            line,
            started_in_comments,
        ) {
            LineKind::Comment
        } else {
            LineKind::Code
        };
        let is_test = self.tests.classify(
            self.is_test_file,
            lang,
            raw,
            line,
            plain_at_start,
            brace_delta,
        );
        self.stats.record(kind, is_test);
    }
}

// ---------------------------------------------------------------------------
// Whole files
// ---------------------------------------------------------------------------

/// How long the first line of `bytes` is, its `\n` included.
pub open spec fn first_line_len(bytes: Seq<u8>) -> nat
    decreases bytes.len(),
{
    if bytes.len() == 0 {
        0
    } else if bytes[0] == 0x0a {
        1
    } else {
        1 + first_line_len(bytes.skip(1))
    }
}

/// The lines of a file, each with its terminator. The last one need not have
/// one.
pub open spec fn terminated_lines(bytes: Seq<u8>) -> Seq<Seq<u8>>
    decreases bytes.len(),
{
    if bytes.len() == 0 {
        Seq::empty()
    } else {
        let n = first_line_len(bytes) as int;
        if 0 < n <= bytes.len() {
            seq![bytes.take(n)] + terminated_lines(bytes.skip(n))
        } else {
            Seq::empty()
        }
    }
}

/// A line without its `\n` or `\r\n`.
pub open spec fn unterminated(line: Seq<u8>) -> Seq<u8> {
    let body = if line.len() > 0 && line.last() == 0x0a {
        line.drop_last()
    } else {
        line
    };
    if body.len() > 0 && body.last() == 0x0d {
        body.drop_last()
    } else {
        body
    }
}

/// The lines of a file, without their terminators.
pub open spec fn file_lines(bytes: Seq<u8>) -> Seq<Seq<u8>> {
    terminated_lines(bytes).map_values(|line: Seq<u8>| unterminated(line))
}

/// The first line holds a NUL byte.
pub open spec fn looks_binary(bytes: Seq<u8>) -> bool {
    bytes.take(first_line_len(bytes) as int).contains(0u8)
}

/// The tally of a whole file.
pub open spec fn file_tally(setup: Setup, bytes: Seq<u8>) -> SplitTally {
    read_lines(setup, file_lines(bytes)).1
}

/// What [`first_line_len`] is, given that the first `n` bytes end no line.
proof fn lemma_first_line_len(bytes: Seq<u8>, n: int)
    requires
        0 <= n <= bytes.len(),
        forall|k: int| 0 <= k < n ==> #[trigger] bytes[k] != 0x0a,
        n == bytes.len() || bytes[n] == 0x0a,
    ensures
        first_line_len(bytes) == if n == bytes.len() {
            n
        } else {
            n + 1
        },
    decreases n,
{
    if n > 0 {
        assert(bytes[0] != 0x0a);
        assert forall|k: int| 0 <= k < n - 1 implies #[trigger] bytes.skip(1)[k] != 0x0a by {
            assert(bytes[k + 1] != 0x0a);
        }
        lemma_first_line_len(bytes.skip(1), n - 1);
    }
}

/// A line cannot change the brace depth by more than its length.
proof fn lemma_scan_bound(syntax: Syntax, mode: Mode, line: Seq<u8>, at: int)
    ensures
        ({
            let left = if 0 <= at < line.len() {
                line.len() - at
            } else {
                0
            };
            -left <= scan(syntax, mode, line, at).1 <= left
        }),
    decreases
            (if at < line.len() {
                line.len() - at
            } else {
                0
            }),
{
    if at < 0 || at >= line.len() || text::blank(line.skip(at)) {
    } else {
        match step(syntax, mode, line.skip(at)) {
            Step::Stop => {},
            Step::Move { mode: next, width, brace } => {
                lemma_scan_bound(
                    syntax,
                    next,
                    line,
                    if width > 1 {
                        at + width
                    } else {
                        at + 1
                    },
                );
            },
        }
    }
}

/// The depth of a region is bounded by the bytes seen.
proof fn lemma_region_bound(setup: Setup, memory: Memory, raw: Seq<u8>, bound: int)
    requires
        bound >= 0,
        memory.region matches Some(r) ==> -bound <= r.depth <= bound,
    ensures
        read_line(setup, memory, raw).2.region matches Some(r) ==> -(bound + raw.len())
            <= r.depth <= bound + raw.len(),
{
    if setup.syntax is Some {
        let syntax = setup.syntax->0;
        lemma_trimmed_len(raw);
        lemma_scan_bound(syntax, memory.mode, visible(syntax, raw), 0);
    }
}

proof fn lemma_trimmed_len(raw: Seq<u8>)
    ensures
        text::trimmed(raw).len() <= raw.len(),
{
    text::lemma_leading_len(raw);
    text::lemma_trailing_len(raw.skip(text::leading(raw) as int));
}

/// The line that starts at `at`: where it ends without its terminator, where
/// the next one starts, and whether it holds a NUL byte.
fn next_line(bytes: &[u8], at: usize) -> (r: (usize, usize, bool))
    requires
        at < bytes.len(),
    ensures
        at <= r.0 <= r.1 <= bytes.len(),
        at < r.1,
        r.1 - at == first_line_len(bytes@.skip(at as int)),
        bytes@.subrange(at as int, r.0 as int) == unterminated(
            bytes@.subrange(at as int, r.1 as int),
        ),
        r.2 == bytes@.subrange(at as int, r.1 as int).contains(0u8),
{
    let ghost rest = bytes@.skip(at as int);
    let mut end: usize = at;
    let mut has_nul = false;
    while end < bytes.len() && bytes[end] != 0x0a
        invariant
            at <= end <= bytes.len(),
            rest == bytes@.skip(at as int),
            forall|k: int| 0 <= k < end - at ==> #[trigger] rest[k] != 0x0a,
            has_nul == exists|k: int| at <= k < end && bytes@[k] == 0,
        decreases bytes.len() - end,
    {
        if bytes[end] == 0 {
            has_nul = true;
        }
        assert(rest[end - at] == bytes@[end as int]);
        end = end + 1;
    }
    let next: usize = if end < bytes.len() {
        end + 1
    } else {
        end
    };
    // A trailing `\r` would otherwise defeat suffix matching on closing
    // delimiters.
    let stop: usize = if end > at && bytes[end - 1] == 0x0d {
        end - 1
    } else {
        end
    };
    proof {
        lemma_first_line_len(rest, end - at);
        let whole = bytes@.subrange(at as int, next as int);
        if has_nul {
            let k = choose|k: int| at <= k < end && bytes@[k] == 0;
            assert(whole[k - at] == 0u8);
        }
        if whole.contains(0u8) {
            let k = choose|k: int| 0 <= k < whole.len() && whole[k] == 0u8;
            assert(bytes@[at + k] == 0);
        }
        let body = bytes@.subrange(at as int, end as int);
        if end < bytes.len() {
            assert(whole.last() == 0x0a);
            assert(whole.drop_last() =~= body);
        } else {
            assert(whole =~= body);
            assert(rest[end - 1 - at] != 0x0a);
            assert(whole.last() != 0x0a);
        }
        if end > at {
            assert(body.last() == bytes@[end - 1]);
            assert(body.drop_last() =~= bytes@.subrange(at as int, end - 1));
        }
    }
    (stop, next, has_nul)
}

/// The lines of a file are its first line and the lines of the rest.
proof fn lemma_file_lines(bytes: Seq<u8>, at: int, next: int, raw: Seq<u8>)
    requires
        0 <= at < next <= bytes.len(),
        next - at == first_line_len(bytes.skip(at)),
        raw == unterminated(bytes.subrange(at, next)),
    ensures
        file_lines(bytes.skip(at)) == seq![raw] + file_lines(bytes.skip(next)),
{
    let rest = bytes.skip(at);
    assert(rest.take(next - at) =~= bytes.subrange(at, next));
    assert(rest.skip(next - at) =~= bytes.skip(next));
    assert(terminated_lines(rest) == seq![rest.take(next - at)] + terminated_lines(
        rest.skip(next - at),
    ));
    assert(file_lines(rest) =~= seq![raw] + file_lines(bytes.skip(next)));
}

/// Counts one file that is in memory. An unknown language is counted with a
/// trivial syntax (every non-blank line is code), which keeps such files
/// visible in totals instead of silently vanishing.
pub fn count_bytes(
    lang: Option<&LanguageDef>,
    bytes: &[u8],
    is_test_file: bool,
    config: &CountConfig,
) -> (r: CountOutcome)
    ensures
        r is Binary <==> config.skip_binary && looks_binary(bytes@),
        r matches CountOutcome::Counted(stats) ==> stats@ == file_tally(
            Setup::of(syntax_of(lang), is_test_file, *config),
            bytes@,
        ),
{
    let ghost setup = Setup::of(syntax_of(lang), is_test_file, *config);
    if bytes.len() > 0 {
        let first = next_line(bytes, 0);
        assert(bytes@.skip(0) =~= bytes@);
        assert(bytes@.subrange(0, first.1 as int) =~= bytes@.take(first_line_len(bytes@) as int));
        if config.skip_binary && first.2 {
            return CountOutcome::Binary;
        }
    } else {
        assert(bytes@.take(0) =~= Seq::empty());
    }
    let mut counter = Counter::new(lang, is_test_file, config);
    let ghost mut done: Seq<Seq<u8>> = Seq::empty();
    assert(bytes@.skip(0) =~= bytes@);
    assert(done + file_lines(bytes@) =~= file_lines(bytes@));
    let mut at: usize = 0;
    while at < bytes.len()
        invariant
            at <= bytes.len(),
            counter.setup() == setup,
            (counter.memory(), counter.tally()) == read_lines(setup, done),
            report::within(counter.tally(), at as int),
            counter.memory().region matches Some(region) ==> -at <= region.depth <= at,
            done + file_lines(bytes@.skip(at as int)) == file_lines(bytes@),
        decreases bytes.len() - at,
    {
        let line = next_line(bytes, at);
        let raw = vstd::slice::slice_subrange(bytes, at, line.0);
        proof {
            lemma_region_bound(setup, counter.memory(), raw@, at as int);
            lemma_file_lines(bytes@, at as int, line.1 as int, raw@);
            let rest = file_lines(bytes@.skip(line.1 as int));
            assert(done + (seq![raw@] + rest) =~= done.push(raw@) + rest);
            assert(done.push(raw@).drop_last() =~= done);
            done = done.push(raw@);
        }
        counter.push_line(raw);
        at = line.1;
    }
    proof {
        assert(bytes@.skip(at as int) =~= Seq::empty());
        assert(file_lines(Seq::empty()) =~= Seq::empty());
        assert(done =~= file_lines(bytes@));
    }
    CountOutcome::Counted(counter.finish())
}

/// The syntax of a language of the registry; `None` if it is unknown.
pub open spec fn registry_syntax(registry: Registry, language: Option<LanguageId>) -> Option<
    Syntax,
> {
    match language {
        Some(id) => Some(registry.langs()[id.0 as int].syntax()),
        None => None,
    }
}

/// Counts one file.
pub fn count(
    registry: &Registry,
    bytes: &[u8],
    language: Option<LanguageId>,
    is_test_file: bool,
    config: &CountConfig,
) -> (r: CountOutcome)
    requires
        registry.knows(language),
    ensures
        r is Binary <==> config.skip_binary && looks_binary(bytes@),
        r matches CountOutcome::Counted(stats) ==> stats@ == file_tally(
            Setup::of(registry_syntax(*registry, language), is_test_file, *config),
            bytes@,
        ),
{
    let lang = match language {
        Some(id) => Some(registry.get(id)),
        None => None,
    };
    count_bytes(lang, bytes, is_test_file, config)
}

/// As [`count`], with nothing counted in a file that looks binary.
pub fn count_slice(
    registry: &Registry,
    bytes: &[u8],
    language: Option<LanguageId>,
    is_test_file: bool,
    config: &CountConfig,
) -> (r: Stats)
    requires
        registry.knows(language),
    ensures
        r@ == if config.skip_binary && looks_binary(bytes@) {
            SplitTally::zero()
        } else {
            file_tally(
                Setup::of(registry_syntax(*registry, language), is_test_file, *config),
                bytes@,
            )
        },
{
    match count(registry, bytes, language, is_test_file, config) {
        CountOutcome::Counted(stats) => stats,
        CountOutcome::Binary => Stats::default(),
    }
}

// ---------------------------------------------------------------------------
// Laws
// ---------------------------------------------------------------------------

/// In plain text an escaped quote character opens no string.
pub proof fn law_escaped_quotes_open_nothing(syntax: Syntax, mode: Mode, window: Seq<u8>)
    requires
        mode.is_plain(),
        escapes(syntax, mode, window),
    ensures
        step(syntax, mode, window) == (Step::Move { mode, width: 2, brace: 0 }),
{
}

/// Every line lands in exactly one bucket.
pub proof fn law_every_line_is_counted_once(setup: Setup, lines: Seq<Seq<u8>>)
    ensures
        read_lines(setup, lines).1.lines() == lines.len(),
    decreases lines.len(),
{
    if lines.len() > 0 {
        law_every_line_is_counted_once(setup, lines.drop_last());
    }
}

/// A test file puts every line in the test bucket.
pub proof fn law_a_test_file_is_all_test(setup: Setup, lines: Seq<Seq<u8>>)
    requires
        setup.is_test_file,
    ensures
        read_lines(setup, lines).1.prod == crate::report::Tally::zero(),
    decreases lines.len(),
{
    if lines.len() > 0 {
        law_a_test_file_is_all_test(setup, lines.drop_last());
    }
}

/// Where no test regions are looked for, a file that is not a test file has no
/// test lines. That is so with the detection switched off, for an unknown
/// language, and for a language without markers.
pub proof fn law_without_detection_nothing_is_test(setup: Setup, lines: Seq<Seq<u8>>)
    requires
        !setup.is_test_file,
        !setup.tracks,
    ensures
        read_lines(setup, lines).0.region is None,
        read_lines(setup, lines).1.test == crate::report::Tally::zero(),
    decreases lines.len(),
{
    if lines.len() > 0 {
        law_without_detection_nothing_is_test(setup, lines.drop_last());
    }
}

/// In an unknown language every non-blank line is code: nothing is a comment.
pub proof fn law_unknown_language_has_no_comments(setup: Setup, lines: Seq<Seq<u8>>)
    requires
        setup.syntax is None,
    ensures
        read_lines(setup, lines).1.total().comments == 0,
    decreases lines.len(),
{
    if lines.len() > 0 {
        law_unknown_language_has_no_comments(setup, lines.drop_last());
    }
}

/// The prose of a literate language is all comment: nothing is code.
pub proof fn law_literate_languages_have_no_code(setup: Setup, lines: Seq<Seq<u8>>)
    requires
        setup.syntax is Some,
        setup.syntax->0.literate,
    ensures
        read_lines(setup, lines).1.total().code == 0,
    decreases lines.len(),
{
    if lines.len() > 0 {
        law_literate_languages_have_no_code(setup, lines.drop_last());
    }
}

/// A line is blank only in plain mode: inside a string or comment it is part
/// of that.
pub proof fn law_blank_only_in_plain_mode(setup: Setup, memory: Memory, raw: Seq<u8>)
    requires
        setup.syntax is Some,
    ensures
        read_line(setup, memory, raw).0 is Blank <==> memory.mode.is_plain() && text::blank(raw),
{
}

/// Blank lines leave everything as it was.
pub proof fn law_blank_lines_change_nothing(setup: Setup, memory: Memory, raw: Seq<u8>)
    ensures
        read_line(setup, memory, raw).0 is Blank ==> read_line(setup, memory, raw).2 == memory,
{
}

/// In a string every delimiter but the string's own is inert, and braces do
/// not count.
pub proof fn law_strings_are_opaque(syntax: Syntax, mode: Mode, window: Seq<u8>)
    requires
        mode.quote is Some,
        mode.stack.len() == 0,
        !closes_quote(mode, window),
    ensures
        step(syntax, mode, window) matches Step::Move { mode: next, brace, .. } && next == mode
            && brace == 0,
{
}

/// In a comment quotes are inert, braces do not count, and the text after it
/// is never dropped as a line comment.
pub proof fn law_comments_are_opaque(syntax: Syntax, mode: Mode, window: Seq<u8>)
    requires
        mode.quote is None,
        mode.stack.len() > 0,
    ensures
        step(syntax, mode, window) matches Step::Move { mode: next, brace, .. } && next.quote
            is None && brace == 0,
{
}

/// We are never inside a string and a comment at once.
pub open spec fn exclusive(mode: Mode) -> bool {
    mode.quote is Some ==> mode.stack.len() == 0
}

proof fn lemma_scan_exclusive(syntax: Syntax, mode: Mode, line: Seq<u8>, at: int)
    requires
        exclusive(mode),
    ensures
        exclusive(scan(syntax, mode, line, at).0),
    decreases
            (if at < line.len() {
                line.len() - at
            } else {
                0
            }),
{
    if at < 0 || at >= line.len() || text::blank(line.skip(at)) {
    } else {
        match step(syntax, mode, line.skip(at)) {
            Step::Stop => {},
            Step::Move { mode: next, width, brace } => {
                lemma_scan_exclusive(
                    syntax,
                    next,
                    line,
                    if width > 1 {
                        at + width
                    } else {
                        at + 1
                    },
                );
            },
        }
    }
}

/// Behind any lines whatever, we are not inside a string and a comment at once.
pub proof fn law_string_and_comment_exclude_each_other(setup: Setup, lines: Seq<Seq<u8>>)
    ensures
        exclusive(read_lines(setup, lines).0.mode),
    decreases lines.len(),
{
    if lines.len() > 0 {
        law_string_and_comment_exclude_each_other(setup, lines.drop_last());
        if setup.syntax is Some {
            let syntax = setup.syntax->0;
            lemma_scan_exclusive(
                syntax,
                read_lines(setup, lines.drop_last()).0.mode,
                visible(syntax, lines.last()),
                0,
            );
        }
    }
}

/// Where comments do not nest, we are inside at most one.
pub proof fn law_comments_nest_only_where_the_language_says_so(
    setup: Setup,
    lines: Seq<Seq<u8>>,
)
    requires
        setup.syntax is Some,
        !setup.syntax->0.nested,
        setup.syntax->0.nested_comments.len() == 0,
    ensures
        read_lines(setup, lines).0.mode.stack.len() <= 1,
    decreases lines.len(),
{
    if lines.len() > 0 {
        law_comments_nest_only_where_the_language_says_so(setup, lines.drop_last());
        let syntax = setup.syntax->0;
        lemma_scan_flat(
            syntax,
            read_lines(setup, lines.drop_last()).0.mode,
            visible(syntax, lines.last()),
            0,
        );
    }
}

proof fn lemma_scan_flat(syntax: Syntax, mode: Mode, line: Seq<u8>, at: int)
    requires
        !syntax.nested,
        syntax.nested_comments.len() == 0,
        mode.stack.len() <= 1,
    ensures
        scan(syntax, mode, line, at).0.stack.len() <= 1,
    decreases
            (if at < line.len() {
                line.len() - at
            } else {
                0
            }),
{
    if at < 0 || at >= line.len() || text::blank(line.skip(at)) {
    } else {
        match step(syntax, mode, line.skip(at)) {
            Step::Stop => {},
            Step::Move { mode: next, width, brace } => {
                lemma_scan_flat(
                    syntax,
                    next,
                    line,
                    if width > 1 {
                        at + width
                    } else {
                        at + 1
                    },
                );
            },
        }
    }
}

/// A marker means nothing inside a string or comment: it opens no region.
pub proof fn law_markers_only_in_plain_mode(setup: Setup, memory: Memory, raw: Seq<u8>)
    requires
        !setup.is_test_file,
        !memory.mode.is_plain(),
        memory.region is None,
    ensures
        !read_line(setup, memory, raw).1,
        read_line(setup, memory, raw).2.region is None,
{
}

/// A line that is test code by its own text is so whether or not a region has
/// just ended: after the grace lines without a brace, a marker's region is
/// given up and the line is looked at as if there had been none.
pub proof fn law_a_marker_without_a_block_is_abandoned(
    syntax: Syntax,
    region: Region,
    raw: Seq<u8>,
    line: Seq<u8>,
    plain: bool,
    delta: int,
)
    requires
        region.style is Braces,
        !region.opened,
        region.waiting >= MAX_LINES_AWAITING_BRACE,
        delta <= 0,
    ensures
        follow_region(syntax, Some(region), raw, line, plain, delta) == follow_region(
            syntax,
            None,
            raw,
            line,
            plain,
            delta,
        ),
{
}

/// The number of lines a region has waited never exceeds the grace.
pub open spec fn patient(region: Option<Region>) -> bool {
    region matches Some(r) ==> 0 <= r.waiting <= MAX_LINES_AWAITING_BRACE
}

/// A marker waits for its brace for a bounded number of lines only.
pub proof fn law_waiting_is_bounded(setup: Setup, lines: Seq<Seq<u8>>)
    ensures
        patient(read_lines(setup, lines).0.region),
    decreases lines.len(),
{
    if lines.len() > 0 {
        law_waiting_is_bounded(setup, lines.drop_last());
    }
}

// ---------------------------------------------------------------------------
// What each piece of text does
// ---------------------------------------------------------------------------

/// Something that is not white space stands in `line` at `at` or behind it.
pub open spec fn text_ahead(line: Seq<u8>, at: int) -> bool {
    exists|k: int| 0 <= at <= k < line.len() && #[trigger] line[k] > 0x20
}

/// Where the text behind a delimiter starts.
pub open spec fn behind(at: int, delimiter: Seq<u8>) -> int {
    if delimiter.len() > 1 {
        at + delimiter.len()
    } else {
        at + 1
    }
}

/// None of these pairs is opened by `window`.
pub open spec fn none_opens(pairs: Seq<(Seq<u8>, Seq<u8>)>, window: Seq<u8>) -> bool {
    forall|k: int| 0 <= k < pairs.len() ==> !(#[trigger] pairs[k]).0.is_prefix_of(window)
}

/// None of these delimiters is what `window` starts with.
pub open spec fn none_leads(delimiters: Seq<Seq<u8>>, window: Seq<u8>) -> bool {
    forall|k: int| 0 <= k < delimiters.len() ==> !(#[trigger] delimiters[k]).is_prefix_of(window)
}

proof fn lemma_not_blank(line: Seq<u8>, at: int)
    requires
        text_ahead(line, at),
    ensures
        0 <= at < line.len(),
        !text::blank(line.skip(at)),
{
    let k = choose|k: int| 0 <= at <= k < line.len() && #[trigger] line[k] > 0x20;
    assert(line.skip(at)[k - at] == line[k]);
    assert(!text::is_space(line.skip(at)[k - at]));
}

proof fn lemma_no_opener(pairs: Seq<(Seq<u8>, Seq<u8>)>, window: Seq<u8>)
    requires
        none_opens(pairs, window),
    ensures
        opener(pairs, window) is None,
        !opens_any(pairs, window),
{
    if exists|i: int| opens_first(pairs, window, i) {
        let i = choose|i: int| opens_first(pairs, window, i);
        assert(pairs[i].0.is_prefix_of(window));
    }
}

/// No backslash at `at` takes what follows it out of play: it would have to
/// stand before another backslash or before a quote, and not in a verbatim
/// string.
pub open spec fn no_escape(syntax: Syntax, mode: Mode, line: Seq<u8>, at: int) -> bool {
    ||| mode.quote_is_verbatim
    ||| line[at] != 0x5c
    ||| (at + 1 < line.len() ==> line[at + 1] != 0x5c) && none_opens(
        syntax.quotes,
        line.skip(at + 1),
    )
}

proof fn lemma_no_escape(syntax: Syntax, mode: Mode, line: Seq<u8>, at: int)
    requires
        text_ahead(line, at),
        no_escape(syntax, mode, line, at),
    ensures
        !escapes(syntax, mode, line.skip(at)),
        line.skip(at)[0] == line[at],
{
    lemma_not_blank(line, at);
    assert(line.skip(at).skip(1) =~= line.skip(at + 1));
    assert(line.skip(at)[0] == line[at]);
    if at + 1 < line.len() {
        assert(line.skip(at)[1] == line[at + 1]);
    }
    if none_opens(syntax.quotes, line.skip(at + 1)) {
        lemma_no_opener(syntax.quotes, line.skip(at + 1));
    }
}

/// A string ends where its own closing delimiter stands, and nowhere else is
/// that delimiter looked at as anything else.
pub proof fn law_a_string_ends_at_its_closing_delimiter(
    syntax: Syntax,
    mode: Mode,
    line: Seq<u8>,
    at: int,
    end: Seq<u8>,
)
    requires
        text_ahead(line, at),
        mode.quote == Some(end),
        end.is_prefix_of(line.skip(at)),
    ensures
        scan(syntax, mode, line, at) == scan(
            syntax,
            Mode {
                quote: None,
                quote_is_doc: mode.quote_is_doc,
                quote_is_verbatim: mode.quote_is_verbatim,
                stack: mode.stack,
            },
            line,
            behind(at, end),
        ),
{
    lemma_not_blank(line, at);
}

/// In a string that knows escapes, a backslash takes the backslash or the quote
/// character behind it out of play: both are stepped over, and the string goes
/// on.
pub proof fn law_an_escape_keeps_a_string_open(
    syntax: Syntax,
    mode: Mode,
    line: Seq<u8>,
    at: int,
    end: Seq<u8>,
    i: int,
)
    requires
        text_ahead(line, at),
        mode.quote == Some(end),
        !mode.quote_is_verbatim,
        !end.is_prefix_of(line.skip(at)),
        line[at] == 0x5c,
        ({
            ||| at + 1 < line.len() && line[at + 1] == 0x5c
            ||| 0 <= i < syntax.quotes.len() && syntax.quotes[i].0.is_prefix_of(line.skip(at + 1))
        }),
    ensures
        scan(syntax, mode, line, at) == scan(syntax, mode, line, at + 2),
{
    lemma_not_blank(line, at);
    assert(line.skip(at).skip(1) =~= line.skip(at + 1));
    assert(line.skip(at)[0] == line[at]);
    if at + 1 < line.len() {
        assert(line.skip(at)[1] == line[at + 1]);
    }
    if !(at + 1 < line.len() && line[at + 1] == 0x5c) {
        assert(syntax.quotes[i].0.is_prefix_of(line.skip(at).skip(1)));
        assert(opens_any(syntax.quotes, line.skip(at).skip(1)));
    }
    assert(escapes(syntax, mode, line.skip(at)));
}

/// In a string everything else is text: quotes, comment delimiters and braces
/// among it, and in a verbatim string backslashes too.
pub proof fn law_a_string_goes_on(syntax: Syntax, mode: Mode, line: Seq<u8>, at: int, end: Seq<u8>)
    requires
        text_ahead(line, at),
        mode.quote == Some(end),
        mode.stack.len() == 0,
        !end.is_prefix_of(line.skip(at)),
        no_escape(syntax, mode, line, at),
    ensures
        scan(syntax, mode, line, at) == scan(syntax, mode, line, at + 1),
{
    lemma_not_blank(line, at);
    lemma_no_escape(syntax, mode, line, at);
}

/// A comment ends at the closing delimiter of the innermost one that is open,
/// which leaves those around it open.
pub proof fn law_the_innermost_comment_ends_first(
    syntax: Syntax,
    mode: Mode,
    line: Seq<u8>,
    at: int,
)
    requires
        text_ahead(line, at),
        mode.quote is None,
        mode.stack.len() > 0,
        mode.stack.last().is_prefix_of(line.skip(at)),
        no_escape(syntax, mode, line, at),
    ensures
        scan(syntax, mode, line, at) == scan(
            syntax,
            Mode {
                quote: None,
                quote_is_doc: mode.quote_is_doc,
                quote_is_verbatim: mode.quote_is_verbatim,
                stack: mode.stack.take(mode.stack.len() - 1),
            },
            line,
            behind(at, mode.stack.last()),
        ),
{
    lemma_not_blank(line, at);
    lemma_no_escape(syntax, mode, line, at);
    assert(mode.stack.drop_last() =~= mode.stack.take(mode.stack.len() - 1));
}

/// Inside of a comment another one opens exactly where comments nest: in a
/// language whose comments all do, or where the delimiters are among those that
/// do. Otherwise the delimiter is text. Pair `i` of the delimiters is the first
/// that the text starts with.
pub proof fn law_comments_nest_where_they_may(
    syntax: Syntax,
    mode: Mode,
    line: Seq<u8>,
    at: int,
    i: int,
)
    requires
        text_ahead(line, at),
        mode.quote is None,
        mode.stack.len() > 0,
        !mode.stack.last().is_prefix_of(line.skip(at)),
        no_escape(syntax, mode, line, at),
        0 <= i < (syntax.multi_line_comments + syntax.nested_comments).len(),
        (syntax.multi_line_comments + syntax.nested_comments)[i].0.is_prefix_of(line.skip(at)),
        none_opens(
            (syntax.multi_line_comments + syntax.nested_comments).take(i),
            line.skip(at),
        ),
    ensures
        ({
            let pair = (syntax.multi_line_comments + syntax.nested_comments)[i];
            let inside = if syntax.nested || exists|k: int|
                0 <= k < syntax.nested_comments.len() && #[trigger] syntax.nested_comments[k]
                    == pair {
                Mode { stack: mode.stack.push(pair.1), ..mode }
            } else {
                mode
            };
            scan(syntax, mode, line, at) == scan(syntax, inside, line, behind(at, pair.0))
        }),
{
    lemma_not_blank(line, at);
    let all = syntax.multi_line_comments + syntax.nested_comments;
    let window = line.skip(at);
    lemma_no_escape(syntax, mode, line, at);
    assert forall|k: int| 0 <= k < i implies !(#[trigger] all[k]).0.is_prefix_of(window) by {
        assert(all.take(i)[k] == all[k]);
    }
    assert(opens_first(all, window, i));
    lemma_opener(all, window, i);
}

/// In a comment everything else is text: quotes, line comments and braces among
/// it.
pub proof fn law_a_comment_goes_on(syntax: Syntax, mode: Mode, line: Seq<u8>, at: int)
    requires
        text_ahead(line, at),
        mode.quote is None,
        mode.stack.len() > 0,
        !mode.stack.last().is_prefix_of(line.skip(at)),
        no_escape(syntax, mode, line, at),
        none_opens(syntax.multi_line_comments, line.skip(at)),
        none_opens(syntax.nested_comments, line.skip(at)),
    ensures
        scan(syntax, mode, line, at) == scan(syntax, mode, line, at + 1),
{
    lemma_not_blank(line, at);
    lemma_no_comment_opener(syntax, line.skip(at));
    lemma_no_escape(syntax, mode, line, at);
}

proof fn lemma_no_comment_opener(syntax: Syntax, window: Seq<u8>)
    requires
        none_opens(syntax.multi_line_comments, window),
        none_opens(syntax.nested_comments, window),
    ensures
        opener(syntax.multi_line_comments + syntax.nested_comments, window) is None,
{
    let all = syntax.multi_line_comments + syntax.nested_comments;
    assert forall|k: int| 0 <= k < all.len() implies !(#[trigger] all[k]).0.is_prefix_of(window) by {
        if k < syntax.multi_line_comments.len() {
            assert(all[k] == syntax.multi_line_comments[k]);
        } else {
            assert(all[k] == syntax.nested_comments[k - syntax.multi_line_comments.len()]);
        }
    }
    lemma_no_opener(all, window);
}

/// Pair `i` is the first of some pairs that `window` opens, and so the one that
/// counts.
proof fn lemma_first_opener(pairs: Seq<(Seq<u8>, Seq<u8>)>, window: Seq<u8>, i: int)
    requires
        0 <= i < pairs.len(),
        pairs[i].0.is_prefix_of(window),
        none_opens(pairs.take(i), window),
    ensures
        opener(pairs, window) == Some(pairs[i]),
{
    assert forall|k: int| 0 <= k < i implies !(#[trigger] pairs[k]).0.is_prefix_of(window) by {
        assert(pairs.take(i)[k] == pairs[k]);
    }
    assert(opens_first(pairs, window, i));
    lemma_opener(pairs, window, i);
}

/// In plain text the first doc quote that stands there opens a doc string, even
/// where another quote stands there too.
pub proof fn law_a_doc_quote_opens_a_doc_string(
    syntax: Syntax,
    mode: Mode,
    line: Seq<u8>,
    at: int,
    i: int,
)
    requires
        text_ahead(line, at),
        mode.quote is None,
        mode.stack.len() == 0,
        no_escape(syntax, mode, line, at),
        0 <= i < syntax.doc_quotes.len(),
        syntax.doc_quotes[i].0.is_prefix_of(line.skip(at)),
        none_opens(syntax.doc_quotes.take(i), line.skip(at)),
    ensures
        scan(syntax, mode, line, at) == scan(
            syntax,
            Mode {
                quote: Some(syntax.doc_quotes[i].1),
                quote_is_doc: true,
                quote_is_verbatim: false,
                stack: mode.stack,
            },
            line,
            behind(at, syntax.doc_quotes[i].0),
        ),
{
    lemma_not_blank(line, at);
    lemma_no_escape(syntax, mode, line, at);
    lemma_first_opener(syntax.doc_quotes, line.skip(at), i);
}

/// In plain text, where no doc quote stands, the first verbatim quote opens a
/// string without escapes, even where an ordinary quote stands there too.
pub proof fn law_a_verbatim_quote_opens_a_string_without_escapes(
    syntax: Syntax,
    mode: Mode,
    line: Seq<u8>,
    at: int,
    i: int,
)
    requires
        text_ahead(line, at),
        mode.quote is None,
        mode.stack.len() == 0,
        no_escape(syntax, mode, line, at),
        none_opens(syntax.doc_quotes, line.skip(at)),
        0 <= i < syntax.verbatim_quotes.len(),
        syntax.verbatim_quotes[i].0.is_prefix_of(line.skip(at)),
        none_opens(syntax.verbatim_quotes.take(i), line.skip(at)),
    ensures
        scan(syntax, mode, line, at) == scan(
            syntax,
            Mode {
                quote: Some(syntax.verbatim_quotes[i].1),
                quote_is_doc: false,
                quote_is_verbatim: true,
                stack: mode.stack,
            },
            line,
            behind(at, syntax.verbatim_quotes[i].0),
        ),
{
    lemma_not_blank(line, at);
    lemma_no_escape(syntax, mode, line, at);
    lemma_no_opener(syntax.doc_quotes, line.skip(at));
    lemma_first_opener(syntax.verbatim_quotes, line.skip(at), i);
}

/// In plain text, where neither a doc quote nor a verbatim one stands, the first
/// quote opens an ordinary string, which its own closing delimiter ends.
pub proof fn law_a_quote_opens_a_string(
    syntax: Syntax,
    mode: Mode,
    line: Seq<u8>,
    at: int,
    i: int,
)
    requires
        text_ahead(line, at),
        mode.quote is None,
        mode.stack.len() == 0,
        no_escape(syntax, mode, line, at),
        none_opens(syntax.doc_quotes, line.skip(at)),
        none_opens(syntax.verbatim_quotes, line.skip(at)),
        0 <= i < syntax.quotes.len(),
        syntax.quotes[i].0.is_prefix_of(line.skip(at)),
        none_opens(syntax.quotes.take(i), line.skip(at)),
    ensures
        scan(syntax, mode, line, at) == scan(
            syntax,
            Mode {
                quote: Some(syntax.quotes[i].1),
                quote_is_doc: false,
                quote_is_verbatim: false,
                stack: mode.stack,
            },
            line,
            behind(at, syntax.quotes[i].0),
        ),
{
    lemma_not_blank(line, at);
    lemma_no_escape(syntax, mode, line, at);
    lemma_no_opener(syntax.doc_quotes, line.skip(at));
    lemma_no_opener(syntax.verbatim_quotes, line.skip(at));
    lemma_first_opener(syntax.quotes, line.skip(at), i);
}

/// In plain text, where no quote stands, the first block comment delimiter opens
/// a comment, which its own closing delimiter ends, even where a line comment
/// starts there too.
pub proof fn law_a_block_comment_opens(
    syntax: Syntax,
    mode: Mode,
    line: Seq<u8>,
    at: int,
    i: int,
)
    requires
        text_ahead(line, at),
        mode.quote is None,
        mode.stack.len() == 0,
        no_escape(syntax, mode, line, at),
        none_opens(syntax.doc_quotes, line.skip(at)),
        none_opens(syntax.verbatim_quotes, line.skip(at)),
        none_opens(syntax.quotes, line.skip(at)),
        0 <= i < (syntax.multi_line_comments + syntax.nested_comments).len(),
        (syntax.multi_line_comments + syntax.nested_comments)[i].0.is_prefix_of(line.skip(at)),
        none_opens(
            (syntax.multi_line_comments + syntax.nested_comments).take(i),
            line.skip(at),
        ),
    ensures
        ({
            let pair = (syntax.multi_line_comments + syntax.nested_comments)[i];
            scan(syntax, mode, line, at) == scan(
                syntax,
                Mode { stack: seq![pair.1], ..mode },
                line,
                behind(at, pair.0),
            )
        }),
{
    lemma_not_blank(line, at);
    lemma_no_escape(syntax, mode, line, at);
    lemma_no_opener(syntax.doc_quotes, line.skip(at));
    lemma_no_opener(syntax.verbatim_quotes, line.skip(at));
    lemma_no_opener(syntax.quotes, line.skip(at));
    let all = syntax.multi_line_comments + syntax.nested_comments;
    lemma_first_opener(all, line.skip(at), i);
    assert(mode.stack.push(all[i].1) =~= seq![all[i].1]);
}

/// In plain text, where neither a string nor a block comment starts, a line
/// comment ends the matter: whatever follows on the line changes nothing, and
/// its braces do not count.
pub proof fn law_a_line_comment_swallows_the_rest(
    syntax: Syntax,
    mode: Mode,
    line: Seq<u8>,
    at: int,
    i: int,
)
    requires
        text_ahead(line, at),
        mode.quote is None,
        mode.stack.len() == 0,
        no_escape(syntax, mode, line, at),
        none_opens(syntax.doc_quotes, line.skip(at)),
        none_opens(syntax.verbatim_quotes, line.skip(at)),
        none_opens(syntax.quotes, line.skip(at)),
        none_opens(syntax.multi_line_comments, line.skip(at)),
        none_opens(syntax.nested_comments, line.skip(at)),
        0 <= i < syntax.line_comments.len(),
        syntax.line_comments[i].is_prefix_of(line.skip(at)),
    ensures
        scan(syntax, mode, line, at) == (mode, 0int),
{
    lemma_not_blank(line, at);
    lemma_no_escape(syntax, mode, line, at);
    lemma_no_opener(syntax.doc_quotes, line.skip(at));
    lemma_no_opener(syntax.verbatim_quotes, line.skip(at));
    lemma_no_opener(syntax.quotes, line.skip(at));
    lemma_no_comment_opener(syntax, line.skip(at));
    assert(starts_with_any(syntax.line_comments, line.skip(at)));
}

/// In plain text, where nothing starts, one byte is passed. An opening brace
/// raises the depth by one, a closing one lowers it, and nothing else does.
pub proof fn law_braces_count_in_plain_text(syntax: Syntax, mode: Mode, line: Seq<u8>, at: int)
    requires
        text_ahead(line, at),
        mode.quote is None,
        mode.stack.len() == 0,
        no_escape(syntax, mode, line, at),
        none_opens(syntax.doc_quotes, line.skip(at)),
        none_opens(syntax.verbatim_quotes, line.skip(at)),
        none_opens(syntax.quotes, line.skip(at)),
        none_opens(syntax.multi_line_comments, line.skip(at)),
        none_opens(syntax.nested_comments, line.skip(at)),
        none_leads(syntax.line_comments, line.skip(at)),
    ensures
        ({
            let rest = scan(syntax, mode, line, at + 1);
            let brace: int = if line[at] == 0x7b {
                1
            } else if line[at] == 0x7d {
                -1
            } else {
                0
            };
            scan(syntax, mode, line, at) == (rest.0, rest.1 + brace)
        }),
{
    lemma_not_blank(line, at);
    lemma_no_escape(syntax, mode, line, at);
    lemma_no_opener(syntax.doc_quotes, line.skip(at));
    lemma_no_opener(syntax.verbatim_quotes, line.skip(at));
    lemma_no_opener(syntax.quotes, line.skip(at));
    lemma_no_comment_opener(syntax, line.skip(at));
}

/// Outside of strings too, a backslash takes a backslash or a quote character
/// behind it out of play, in comments as in plain text.
pub proof fn law_escapes_count_outside_of_strings(
    syntax: Syntax,
    mode: Mode,
    line: Seq<u8>,
    at: int,
    i: int,
)
    requires
        text_ahead(line, at),
        mode.quote is None,
        !mode.quote_is_verbatim,
        line[at] == 0x5c,
        ({
            ||| at + 1 < line.len() && line[at + 1] == 0x5c
            ||| 0 <= i < syntax.quotes.len() && syntax.quotes[i].0.is_prefix_of(line.skip(at + 1))
        }),
    ensures
        scan(syntax, mode, line, at) == scan(syntax, mode, line, at + 2),
{
    lemma_not_blank(line, at);
    assert(line.skip(at).skip(1) =~= line.skip(at + 1));
    assert(line.skip(at)[0] == line[at]);
    if at + 1 < line.len() {
        assert(line.skip(at)[1] == line[at + 1]);
    }
    if !(at + 1 < line.len() && line[at + 1] == 0x5c) {
        assert(syntax.quotes[i].0.is_prefix_of(line.skip(at).skip(1)));
        assert(opens_any(syntax.quotes, line.skip(at).skip(1)));
    }
    assert(escapes(syntax, mode, line.skip(at)));
}

/// White space at the end of a line does nothing, and neither does its end.
pub proof fn law_nothing_ahead_changes_nothing(
    syntax: Syntax,
    mode: Mode,
    line: Seq<u8>,
    at: int,
)
    requires
        0 <= at,
        forall|k: int| at <= k < line.len() ==> #[trigger] line[k] == 0x20 || line[k] == 0x09,
    ensures
        scan(syntax, mode, line, at) == (mode, 0int),
{
    if at < line.len() {
        assert forall|k: int| 0 <= k < line.skip(at).len() implies text::is_space(
            #[trigger] line.skip(at)[k],
        ) by {
            assert(line[k + at] == 0x20 || line[k + at] == 0x09);
        }
    }
}

// ---------------------------------------------------------------------------
// What kind a line is
// ---------------------------------------------------------------------------

/// A line with something on it, in a language that is known.
pub open spec fn has_text(setup: Setup, raw: Seq<u8>) -> bool {
    setup.syntax is Some && text_ahead(raw, 0)
}

/// The line is left inside of a doc string that counts as a comment.
pub open spec fn left_in_doc_comment(setup: Setup, mode: Mode) -> bool {
    setup.doc_strings && mode.quote is Some && mode.quote_is_doc
}

proof fn lemma_text_is_read(setup: Setup, memory: Memory, raw: Seq<u8>)
    requires
        setup.syntax is Some,
        text_ahead(raw, 0) || !memory.mode.is_plain(),
    ensures
        ({
            let syntax = setup.syntax->0;
            let mode = read_line(setup, memory, raw).2.mode;
            let line = visible(syntax, raw);
            &&& mode == scan(syntax, memory.mode, line, 0).0
            &&& text::trimmed(line) == text::trimmed(raw)
            &&& !(read_line(setup, memory, raw).0 is Blank)
            &&& read_line(setup, memory, raw).0 is Comment <==> syntax.literate
                || reads_as_comment(
                syntax,
                setup.doc_strings,
                mode,
                line,
                starts_in_comment(setup, memory.mode),
            )
        }),
{
    text::law_trimming_twice_is_trimming_once(raw);
    if text_ahead(raw, 0) {
        lemma_not_blank(raw, 0);
        assert(raw.skip(0) =~= raw);
    }
}

/// What a line leaves open is what its text does from its first visible byte on.
/// In FORTRAN, where the column matters, that is its first byte.
pub proof fn law_a_line_does_what_its_text_does(setup: Setup, memory: Memory, raw: Seq<u8>)
    requires
        setup.syntax is Some,
        text_ahead(raw, 0) || memory.mode.quote is Some || memory.mode.stack.len() > 0,
    ensures
        ({
            let syntax = setup.syntax->0;
            let line = if syntax.is_fortran {
                raw
            } else {
                text::trimmed(raw)
            };
            read_line(setup, memory, raw).2.mode == scan(syntax, memory.mode, line, 0).0
        }),
{
    lemma_text_is_read(setup, memory, raw);
}

/// A line that starts in plain text with neither a line comment, nor a block
/// comment, nor a doc string is code. A block comment that opens further on,
/// and stays open, does not change that; only a doc string does that stays open
/// and counts as a comment.
pub proof fn law_a_line_that_starts_with_code_is_code(setup: Setup, memory: Memory, raw: Seq<u8>)
    requires
        has_text(setup, raw),
        !setup.syntax->0.literate,
        memory.mode.quote is None,
        memory.mode.stack.len() == 0,
        none_leads(setup.syntax->0.line_comments, text::trimmed(raw)),
        none_opens(setup.syntax->0.any_multi_line_comments, text::trimmed(raw)),
        setup.doc_strings ==> none_opens(setup.syntax->0.doc_quotes, text::trimmed(raw)),
        !left_in_doc_comment(setup, read_line(setup, memory, raw).2.mode),
    ensures
        read_line(setup, memory, raw).0 is Code,
{
    lemma_text_is_read(setup, memory, raw);
}

/// A line that starts with a line comment is a comment, unless a string is left
/// open behind it.
pub proof fn law_a_line_comment_is_a_comment(
    setup: Setup,
    memory: Memory,
    raw: Seq<u8>,
    i: int,
)
    requires
        has_text(setup, raw),
        0 <= i < setup.syntax->0.line_comments.len(),
        setup.syntax->0.line_comments[i].is_prefix_of(text::trimmed(raw)),
        read_line(setup, memory, raw).2.mode.quote is None,
    ensures
        read_line(setup, memory, raw).0 is Comment,
{
    lemma_text_is_read(setup, memory, raw);
    assert(starts_with_any(setup.syntax->0.line_comments, text::trimmed(raw)));
}

/// A block comment that is opened and closed on a line, and is all of it, makes
/// the line a comment. The two delimiters have to be apart: `/*/` does not close
/// what it opens.
pub proof fn law_a_whole_line_block_comment_is_a_comment(
    setup: Setup,
    memory: Memory,
    raw: Seq<u8>,
    body: Seq<u8>,
    i: int,
)
    requires
        has_text(setup, raw),
        0 <= i < setup.syntax->0.any_multi_line_comments.len(),
        text::trimmed(raw) == setup.syntax->0.any_multi_line_comments[i].0 + body
            + setup.syntax->0.any_multi_line_comments[i].1,
        read_line(setup, memory, raw).2.mode.quote is None,
    ensures
        read_line(setup, memory, raw).0 is Comment,
{
    lemma_text_is_read(setup, memory, raw);
    let pair = setup.syntax->0.any_multi_line_comments[i];
    lemma_between(pair, body);
    assert(spans(pair, text::trimmed(raw)));
}

proof fn lemma_between(pair: (Seq<u8>, Seq<u8>), body: Seq<u8>)
    ensures
        spans(pair, pair.0 + body + pair.1),
{
    let all = pair.0 + body + pair.1;
    assert(all.subrange(0, pair.0.len() as int) =~= pair.0);
    assert(all.subrange(all.len() - pair.1.len(), all.len() as int) =~= pair.1);
}

/// A doc string that is opened and closed on a line, and is all of it, makes the
/// line a comment where doc strings count as comments.
pub proof fn law_a_whole_line_doc_string_is_a_comment(
    setup: Setup,
    memory: Memory,
    raw: Seq<u8>,
    body: Seq<u8>,
    i: int,
)
    requires
        has_text(setup, raw),
        setup.doc_strings,
        0 <= i < setup.syntax->0.doc_quotes.len(),
        text::trimmed(raw) == setup.syntax->0.doc_quotes[i].0 + body
            + setup.syntax->0.doc_quotes[i].1,
        read_line(setup, memory, raw).2.mode.quote is None,
    ensures
        read_line(setup, memory, raw).0 is Comment,
{
    lemma_text_is_read(setup, memory, raw);
    let pair = setup.syntax->0.doc_quotes[i];
    lemma_between(pair, body);
    assert(spans(pair, text::trimmed(raw)));
}

/// A line that starts with a block comment, and leaves a comment with the same
/// closing delimiter open, is a comment.
pub proof fn law_a_line_that_opens_a_block_comment_is_a_comment(
    setup: Setup,
    memory: Memory,
    raw: Seq<u8>,
    i: int,
)
    requires
        has_text(setup, raw),
        0 <= i < setup.syntax->0.any_multi_line_comments.len(),
        setup.syntax->0.any_multi_line_comments[i].0.is_prefix_of(text::trimmed(raw)),
        read_line(setup, memory, raw).2.mode.quote is None,
        read_line(setup, memory, raw).2.mode.stack.len() > 0,
        read_line(setup, memory, raw).2.mode.stack.last()
            == setup.syntax->0.any_multi_line_comments[i].1,
    ensures
        read_line(setup, memory, raw).0 is Comment,
{
    lemma_text_is_read(setup, memory, raw);
    assert(setup.syntax->0.any_multi_line_comments[i].1 == read_line(
        setup,
        memory,
        raw,
    ).2.mode.stack.last());
}

/// A pair of delimiters encloses a text: it starts with the one and ends with the
/// other, and the two do not overlap.
pub open spec fn encloses(pair: (Seq<u8>, Seq<u8>), text: Seq<u8>) -> bool {
    exists|body: Seq<u8>| text == #[trigger] (pair.0 + body) + pair.1
}

/// A line that starts outside of comments and doc strings, and leaves no string
/// open, is a comment for four reasons only: it starts with a line comment, a
/// block comment or a counted doc string encloses it, or it starts with the
/// block comment that it leaves open. All else is code, such as a line with code
/// behind its comment.
pub proof fn law_a_line_is_a_comment_for_a_reason(setup: Setup, memory: Memory, raw: Seq<u8>)
    requires
        has_text(setup, raw),
        !setup.syntax->0.literate,
        memory.mode.stack.len() == 0,
        memory.mode.quote is None || !memory.mode.quote_is_doc || !setup.doc_strings,
        read_line(setup, memory, raw).2.mode.quote is None,
    ensures
        ({
            let syntax = setup.syntax->0;
            let line = text::trimmed(raw);
            let stack = read_line(setup, memory, raw).2.mode.stack;
            let is_comment = {
                ||| exists|i: int|
                    0 <= i < syntax.line_comments.len() && (
                    #[trigger] syntax.line_comments[i]).is_prefix_of(line)
                ||| exists|i: int|
                    0 <= i < syntax.any_multi_line_comments.len() && encloses(
                        #[trigger] syntax.any_multi_line_comments[i],
                        line,
                    )
                ||| setup.doc_strings && exists|i: int|
                    0 <= i < syntax.doc_quotes.len() && encloses(
                        #[trigger] syntax.doc_quotes[i],
                        line,
                    )
                ||| stack.len() > 0 && exists|i: int|
                    0 <= i < syntax.any_multi_line_comments.len() && (
                    #[trigger] syntax.any_multi_line_comments[i]).0.is_prefix_of(line)
                        && syntax.any_multi_line_comments[i].1 == stack[stack.len() - 1]
            };
            &&& is_comment ==> read_line(setup, memory, raw).0 is Comment
            &&& !is_comment ==> read_line(setup, memory, raw).0 is Code
        }),
{
    lemma_text_is_read(setup, memory, raw);
    let syntax = setup.syntax->0;
    let line = text::trimmed(raw);
    assert forall|pair: (Seq<u8>, Seq<u8>)| #[trigger] encloses(pair, line) == spans(
        pair,
        line,
    ) by {
        if encloses(pair, line) {
            let body = choose|body: Seq<u8>| line == #[trigger] (pair.0 + body) + pair.1;
            lemma_between(pair, body);
        }
        if spans(pair, line) {
            let n = line.len() - pair.1.len();
            let body = line.subrange(pair.0.len() as int, n);
            assert(line.subrange(0, pair.0.len() as int) =~= pair.0);
            assert(line.subrange(n, line.len() as int) =~= pair.1);
            assert forall|k: int| 0 <= k < line.len() implies line[k] == ((pair.0 + body)
                + pair.1)[k] by {
                if k < pair.0.len() {
                    assert(line.subrange(0, pair.0.len() as int)[k] == line[k]);
                } else if k >= n {
                    assert(line.subrange(n, line.len() as int)[k - n] == line[k]);
                }
            }
            assert(line =~= (pair.0 + body) + pair.1);
        }
    }
    assert forall|i: int| 0 <= i < syntax.any_multi_line_comments.len() implies encloses(
        #[trigger] syntax.any_multi_line_comments[i],
        line,
    ) == spans(syntax.any_multi_line_comments[i], line) by {}
    assert forall|i: int| 0 <= i < syntax.doc_quotes.len() implies encloses(
        #[trigger] syntax.doc_quotes[i],
        line,
    ) == spans(syntax.doc_quotes[i], line) by {}
}

/// A line that starts inside of a comment is a comment, blank or not, unless a
/// string is left open behind it.
pub proof fn law_a_line_inside_a_comment_is_a_comment(
    setup: Setup,
    memory: Memory,
    raw: Seq<u8>,
)
    requires
        setup.syntax is Some,
        memory.mode.stack.len() > 0,
        read_line(setup, memory, raw).2.mode.quote is None,
    ensures
        read_line(setup, memory, raw).0 is Comment,
{
    lemma_text_is_read(setup, memory, raw);
}

/// A line that starts inside of a doc string is a comment where doc strings
/// count as comments, the line that closes it among them, unless another kind
/// of string is left open behind it.
pub proof fn law_a_line_inside_a_doc_string_is_a_comment(
    setup: Setup,
    memory: Memory,
    raw: Seq<u8>,
)
    requires
        setup.syntax is Some,
        setup.doc_strings,
        memory.mode.quote is Some,
        memory.mode.quote_is_doc,
        ({
            let mode = read_line(setup, memory, raw).2.mode;
            mode.quote is None || mode.quote_is_doc
        }),
    ensures
        read_line(setup, memory, raw).0 is Comment,
{
    lemma_text_is_read(setup, memory, raw);
}

/// A line that leaves a string open is code, wherever it started; a doc string
/// that counts as a comment makes it a comment instead.
pub proof fn law_a_line_that_leaves_a_string_open_is_code(
    setup: Setup,
    memory: Memory,
    raw: Seq<u8>,
)
    requires
        setup.syntax is Some,
        !setup.syntax->0.literate,
        read_line(setup, memory, raw).2.mode.quote is Some,
        text_ahead(raw, 0) || !memory.mode.is_plain(),
    ensures
        read_line(setup, memory, raw).0 is Comment <==> left_in_doc_comment(
            setup,
            read_line(setup, memory, raw).2.mode,
        ),
        read_line(setup, memory, raw).0 is Code <==> !left_in_doc_comment(
            setup,
            read_line(setup, memory, raw).2.mode,
        ),
{
    lemma_text_is_read(setup, memory, raw);
}

/// A line that starts inside of an ordinary string is read by its own text, as
/// far as that goes: without a comment at its front it is code.
pub proof fn law_a_line_inside_a_string_is_code(setup: Setup, memory: Memory, raw: Seq<u8>)
    requires
        has_text(setup, raw),
        !setup.syntax->0.literate,
        memory.mode.quote is Some,
        memory.mode.stack.len() == 0,
        !memory.mode.quote_is_doc || !setup.doc_strings,
        none_leads(setup.syntax->0.line_comments, text::trimmed(raw)),
        none_opens(setup.syntax->0.any_multi_line_comments, text::trimmed(raw)),
        setup.doc_strings ==> none_opens(setup.syntax->0.doc_quotes, text::trimmed(raw)),
        !left_in_doc_comment(setup, read_line(setup, memory, raw).2.mode),
    ensures
        read_line(setup, memory, raw).0 is Code,
{
    lemma_text_is_read(setup, memory, raw);
}

/// A line of white space in plain text is blank, whatever its language; in a
/// language that is not known every other line is code.
pub proof fn law_white_space_is_blank(setup: Setup, memory: Memory, raw: Seq<u8>)
    requires
        memory.mode.quote is None,
        memory.mode.stack.len() == 0,
    ensures
        (forall|i: int|
            0 <= i < raw.len() ==> #[trigger] raw[i] == 0x20 || raw[i] == 0x09 || raw[i] == 0x0d)
            ==> read_line(setup, memory, raw).0 is Blank,
        text_ahead(raw, 0) ==> !(read_line(setup, memory, raw).0 is Blank),
        text_ahead(raw, 0) && setup.syntax is None ==> read_line(setup, memory, raw).0 is Code,
{
    if forall|i: int|
        0 <= i < raw.len() ==> #[trigger] raw[i] == 0x20 || raw[i] == 0x09 || raw[i] == 0x0d {
        assert(text::blank(raw));
    }
    if text_ahead(raw, 0) {
        lemma_not_blank(raw, 0);
        assert(raw.skip(0) =~= raw);
    }
}

// ---------------------------------------------------------------------------
// What is test code
// ---------------------------------------------------------------------------

/// Test regions are looked for, and the line has something on it, or is part of a
/// string or comment.
pub open spec fn is_tracked(setup: Setup, memory: Memory, raw: Seq<u8>) -> bool {
    &&& setup.tracks
    &&& !setup.is_test_file
    &&& setup.syntax is Some
    &&& text_ahead(raw, 0) || memory.mode.quote is Some || memory.mode.stack.len() > 0
}

/// How far a line changes the depth of braces.
pub open spec fn brace_change(setup: Setup, memory: Memory, raw: Seq<u8>) -> int {
    let line = if setup.syntax->0.is_fortran {
        raw
    } else {
        text::trimmed(raw)
    };
    scan(setup.syntax->0, memory.mode, line, 0).1
}

/// A line starts with one of the markers of test code, in plain text.
pub open spec fn is_marked(setup: Setup, memory: Memory, raw: Seq<u8>, i: int) -> bool {
    let line = if setup.syntax->0.is_fortran {
        raw
    } else {
        text::trimmed(raw)
    };
    &&& memory.mode.quote is None
    &&& memory.mode.stack.len() == 0
    &&& 0 <= i < setup.syntax->0.test_blocks.len()
    &&& setup.syntax->0.test_blocks[i].is_prefix_of(line)
}

proof fn lemma_tracked(setup: Setup, memory: Memory, raw: Seq<u8>)
    requires
        is_tracked(setup, memory, raw),
    ensures
        ({
            let r = read_line(setup, memory, raw);
            (r.1, r.2.region) == follow_region(
                setup.syntax->0,
                memory.region,
                raw,
                visible(setup.syntax->0, raw),
                memory.mode.is_plain(),
                brace_change(setup, memory, raw),
            )
        }),
{
    if text_ahead(raw, 0) {
        lemma_not_blank(raw, 0);
        assert(raw.skip(0) =~= raw);
    }
}

proof fn lemma_marked(setup: Setup, memory: Memory, raw: Seq<u8>, i: int)
    requires
        is_marked(setup, memory, raw, i),
    ensures
        memory.mode.is_plain(),
        starts_with_any(setup.syntax->0.test_blocks, visible(setup.syntax->0, raw)),
{
    assert(setup.syntax->0.test_blocks[i].is_prefix_of(visible(setup.syntax->0, raw)));
}

/// A line that starts in plain text with a marker is test code, whatever region
/// was open before it.
pub proof fn law_a_marked_line_is_test_code(
    setup: Setup,
    memory: Memory,
    raw: Seq<u8>,
    i: int,
)
    requires
        is_tracked(setup, memory, raw),
        is_marked(setup, memory, raw, i),
    ensures
        read_line(setup, memory, raw).1,
{
    lemma_tracked(setup, memory, raw);
    lemma_marked(setup, memory, raw, i);
}

/// Outside of any region, a line without a marker is not test code and opens
/// nothing; neither does a marker inside of a string or a comment.
pub proof fn law_only_markers_open_regions(setup: Setup, memory: Memory, raw: Seq<u8>)
    requires
        is_tracked(setup, memory, raw),
        memory.region is None,
        forall|i: int| !#[trigger] is_marked(setup, memory, raw, i),
    ensures
        !read_line(setup, memory, raw).1,
        read_line(setup, memory, raw).2.region is None,
{
    lemma_tracked(setup, memory, raw);
    let line = visible(setup.syntax->0, raw);
    if memory.mode.is_plain() && starts_with_any(setup.syntax->0.test_blocks, line) {
        let i = choose|i: int|
            0 <= i < setup.syntax->0.test_blocks.len() && (
            #[trigger] setup.syntax->0.test_blocks[i]).is_prefix_of(line);
        assert(is_marked(setup, memory, raw, i));
    }
}

/// Outside of any region, a marked line opens one: in the style of the language,
/// at its own indentation, and at the depth that its own braces leave. It waits
/// for a brace unless the line has opened one.
pub proof fn law_a_marker_opens_a_region(setup: Setup, memory: Memory, raw: Seq<u8>, i: int)
    requires
        is_tracked(setup, memory, raw),
        memory.region is None,
        is_marked(setup, memory, raw, i),
    ensures
        read_line(setup, memory, raw).2.region matches Some(r) && {
            &&& r.style == setup.syntax->0.test_block_style
            &&& r.indent == text::leading(raw)
            &&& r.depth == brace_change(setup, memory, raw)
            &&& r.opened == (brace_change(setup, memory, raw) > 0)
            &&& r.waiting == 0
        },
{
    lemma_tracked(setup, memory, raw);
    lemma_marked(setup, memory, raw, i);
}

/// A region by indentation covers what is indented deeper than its marker, and
/// stays open there.
pub proof fn law_an_indented_region_covers_what_is_deeper(
    setup: Setup,
    memory: Memory,
    raw: Seq<u8>,
)
    requires
        is_tracked(setup, memory, raw),
        memory.region is Some,
        memory.region->0.style is Indent,
        text::leading(raw) > memory.region->0.indent,
    ensures
        read_line(setup, memory, raw).1,
        read_line(setup, memory, raw).2.region == memory.region,
{
    lemma_tracked(setup, memory, raw);
}

/// A region by indentation ends at a line that is not indented deeper than its
/// marker. That line is read as if no region had been open: it may open the
/// next one.
pub proof fn law_an_indented_region_ends_where_the_indentation_does(
    setup: Setup,
    memory: Memory,
    raw: Seq<u8>,
)
    requires
        is_tracked(setup, memory, raw),
        memory.region is Some,
        memory.region->0.style is Indent,
        text::leading(raw) <= memory.region->0.indent,
    ensures
        read_line(setup, memory, raw) == read_line(
            setup,
            Memory { mode: memory.mode, region: None },
            raw,
        ),
{
    lemma_tracked(setup, memory, raw);
    lemma_tracked(setup, Memory { mode: memory.mode, region: None }, raw);
}

/// A region by braces that has been opened covers every line up to the one that
/// brings the depth back to zero, that line included.
pub proof fn law_a_braced_region_ends_with_its_last_brace(
    setup: Setup,
    memory: Memory,
    raw: Seq<u8>,
)
    requires
        is_tracked(setup, memory, raw),
        memory.region is Some,
        memory.region->0.style is Braces,
        memory.region->0.opened || brace_change(setup, memory, raw) > 0,
    ensures
        ({
            let before = memory.region->0;
            let after = read_line(setup, memory, raw).2.region;
            let depth = before.depth + brace_change(setup, memory, raw);
            &&& read_line(setup, memory, raw).1
            &&& after is None <==> depth <= 0
            &&& after matches Some(r) ==> {
                &&& r.style is Braces
                &&& r.opened
                &&& r.depth == depth
                &&& r.indent == before.indent
            }
        }),
{
    lemma_tracked(setup, memory, raw);
}

/// A region by braces waits for its first brace for ten lines, which are test
/// code; the lines' own braces count all the while.
pub proof fn law_a_braced_region_waits_for_its_brace(
    setup: Setup,
    memory: Memory,
    raw: Seq<u8>,
)
    requires
        is_tracked(setup, memory, raw),
        memory.region is Some,
        memory.region->0.style is Braces,
        !memory.region->0.opened,
        brace_change(setup, memory, raw) <= 0,
        memory.region->0.waiting < 10,
    ensures
        read_line(setup, memory, raw).1,
        read_line(setup, memory, raw).2.region matches Some(r) && {
            &&& r.style is Braces
            &&& !r.opened
            &&& r.waiting == memory.region->0.waiting + 1
            &&& r.depth == memory.region->0.depth + brace_change(setup, memory, raw)
        },
{
    lemma_tracked(setup, memory, raw);
}

/// After ten lines without a brace the marker is given up: the next line is read
/// as if no region had been open.
pub proof fn law_a_region_without_a_brace_is_given_up(
    setup: Setup,
    memory: Memory,
    raw: Seq<u8>,
)
    requires
        is_tracked(setup, memory, raw),
        memory.region is Some,
        memory.region->0.style is Braces,
        !memory.region->0.opened,
        brace_change(setup, memory, raw) <= 0,
        memory.region->0.waiting >= 10,
    ensures
        read_line(setup, memory, raw) == read_line(
            setup,
            Memory { mode: memory.mode, region: None },
            raw,
        ),
{
    lemma_tracked(setup, memory, raw);
    lemma_tracked(setup, Memory { mode: memory.mode, region: None }, raw);
}

/// A blank line in plain text is test code exactly inside of a region, or in a
/// test file, and leaves the region as it is.
pub proof fn law_a_blank_line_belongs_to_its_region(setup: Setup, memory: Memory, raw: Seq<u8>)
    requires
        setup.syntax is Some,
        memory.mode.quote is None,
        memory.mode.stack.len() == 0,
        forall|i: int|
            0 <= i < raw.len() ==> #[trigger] raw[i] == 0x20 || raw[i] == 0x09 || raw[i] == 0x0d,
    ensures
        read_line(setup, memory, raw).1 <==> setup.is_test_file || memory.region is Some,
        read_line(setup, memory, raw).2 == memory,
{
    assert(text::blank(raw));
}

/// Whether a line is test code has nothing to do with what kind it is and what
/// it leaves open: those are the same in a test file and with the detection
/// switched off.
pub proof fn law_test_code_is_an_axis_of_its_own(a: Setup, b: Setup, memory: Memory, raw: Seq<u8>)
    requires
        a.syntax == b.syntax,
        a.doc_strings == b.doc_strings,
    ensures
        read_line(a, memory, raw).0 == read_line(b, memory, raw).0,
        read_line(a, memory, raw).2.mode == read_line(b, memory, raw).2.mode,
{
}

/// Regions are looked for where that is asked for, in a file that is not a test
/// file as a whole, in a language that has markers.
pub proof fn law_regions_are_looked_for_where_there_are_markers(
    lang: Option<Syntax>,
    is_test_file: bool,
    config: CountConfig,
)
    ensures
        ({
            let setup = Setup::of(lang, is_test_file, config);
            &&& setup.syntax == lang
            &&& setup.is_test_file == is_test_file
            &&& setup.doc_strings == config.treat_doc_strings_as_comments
            &&& setup.tracks <==> config.detect_test_blocks && !is_test_file && lang is Some
                && lang->0.test_blocks.len() > 0
        }),
{
}

// ---------------------------------------------------------------------------
// Lines of a file, and what they add up to
// ---------------------------------------------------------------------------

/// One more line raises exactly one count by one: that of its kind, on the side
/// that it belongs to.
pub proof fn law_a_line_raises_its_own_count(setup: Setup, lines: Seq<Seq<u8>>, raw: Seq<u8>)
    ensures
        ({
            let (memory, before) = read_lines(setup, lines);
            let (kind, is_test, next) = read_line(setup, memory, raw);
            let after = read_lines(setup, lines.push(raw)).1;
            let up = |hit: bool|
                if hit {
                    1int
                } else {
                    0int
                };
            &&& read_lines(setup, lines.push(raw)).0 == next
            &&& after.prod.code == before.prod.code + up(kind is Code && !is_test)
            &&& after.prod.comments == before.prod.comments + up(kind is Comment && !is_test)
            &&& after.prod.blanks == before.prod.blanks + up(kind is Blank && !is_test)
            &&& after.test.code == before.test.code + up(kind is Code && is_test)
            &&& after.test.comments == before.test.comments + up(kind is Comment && is_test)
            &&& after.test.blanks == before.test.blanks + up(kind is Blank && is_test)
        }),
{
    assert(lines.push(raw).drop_last() =~= lines);
}

/// A file starts in plain text, outside of any region, with nothing counted.
pub proof fn law_a_file_starts_in_plain_text(setup: Setup)
    ensures
        ({
            let (memory, tally) = read_lines(setup, Seq::empty());
            &&& memory.mode.quote is None
            &&& memory.mode.stack.len() == 0
            &&& !memory.mode.quote_is_verbatim
            &&& memory.region is None
            &&& tally.prod.code == 0 && tally.prod.comments == 0 && tally.prod.blanks == 0
            &&& tally.test.code == 0 && tally.test.comments == 0 && tally.test.blanks == 0
        }),
{
}

/// A line feed ends a line, which is what precedes it without one carriage
/// return at its end; the lines of what follows come behind it. What is left
/// without a line feed is a line too, unless it is empty.
pub proof fn law_line_feeds_end_lines(body: Seq<u8>, rest: Seq<u8>)
    requires
        forall|i: int| 0 <= i < body.len() ==> #[trigger] body[i] != 0x0a,
    ensures
        ({
            let line = if body.len() > 0 && body[body.len() - 1] == 0x0d {
                body.take(body.len() - 1)
            } else {
                body
            };
            &&& file_lines(body.push(0x0au8) + rest) == seq![line] + file_lines(rest)
            &&& body.len() > 0 ==> file_lines(body) == seq![line]
        }),
        file_lines(Seq::empty()) == Seq::<Seq<u8>>::empty(),
{
    let n = body.len() as int;
    let line = if n > 0 && body[n - 1] == 0x0d {
        body.take(n - 1)
    } else {
        body
    };
    assert(file_lines(Seq::empty()) =~= Seq::<Seq<u8>>::empty());
    let all = body.push(0x0au8) + rest;
    assert forall|k: int| 0 <= k < n implies #[trigger] all[k] != 0x0a by {
        assert(all[k] == body[k]);
    }
    assert(all[n] == 0x0a);
    lemma_first_line_len(all, n);
    let ended = all.take(n + 1);
    assert(ended =~= body.push(0x0au8));
    assert(ended.drop_last() =~= body);
    assert(body.len() > 0 ==> body.drop_last() =~= body.take(n - 1));
    assert(unterminated(ended) == line);
    assert(all.skip(n + 1) =~= rest);
    assert(file_lines(all) =~= seq![line] + file_lines(rest));
    if n > 0 {
        lemma_first_line_len(body, n);
        assert(body.take(n) =~= body);
        assert(body.skip(n) =~= Seq::empty());
        assert(body[n - 1] != 0x0a);
        assert(unterminated(body) == line);
        assert(terminated_lines(body.skip(n)) =~= Seq::<Seq<u8>>::empty());
        assert(file_lines(body) =~= seq![line]);
    }
}

/// A file looks binary exactly if it has a NUL byte before its first line feed.
pub proof fn law_a_nul_on_the_first_line_looks_binary(bytes: Seq<u8>)
    ensures
        looks_binary(bytes) <==> exists|i: int|
            0 <= i < bytes.len() && #[trigger] bytes[i] == 0 && forall|k: int|
                0 <= k < i ==> #[trigger] bytes[k] != 0x0a,
{
    lemma_first_line(bytes);
    let n = first_line_len(bytes) as int;
    let first = bytes.take(n);
    if looks_binary(bytes) {
        let i = choose|i: int| 0 <= i < first.len() && first[i] == 0u8;
        assert(bytes[i] == 0);
        assert forall|k: int| 0 <= k < i implies #[trigger] bytes[k] != 0x0a by {}
    }
    if exists|i: int|
        0 <= i < bytes.len() && #[trigger] bytes[i] == 0 && forall|k: int|
            0 <= k < i ==> #[trigger] bytes[k] != 0x0a {
        let i = choose|i: int|
            0 <= i < bytes.len() && #[trigger] bytes[i] == 0 && forall|k: int|
                0 <= k < i ==> #[trigger] bytes[k] != 0x0a;
        if i >= n {
            assert(bytes[n - 1] != 0x0a);
        }
        assert(first[i] == 0u8);
    }
}

proof fn lemma_first_line(bytes: Seq<u8>)
    ensures
        first_line_len(bytes) <= bytes.len(),
        bytes.len() > 0 ==> first_line_len(bytes) > 0,
        forall|k: int| 0 <= k < first_line_len(bytes) - 1 ==> #[trigger] bytes[k] != 0x0a,
        first_line_len(bytes) < bytes.len() ==> bytes[first_line_len(bytes) - 1] == 0x0a,
    decreases bytes.len(),
{
    if bytes.len() > 0 && bytes[0] != 0x0a {
        let rest = bytes.skip(1);
        lemma_first_line(rest);
        assert forall|k: int| 0 <= k < first_line_len(bytes) - 1 implies #[trigger] bytes[k]
            != 0x0a by {
            if k > 0 {
                assert(rest[k - 1] == bytes[k]);
            }
        }
    }
}

/// The lines of what ends with a line feed, and of what follows it, are the lines
/// of both.
pub proof fn law_lines_of_parts_follow_each_other(a: Seq<u8>, b: Seq<u8>)
    requires
        a.len() == 0 || a[a.len() - 1] == 0x0a,
    ensures
        file_lines(a + b) == file_lines(a) + file_lines(b),
    decreases a.len(),
{
    if a.len() == 0 {
        assert(a + b =~= b);
        law_line_feeds_end_lines(Seq::empty(), Seq::empty());
        assert(a =~= Seq::empty());
        assert(file_lines(a) + file_lines(b) =~= file_lines(b));
    } else {
        lemma_first_line(a);
        let n = first_line_len(a) as int;
        let body = a.take(n - 1);
        let rest = a.skip(n);
        assert(a[n - 1] == 0x0a);
        assert forall|i: int| 0 <= i < body.len() implies #[trigger] body[i] != 0x0a by {
            assert(body[i] == a[i]);
        }
        assert(body.push(0x0au8) + rest =~= a);
        assert(body.push(0x0au8) + (rest + b) =~= a + b);
        law_line_feeds_end_lines(body, rest);
        law_line_feeds_end_lines(body, rest + b);
        law_lines_of_parts_follow_each_other(rest, b);
        assert(file_lines(a + b) =~= file_lines(a) + file_lines(b));
    }
}

/// A line at the end of a file raises the file's counts by one, for the kind
/// that it is after what stands before it; it does not matter whether a line
/// feed ends it.
pub proof fn law_a_file_counts_line_by_line(
    setup: Setup,
    before: Seq<u8>,
    line: Seq<u8>,
    kind: LineKind,
    is_test: bool,
)
    requires
        before.len() == 0 || before[before.len() - 1] == 0x0a,
        line.len() > 0,
        line[line.len() - 1] != 0x0d,
        forall|i: int| 0 <= i < line.len() ==> #[trigger] line[i] != 0x0a,
    ensures
        ({
            let memory = read_lines(setup, file_lines(before)).0;
            let r = read_line(setup, memory, line);
            let a = file_tally(setup, before).at(kind, is_test);
            let one: int = if r.0 == kind && r.1 == is_test {
                1
            } else {
                0
            };
            &&& file_tally(setup, before + line).at(kind, is_test) == a + one
            &&& file_tally(setup, before + line.push(0x0au8)).at(kind, is_test) == a + one
        }),
        file_tally(setup, Seq::empty()).at(kind, is_test) == 0,
{
    law_line_feeds_end_lines(line, Seq::empty());
    assert(line.push(0x0au8) + Seq::<u8>::empty() =~= line.push(0x0au8));
    assert(seq![line] + Seq::<Seq<u8>>::empty() =~= seq![line]);
    law_lines_of_parts_follow_each_other(before, line);
    law_lines_of_parts_follow_each_other(before, line.push(0x0au8));
    let lines = file_lines(before);
    assert(lines + seq![line] =~= lines.push(line));
    law_a_line_raises_its_own_count(setup, lines, line);
    law_a_file_starts_in_plain_text(setup);
}

} // verus!
