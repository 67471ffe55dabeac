//! Language definitions.

use aho_corasick::{AhoCorasick, AhoCorasickKind, MatchKind, StartKind};
use globset::GlobSet;

use vstd::prelude::*;

use crate::globs;
use crate::globs::GlobFault;
use crate::json;
use crate::json::{Json, Tree};
use crate::order;
use crate::ordmap::OrdMap;
use crate::path;
use crate::text;

verus! {

/// An index into [`Registry::languages`]. Cheap to copy, compare and hash.
#[derive(Debug, Clone, Copy, PartialEq, Eq, PartialOrd, Ord, Hash, Structural)]
pub struct LanguageId(pub u16);

/// An index into [`Registry::families`]. Cheap to copy, compare and hash.
#[derive(Debug, Clone, Copy, PartialEq, Eq, PartialOrd, Ord, Hash, Structural)]
pub struct FamilyId(pub u16);

/// How a test block opened by a marker is delimited.
#[derive(Debug, Clone, Copy, PartialEq, Eq, Structural)]
pub enum BlockStyle {
    /// The block runs until brace depth returns to zero after the first `{`.
    Braces,
    /// The block runs while lines are indented deeper than the marker line.
    Indent,
}

impl Default for BlockStyle {
    fn default() -> (r: BlockStyle)
        ensures
            r == BlockStyle::Braces,
    {
        BlockStyle::Braces
    }
}

/// The syntax of a language as the line counter sees it: delimiters are byte
/// strings.
pub struct Syntax {
    pub line_comments: Seq<Seq<u8>>,
    pub multi_line_comments: Seq<(Seq<u8>, Seq<u8>)>,
    pub nested_comments: Seq<(Seq<u8>, Seq<u8>)>,
    pub any_multi_line_comments: Seq<(Seq<u8>, Seq<u8>)>,
    pub quotes: Seq<(Seq<u8>, Seq<u8>)>,
    pub verbatim_quotes: Seq<(Seq<u8>, Seq<u8>)>,
    pub doc_quotes: Seq<(Seq<u8>, Seq<u8>)>,
    pub nested: bool,
    pub literate: bool,
    pub is_fortran: bool,
    pub test_blocks: Seq<Seq<u8>>,
    pub test_block_style: BlockStyle,
}

/// Everything known about one language.
#[derive(Debug)]
pub struct LanguageDef {
    pub id: LanguageId,
    /// The key in the language database, e.g. `Cpp`.
    pub key: String,
    /// The human-facing name, e.g. `C++`.
    pub name: String,
    /// The family this language was grouped into, if any.
    pub family: Option<FamilyId>,
    pub line_comments: Vec<String>,
    pub multi_line_comments: Vec<(String, String)>,
    pub nested_comments: Vec<(String, String)>,
    /// `multi_line_comments` followed by `nested_comments`.
    pub any_multi_line_comments: Vec<(String, String)>,
    pub quotes: Vec<(String, String)>,
    pub verbatim_quotes: Vec<(String, String)>,
    pub doc_quotes: Vec<(String, String)>,
    pub nested: bool,
    pub literate: bool,
    pub is_fortran: bool,
    /// Substrings whose absence from a line means the line can be classified
    /// without running the character-level state machine over it.
    pub important_syntax: AhoCorasick,
    pub extensions: Vec<String>,
    pub filenames: Vec<String>,
    pub path_suffixes: Vec<String>,
    /// Paths matching these globs are counted entirely as test code.
    pub test_paths: GlobSet,
    /// Line prefixes that open a region of test code.
    pub test_blocks: Vec<String>,
    pub test_block_style: BlockStyle,
}

impl LanguageDef {
    /// The delimiters as byte strings.
    pub open spec fn syntax(&self) -> Syntax {
        Syntax {
            line_comments: text::byte_strings(self.line_comments@),
            multi_line_comments: text::byte_pairs(self.multi_line_comments@),
            nested_comments: text::byte_pairs(self.nested_comments@),
            any_multi_line_comments: text::byte_pairs(self.any_multi_line_comments@),
            quotes: text::byte_pairs(self.quotes@),
            verbatim_quotes: text::byte_pairs(self.verbatim_quotes@),
            doc_quotes: text::byte_pairs(self.doc_quotes@),
            nested: self.nested,
            literate: self.literate,
            is_fortran: self.is_fortran,
            test_blocks: text::byte_strings(self.test_blocks@),
            test_block_style: self.test_block_style,
        }
    }
}

// ---------------------------------------------------------------------------
// Reading the database
// ---------------------------------------------------------------------------

/// The database stores texts pre-escaped (`\"` for a quote character). This
/// undoes that: a backslash escapes whatever follows it.
pub open spec fn unescaped(s: Seq<char>) -> Seq<char>
    decreases s.len(),
{
    if s.len() == 0 {
        Seq::empty()
    } else if s[0] != '\\' {
        seq![s[0]] + unescaped(s.skip(1))
    } else if s.len() == 1 {
        Seq::empty()
    } else {
        seq![s[1]] + unescaped(s.skip(2))
    }
}

/// The texts among `items`, unescaped.
pub open spec fn texts_of(items: Seq<Tree>) -> Seq<Seq<char>>
    decreases items.len(),
{
    if items.len() == 0 {
        Seq::empty()
    } else {
        let rest = texts_of(items.drop_last());
        match items.last() {
            Tree::Text(s) => rest.push(unescaped(s)),
            _ => rest,
        }
    }
}

/// The texts of a list, unescaped; none if there is no list.
pub open spec fn texts(tree: Option<Tree>) -> Seq<Seq<char>> {
    match tree {
        Some(Tree::List(items)) => texts_of(items),
        _ => Seq::empty(),
    }
}

/// The pair of texts that a list starts with, unescaped.
pub open spec fn pair_of(tree: Tree) -> Option<(Seq<char>, Seq<char>)> {
    match tree {
        Tree::List(items) => if items.len() >= 2 {
            match (items[0], items[1]) {
                (Tree::Text(a), Tree::Text(b)) => Some((unescaped(a), unescaped(b))),
                _ => None,
            }
        } else {
            None
        },
        _ => None,
    }
}

/// The pairs of texts among `items`.
pub open spec fn pairs_of(items: Seq<Tree>) -> Seq<(Seq<char>, Seq<char>)>
    decreases items.len(),
{
    if items.len() == 0 {
        Seq::empty()
    } else {
        let rest = pairs_of(items.drop_last());
        match pair_of(items.last()) {
            Some(pair) => rest.push(pair),
            None => rest,
        }
    }
}

/// The pairs of texts of a list; none if there is no list.
pub open spec fn text_pairs(tree: Option<Tree>) -> Seq<(Seq<char>, Seq<char>)> {
    match tree {
        Some(Tree::List(items)) => pairs_of(items),
        _ => Seq::empty(),
    }
}

/// Texts are ranked by their length in bytes, the longest first.
pub open spec fn length_rank() -> spec_fn(Seq<char>) -> Seq<int> {
    |s: Seq<char>| seq![-(text::bytes_of(s).len() as int)]
}

/// Pairs are ranked by the length of their first text, the longest first.
pub open spec fn opener_rank() -> spec_fn((Seq<char>, Seq<char>)) -> Seq<int> {
    |p: (Seq<char>, Seq<char>)| seq![-(text::bytes_of(p.0).len() as int)]
}

/// Delimiter pairs with the longest opener first; delimiters of equal length
/// keep their order.
pub open spec fn longest_pairs(tree: Option<Tree>) -> Seq<(Seq<char>, Seq<char>)> {
    order::sorted_by(text_pairs(tree), opener_rank())
}

/// Undoes the escaping of the database.
pub fn unescape(s: &str) -> (r: String)
    ensures
        r@ == unescaped(s@),
{
    let chars = text::chars_of(s);
    let mut out = String::new();
    let mut i: usize = 0;
    assert(s@.skip(0) =~= s@);
    assert(out@ + unescaped(s@) =~= unescaped(s@));
    while i < chars.len()
        invariant
            i <= chars.len(),
            chars@ == s@,
            out@ + unescaped(s@.skip(i as int)) == unescaped(s@),
        decreases chars.len() - i,
    {
        let ghost rest = s@.skip(i as int);
        let ghost done = out@;
        assert(rest[0] == chars@[i as int]);
        if chars[i] != '\\' {
            text::push_char(&mut out, chars[i]);
            assert(rest.skip(1) =~= s@.skip(i + 1));
            assert(done + (seq![rest[0]] + unescaped(rest.skip(1))) =~= out@ + unescaped(
                rest.skip(1),
            ));
            i = i + 1;
        } else if i + 1 < chars.len() {
            text::push_char(&mut out, chars[i + 1]);
            assert(rest[1] == chars@[i + 1]);
            assert(rest.skip(2) =~= s@.skip(i + 2));
            assert(done + (seq![rest[1]] + unescaped(rest.skip(2))) =~= out@ + unescaped(
                rest.skip(2),
            ));
            i = i + 2;
        } else {
            assert(rest.len() == 1);
            i = i + 1;
            assert(unescaped(s@.skip(i as int)) =~= Seq::empty());
        }
    }
    assert(unescaped(s@.skip(i as int)) =~= Seq::empty());
    assert(out@ =~= unescaped(s@));
    out
}

/// A text without backslashes is its own unescaped form.
pub proof fn law_unescape_keeps_plain_text(s: Seq<char>)
    requires
        forall|i: int| 0 <= i < s.len() ==> #[trigger] s[i] != '\\',
    ensures
        unescaped(s) == s,
    decreases s.len(),
{
    if s.len() > 0 {
        let rest = s.skip(1);
        assert forall|i: int| 0 <= i < rest.len() implies #[trigger] rest[i] != '\\' by {
            assert(rest[i] == s[i + 1]);
        }
        law_unescape_keeps_plain_text(rest);
        assert(s =~= seq![s[0]] + rest);
    }
}

/// The tree behind an optional reference.
pub open spec fn tree_at(v: Option<&Json>) -> Option<Tree> {
    match v {
        Some(json) => Some(json@),
        None => None,
    }
}

fn strings(v: Option<&Json>) -> (r: Vec<String>)
    ensures
        text::views(r@) == texts(tree_at(v)),
{
    broadcast use json::lemma_json_view;

    let mut out: Vec<String> = Vec::new();
    if let Some(Json::List(items)) = v {
        let ghost all = json::trees(items@);
        let mut i: usize = 0;
        assert(text::views(out@) =~= texts_of(all.take(0)));
        while i < items.len()
            invariant
                i <= items.len(),
                all == json::trees(items@),
                text::views(out@) == texts_of(all.take(i as int)),
            decreases items.len() - i,
        {
            let ghost done = text::views(out@);
            assert(all[i as int] == items@[i as int]@);
            assert(all.take(i + 1).drop_last() =~= all.take(i as int));
            if let Json::Text(s) = &items[i] {
                let t = unescape(s.as_str());
                out.push(t);
                assert(text::views(out@) =~= done.push(t@));
            }
            i = i + 1;
        }
        assert(all.take(i as int) =~= all);
    } else {
        assert(text::views(out@) =~= Seq::empty());
    }
    out
}

fn pair_in(json: &Json) -> (r: Option<(String, String)>)
    ensures
        r is Some <==> pair_of(json@) is Some,
        r matches Some(p) ==> pair_of(json@) == Some((p.0@, p.1@)),
{
    broadcast use json::lemma_json_view;

    if let Json::List(items) = json {
        if items.len() >= 2 {
            assert(json::trees(items@)[0] == items@[0]@);
            assert(json::trees(items@)[1] == items@[1]@);
            if let Json::Text(a) = &items[0] {
                if let Json::Text(b) = &items[1] {
                    return Some((unescape(a.as_str()), unescape(b.as_str())));
                }
            }
        }
    }
    None
}

fn pairs(v: Option<&Json>) -> (r: Vec<(String, String)>)
    ensures
        text::pair_views(r@) == text_pairs(tree_at(v)),
{
    broadcast use json::lemma_json_view;

    let mut out: Vec<(String, String)> = Vec::new();
    if let Some(Json::List(items)) = v {
        let ghost all = json::trees(items@);
        let mut i: usize = 0;
        assert(text::pair_views(out@) =~= pairs_of(all.take(0)));
        while i < items.len()
            invariant
                i <= items.len(),
                all == json::trees(items@),
                text::pair_views(out@) == pairs_of(all.take(i as int)),
            decreases items.len() - i,
        {
            let ghost done = text::pair_views(out@);
            assert(all[i as int] == items@[i as int]@);
            assert(all.take(i + 1).drop_last() =~= all.take(i as int));
            if let Some(p) = pair_in(&items[i]) {
                out.push(p);
                assert(text::pair_views(out@) =~= done.push((p.0@, p.1@)));
            }
            i = i + 1;
        }
        assert(all.take(i as int) =~= all);
    } else {
        assert(text::pair_views(out@) =~= Seq::empty());
    }
    out
}

/// Whether the opener of `a` is longer than that of `b`.
fn opener_longer(a: &(String, String), b: &(String, String)) -> (r: bool)
    ensures
        r == order::before(opener_rank()((a.0@, a.1@)), opener_rank()((b.0@, b.1@))),
{
    reveal_with_fuel(order::before, 2);
    a.0.as_str().as_bytes().len() > b.0.as_str().as_bytes().len()
}

/// Sorts delimiter pairs so the longest opener is tried first. The sort is
/// stable, so delimiters of equal length keep their order from the database.
fn longest_first(pairs: Vec<(String, String)>) -> (r: Vec<(String, String)>)
    ensures
        text::pair_views(r@) == order::sorted_by(text::pair_views(pairs@), opener_rank()),
{
    let ghost rank = |p: (String, String)| opener_rank()((p.0@, p.1@));
    let ghost view = |p: (String, String)| (p.0@, p.1@);
    let ghost all = pairs@;
    let r = order::stable_sort(pairs, opener_longer, Ghost(rank));
    proof {
        order::lemma_sorted_map(all, view, rank, opener_rank());
        assert(text::pair_views(r@) =~= r@.map_values(view));
        assert(text::pair_views(all) =~= all.map_values(view));
    }
    r
}

// ---------------------------------------------------------------------------
// Important syntax
// ---------------------------------------------------------------------------

/// An automaton that looks for several substrings at once.
#[verifier::external_type_specification]
#[verifier::external_body]
pub struct ExAhoCorasick(AhoCorasick);

/// Why an automaton could not be built.
#[verifier::external_type_specification]
#[verifier::external_body]
pub struct ExBuildError(aho_corasick::BuildError);

/// The substrings that an automaton looks for.
pub uninterp spec fn automaton_patterns(automaton: AhoCorasick) -> Seq<Seq<char>>;

/// Whether an automaton for these substrings can be built.
pub uninterp spec fn automaton_builds(patterns: Seq<Seq<char>>) -> bool;

/// `AhoCorasickBuilder::build`: an automaton for exactly these substrings, or
/// an error, by the substrings alone.
#[verifier::external_body]
fn build_corasick(patterns: &Vec<String>) -> (r: Result<AhoCorasick, aho_corasick::BuildError>)
    ensures
        r is Ok <==> automaton_builds(text::views(patterns@)),
        r matches Ok(automaton) ==> automaton_patterns(automaton) == text::views(patterns@),
{
    AhoCorasick::builder()
        .match_kind(MatchKind::LeftmostLongest)
        .start_kind(StartKind::Unanchored)
        .prefilter(true)
        .kind(Some(AhoCorasickKind::DFA))
        .build(patterns)
}

/// The openers of some pairs.
pub open spec fn openers(pairs: Seq<(Seq<char>, Seq<char>)>) -> Seq<Seq<char>> {
    pairs.map_values(|p: (Seq<char>, Seq<char>)| p.0)
}

/// Texts in the order of their bytes.
pub open spec fn byte_order() -> spec_fn(Seq<char>) -> Seq<int> {
    |s: Seq<char>| order::text_rank(s)
}

/// `s` with each run of equal texts reduced to one.
pub open spec fn deduped(s: Seq<Seq<char>>) -> Seq<Seq<char>>
    decreases s.len(),
{
    if s.len() == 0 {
        Seq::empty()
    } else {
        let rest = deduped(s.drop_last());
        if s.len() > 1 && s[s.len() - 2] == s.last() {
            rest
        } else {
            rest.push(s.last())
        }
    }
}

/// Anything that could start a string, a doc string or a comment, plus whatever
/// the definition calls out explicitly; in order, each once.
pub open spec fn important_texts(tree: Tree) -> Seq<Seq<char>> {
    deduped(
        order::sorted_by(
            openers(longest_pairs(tree.get("quotes"@))) + openers(
                longest_pairs(tree.get("doc_quotes"@)),
            ) + openers(longest_pairs(tree.get("multi_line_comments"@))) + openers(
                longest_pairs(tree.get("nested_comments"@)),
            ) + texts(tree.get("important_syntax"@)),
            byte_order(),
        ),
    )
}

/// Appends the openers of `pairs`.
fn push_openers(out: &mut Vec<String>, pairs: &Vec<(String, String)>)
    ensures
        text::views(final(out)@) == text::views(old(out)@) + openers(text::pair_views(pairs@)),
{
    let ghost before = text::views(out@);
    let ghost all = openers(text::pair_views(pairs@));
    let mut i: usize = 0;
    assert(before + all.take(0) =~= before);
    while i < pairs.len()
        invariant
            i <= pairs.len(),
            all == openers(text::pair_views(pairs@)),
            text::views(out@) == before + all.take(i as int),
        decreases pairs.len() - i,
    {
        let ghost done = text::views(out@);
        out.push(pairs[i].0.clone());
        assert(text::views(out@) =~= done.push(pairs@[i as int].0@));
        assert(all[i as int] == pairs@[i as int].0@);
        assert(before + all.take(i + 1) =~= (before + all.take(i as int)).push(all[i as int]));
        i = i + 1;
    }
    assert(all.take(i as int) =~= all);
}

/// Whether `a` comes before `b`.
fn string_before(a: &String, b: &String) -> (r: bool)
    ensures
        r == order::before(byte_order()(a@), byte_order()(b@)),
{
    order::text_before(a.as_str(), b.as_str())
}

/// Sorts texts by their bytes.
fn sort_texts(items: Vec<String>) -> (r: Vec<String>)
    ensures
        text::views(r@) == order::sorted_by(text::views(items@), byte_order()),
{
    let ghost rank = |s: String| byte_order()(s@);
    let ghost view = |s: String| s@;
    let ghost all = items@;
    let r = order::stable_sort(items, string_before, Ghost(rank));
    proof {
        order::lemma_sorted_map(all, view, rank, byte_order());
        assert(text::views(r@) =~= r@.map_values(view));
        assert(text::views(all) =~= all.map_values(view));
    }
    r
}

/// Reduces each run of equal texts to one.
fn dedup(items: &Vec<String>) -> (r: Vec<String>)
    ensures
        text::views(r@) == deduped(text::views(items@)),
{
    let ghost all = text::views(items@);
    let mut out: Vec<String> = Vec::new();
    let mut i: usize = 0;
    assert(text::views(out@) =~= deduped(all.take(0)));
    while i < items.len()
        invariant
            i <= items.len(),
            all == text::views(items@),
            text::views(out@) == deduped(all.take(i as int)),
        decreases items.len() - i,
    {
        let ghost done = text::views(out@);
        let ghost next = all.take(i + 1);
        assert(next.drop_last() =~= all.take(i as int));
        assert(next.last() == items@[i as int]@);
        if i > 0 {
            assert(next[i - 1] == items@[i - 1]@);
        }
        if i == 0 || items[i - 1] != items[i] {
            out.push(items[i].clone());
            assert(text::views(out@) =~= done.push(items@[i as int]@));
        }
        i = i + 1;
    }
    assert(all.take(i as int) =~= all);
    out
}

/// Whether the text `a` is longer than `b`.
fn string_longer(a: &String, b: &String) -> (r: bool)
    ensures
        r == order::before(length_rank()(a@), length_rank()(b@)),
{
    reveal_with_fuel(order::before, 2);
    a.as_str().as_bytes().len() > b.as_str().as_bytes().len()
}

/// Sorts texts so that the longest comes first.
fn longest_texts(items: Vec<String>) -> (r: Vec<String>)
    ensures
        text::views(r@) == order::sorted_by(text::views(items@), length_rank()),
{
    let ghost rank = |s: String| length_rank()(s@);
    let ghost view = |s: String| s@;
    let ghost all = items@;
    let r = order::stable_sort(items, string_longer, Ghost(rank));
    proof {
        order::lemma_sorted_map(all, view, rank, length_rank());
        assert(text::views(r@) =~= r@.map_values(view));
        assert(text::views(all) =~= all.map_values(view));
    }
    r
}

// ---------------------------------------------------------------------------
// One language
// ---------------------------------------------------------------------------

/// Why a language definition could not be interpreted.
#[derive(Debug)]
pub enum LanguageFault {
    /// No automaton could be built for the important syntax.
    Automaton,
    /// The test paths are not globs.
    TestPaths(GlobFault),
}

/// The patterns of a language's test paths.
pub open spec fn test_path_texts(tree: Tree) -> Seq<Seq<char>> {
    texts(tree.get("test_paths"@))
}

/// A language definition can be interpreted.
pub open spec fn language_ok(tree: Tree) -> bool {
    &&& automaton_builds(important_texts(tree))
    &&& globs::all_valid(test_path_texts(tree))
    &&& globs::set_builds(test_path_texts(tree))
}

/// The fault is what the definition deserves.
pub open spec fn is_language_fault(fault: LanguageFault, tree: Tree) -> bool {
    match fault {
        LanguageFault::Automaton => !automaton_builds(important_texts(tree)),
        LanguageFault::TestPaths(fault) => automaton_builds(important_texts(tree))
            && globs::is_fault(fault, test_path_texts(tree)),
    }
}

/// The name of a language: its key, unless the definition has a name.
pub open spec fn name_in(tree: Tree, key: Seq<char>) -> Seq<char> {
    match tree.get("name"@) {
        Some(Tree::Text(name)) => name,
        _ => key,
    }
}

/// A flag, which is off unless it is there.
pub open spec fn flag_in(tree: Tree, key: Seq<char>) -> bool {
    match tree.get(key) {
        Some(Tree::Bool(b)) => b,
        _ => false,
    }
}

/// The style of test blocks, which are braced unless said otherwise.
pub open spec fn style_in(tree: Tree) -> BlockStyle {
    match tree.get("test_block_style"@) {
        Some(Tree::Text(style)) => if style == "indent"@ {
            BlockStyle::Indent
        } else {
            BlockStyle::Braces
        },
        _ => BlockStyle::Braces,
    }
}

impl LanguageDef {
    /// This is the language that `tree` defines under the key `key`; the family
    /// is not part of it.
    pub open spec fn defined_by(&self, id: int, key: Seq<char>, tree: Tree) -> bool {
        &&& self.id.0 == id
        &&& self.key@ == key
        &&& self.name@ == name_in(tree, key)
        &&& text::views(self.line_comments@) == order::sorted_by(
            texts(tree.get("line_comment"@)),
            length_rank(),
        )
        &&& text::pair_views(self.multi_line_comments@) == longest_pairs(
            tree.get("multi_line_comments"@),
        )
        &&& text::pair_views(self.nested_comments@) == longest_pairs(tree.get("nested_comments"@))
        &&& text::pair_views(self.any_multi_line_comments@) == text::pair_views(
            self.multi_line_comments@,
        ) + text::pair_views(self.nested_comments@)
        &&& text::pair_views(self.quotes@) == longest_pairs(tree.get("quotes"@))
        &&& text::pair_views(self.verbatim_quotes@) == longest_pairs(tree.get("verbatim_quotes"@))
        &&& text::pair_views(self.doc_quotes@) == longest_pairs(tree.get("doc_quotes"@))
        &&& self.nested == flag_in(tree, "nested"@)
        &&& self.literate == flag_in(tree, "literate"@)
        &&& self.is_fortran == (key == "FortranModern"@ || key == "FortranLegacy"@)
        &&& automaton_patterns(self.important_syntax) == important_texts(tree)
        &&& text::views(self.extensions@) == texts(tree.get("extensions"@))
        &&& text::views(self.filenames@) == texts(tree.get("filenames"@))
        &&& text::views(self.path_suffixes@) == texts(tree.get("path_suffixes"@))
        &&& globs::set_globs(self.test_paths) == test_path_texts(tree)
        &&& text::views(self.test_blocks@) == texts(tree.get("test_blocks"@))
        &&& self.test_block_style == style_in(tree)
    }

    /// Whether this language has any way at all of marking test code.
    pub fn detects_tests(&self) -> (r: bool)
        ensures
            r == (self.test_blocks@.len() > 0 || globs::set_globs(self.test_paths).len() > 0),
    {
        self.test_blocks.len() > 0 || !globs::set_is_empty(&self.test_paths)
    }

    fn from_json(id: LanguageId, key: &String, v: &Json) -> (r: Result<LanguageDef, LanguageFault>)
        ensures
            r is Ok <==> language_ok(v@),
            r matches Ok(def) ==> def.defined_by(id.0 as int, key@, v@) && def.family is None,
            r matches Err(fault) ==> is_language_fault(fault, v@),
    {
        // Delimiters are matched by trying each in turn, so the longest opener
        // has to be tried first: a triple quote must not be read as an empty
        // string followed by a quote.
        let multi_line_comments = longest_first(pairs(v.get("multi_line_comments")));
        let nested_comments = longest_first(pairs(v.get("nested_comments")));
        let quotes = longest_first(pairs(v.get("quotes")));
        let doc_quotes = longest_first(pairs(v.get("doc_quotes")));
        let verbatim_quotes = longest_first(pairs(v.get("verbatim_quotes")));
        let mut important: Vec<String> = Vec::new();
        push_openers(&mut important, &quotes);
        push_openers(&mut important, &doc_quotes);
        push_openers(&mut important, &multi_line_comments);
        push_openers(&mut important, &nested_comments);
        let mut more = strings(v.get("important_syntax"));
        proof {
            let a = openers(text::pair_views(quotes@));
            let b = openers(text::pair_views(doc_quotes@));
            let c = openers(text::pair_views(multi_line_comments@));
            let d = openers(text::pair_views(nested_comments@));
            assert(text::views(Seq::<String>::empty()) + a + b + c + d =~= a + b + c + d);
            assert(text::views(important@ + more@) =~= text::views(important@) + text::views(
                more@,
            ));
        }
        important.append(&mut more);
        let important = dedup(&sort_texts(important));
        let mut any_multi_line_comments = clone_pairs(&multi_line_comments);
        let mut nested_again = clone_pairs(&nested_comments);
        assert(text::pair_views(any_multi_line_comments@ + nested_again@) =~= text::pair_views(
            any_multi_line_comments@,
        ) + text::pair_views(nested_again@));
        any_multi_line_comments.append(&mut nested_again);
        let name = match v.get("name") {
            Some(Json::Text(name)) => name.clone(),
            _ => key.clone(),
        };
        let important_syntax = match build_corasick(&important) {
            Ok(automaton) => automaton,
            Err(_) => {
                return Err(LanguageFault::Automaton);
            },
        };
        let test_paths = match globs::compile(&strings(v.get("test_paths"))) {
            Ok(set) => set,
            Err(fault) => {
                return Err(LanguageFault::TestPaths(fault));
            },
        };
        Ok(
            LanguageDef {
                id,
                key: key.clone(),
                name,
                // Filled in when the families are known.
                family: None,
                line_comments: longest_texts(strings(v.get("line_comment"))),
                multi_line_comments,
                nested_comments,
                any_multi_line_comments,
                quotes,
                verbatim_quotes,
                doc_quotes,
                nested: flag(v, "nested"),
                literate: flag(v, "literate"),
                is_fortran: text::same(key.as_str(), "FortranModern") || text::same(
                    key.as_str(),
                    "FortranLegacy",
                ),
                important_syntax,
                extensions: strings(v.get("extensions")),
                filenames: strings(v.get("filenames")),
                path_suffixes: strings(v.get("path_suffixes")),
                test_paths,
                test_blocks: strings(v.get("test_blocks")),
                test_block_style: block_style(v),
            },
        )
    }
}

fn flag(v: &Json, key: &str) -> (r: bool)
    ensures
        r == flag_in(v@, key@),
{
    match v.get(key) {
        Some(Json::Bool(b)) => *b,
        _ => false,
    }
}

fn block_style(v: &Json) -> (r: BlockStyle)
    ensures
        r == style_in(v@),
{
    match v.get("test_block_style") {
        Some(Json::Text(style)) => if text::same(style.as_str(), "indent") {
            BlockStyle::Indent
        } else {
            BlockStyle::Braces
        },
        _ => BlockStyle::Braces,
    }
}

fn clone_pairs(pairs: &Vec<(String, String)>) -> (r: Vec<(String, String)>)
    ensures
        text::pair_views(r@) == text::pair_views(pairs@),
{
    let mut out: Vec<(String, String)> = Vec::new();
    let mut i: usize = 0;
    while i < pairs.len()
        invariant
            i <= pairs.len(),
            out.len() == i,
            forall|k: int|
                0 <= k < i ==> (#[trigger] out@[k]).0@ == pairs@[k].0@ && out@[k].1@
                    == pairs@[k].1@,
        decreases pairs.len() - i,
    {
        out.push((pairs[i].0.clone(), pairs[i].1.clone()));
        i = i + 1;
    }
    assert(text::pair_views(out@) =~= text::pair_views(pairs@));
    out
}

// ---------------------------------------------------------------------------
// Families
// ---------------------------------------------------------------------------

/// The family a language falls into when no family claims it.
pub const OTHER_FAMILY: &'static str = "Other";

/// How many languages, and how many families, there can be.
pub const ID_LIMIT: usize = 65536;

/// A group of related languages, counted together in reports.
#[derive(Debug)]
pub struct FamilyDef {
    pub id: FamilyId,
    /// The name as it appears in the report, e.g. `JavaScript`.
    pub name: String,
    /// The languages that belong to the family.
    pub languages: Vec<LanguageId>,
}

/// Why a registry could not be built.
#[derive(Debug)]
pub enum RegistryError {
    /// One of the texts is not JSON; `serde_json` says why.
    Json(String),
    /// `languages` is not a table.
    NotATable,
    /// The global test paths are not globs.
    GlobalTestPaths(GlobFault),
    /// There are more languages than ids.
    TooManyLanguages,
    /// A language definition could not be interpreted.
    Language { key: String, fault: LanguageFault },
    /// There are more families than ids.
    TooManyFamilies,
    /// A family names a language that does not exist.
    UnknownLanguage { family: String, key: String },
    /// A language is claimed twice.
    TwoFamilies { key: String, first: String, second: String },
}

/// What is said where there are more languages or families than ids.
pub const OUT_OF_IDS: &'static str = "out of range integral type conversion attempted";

/// What a [`RegistryError`] says.
pub open spec fn error_text(error: RegistryError) -> Seq<char> {
    match error {
        RegistryError::Json(complaint) => complaint@,
        RegistryError::NotATable => "`languages` is not an object"@,
        RegistryError::GlobalTestPaths(fault) => globs::fault_text(fault),
        RegistryError::TooManyLanguages => OUT_OF_IDS@,
        RegistryError::Language { key, fault } => match fault {
            LanguageFault::Automaton => "the syntax of "@ + text::quoted(key@)
                + " cannot be searched for"@,
            LanguageFault::TestPaths(fault) => globs::fault_text(fault),
        },
        RegistryError::TooManyFamilies => OUT_OF_IDS@,
        RegistryError::UnknownLanguage { family, key } => "family "@ + text::quoted(family@)
            + " names unknown language "@ + text::quoted(key@),
        RegistryError::TwoFamilies { key, first, second } => "language "@ + text::quoted(key@)
            + " is in two families: Some("@ + text::quoted(first@) + ") and "@ + text::quoted(
            second@,
        ),
    }
}

impl RegistryError {
    /// What is wrong, in words.
    pub fn message(&self) -> (r: String)
        ensures
            r@ == error_text(*self),
    {
        match self {
            RegistryError::Json(complaint) => complaint.clone(),
            RegistryError::NotATable => "`languages` is not an object".to_owned(),
            RegistryError::GlobalTestPaths(fault) => fault.message(),
            RegistryError::TooManyLanguages => OUT_OF_IDS.to_owned(),
            RegistryError::Language { key, fault } => match fault {
                LanguageFault::Automaton => {
                    let mut out = "the syntax of ".to_owned();
                    out.append(text::quote(key.as_str()).as_str());
                    out.append(" cannot be searched for");
                    out
                },
                LanguageFault::TestPaths(fault) => fault.message(),
            },
            RegistryError::TooManyFamilies => OUT_OF_IDS.to_owned(),
            RegistryError::UnknownLanguage { family, key } => {
                let mut out = "family ".to_owned();
                out.append(text::quote(family.as_str()).as_str());
                out.append(" names unknown language ");
                out.append(text::quote(key.as_str()).as_str());
                out
            },
            RegistryError::TwoFamilies { key, first, second } => {
                let mut out = "language ".to_owned();
                out.append(text::quote(key.as_str()).as_str());
                out.append(" is in two families: Some(");
                out.append(text::quote(first.as_str()).as_str());
                out.append(") and ");
                out.append(text::quote(second.as_str()).as_str());
                out
            },
        }
    }
}

/// The definitions of the families, by name.
pub open spec fn family_entries(tree: Tree) -> Seq<(Seq<char>, Tree)> {
    match tree.get("families"@) {
        Some(Tree::Table(entries)) => entries,
        _ => Seq::empty(),
    }
}

/// The keys of the languages that a family claims.
pub open spec fn member_keys(tree: Tree) -> Seq<Seq<char>> {
    texts(tree.get("languages"@))
}

/// Each key as a claim of family `family`.
pub open spec fn tagged(family: int, keys: Seq<Seq<char>>) -> Seq<(int, Seq<char>)> {
    keys.map_values(|key: Seq<char>| (family, key))
}

/// Which family claims which language, in the order of the families.
pub open spec fn claims(families: Seq<(Seq<char>, Tree)>) -> Seq<(int, Seq<char>)>
    decreases families.len(),
{
    if families.len() == 0 {
        Seq::empty()
    } else {
        claims(families.drop_last()) + tagged(
            families.len() - 1,
            member_keys(families.last().1),
        )
    }
}

/// Claim `n` is of a language that exists and that no earlier claim is of.
pub open spec fn claim_ok(keys: Seq<Seq<char>>, claims: Seq<(int, Seq<char>)>, n: int) -> bool {
    &&& keys.contains(claims[n].1)
    &&& forall|m: int| 0 <= m < n ==> (#[trigger] claims[m]).1 != claims[n].1
}

/// The first `n` claims are fine.
pub open spec fn claims_ok(keys: Seq<Seq<char>>, claims: Seq<(int, Seq<char>)>, n: int) -> bool {
    forall|k: int| 0 <= k < n ==> #[trigger] claim_ok(keys, claims, k)
}

/// The families can be interpreted.
pub open spec fn families_ok(keys: Seq<Seq<char>>, families: Seq<(Seq<char>, Tree)>) -> bool {
    &&& families.len() <= ID_LIMIT
    &&& claims_ok(keys, claims(families), claims(families).len() as int)
}

/// Claim `n` is the first that is not fine, and the language does not exist.
pub open spec fn unknown_at(
    keys: Seq<Seq<char>>,
    families: Seq<(Seq<char>, Tree)>,
    n: int,
    family: Seq<char>,
    key: Seq<char>,
) -> bool {
    let all = claims(families);
    &&& 0 <= n < all.len()
    &&& claims_ok(keys, all, n)
    &&& all[n].0 < ID_LIMIT
    &&& all[n].1 == key
    &&& families[all[n].0].0 == family
    &&& !keys.contains(key)
}

/// Claim `n` is the first that is not fine, and claim `m` is of the same
/// language.
pub open spec fn twice_at(
    keys: Seq<Seq<char>>,
    families: Seq<(Seq<char>, Tree)>,
    m: int,
    n: int,
    key: Seq<char>,
    first: Seq<char>,
    second: Seq<char>,
) -> bool {
    let all = claims(families);
    &&& 0 <= m < n < all.len()
    &&& claims_ok(keys, all, n)
    &&& all[n].0 < ID_LIMIT
    &&& all[m].1 == key
    &&& all[n].1 == key
    &&& families[all[m].0].0 == first
    &&& families[all[n].0].0 == second
    &&& keys.contains(key)
}

/// The error is what the families deserve.
pub open spec fn is_family_error(
    error: RegistryError,
    keys: Seq<Seq<char>>,
    families: Seq<(Seq<char>, Tree)>,
) -> bool {
    match error {
        RegistryError::TooManyFamilies => families.len() > ID_LIMIT && claims_ok(
            keys,
            claims(families),
            claims(families.take(ID_LIMIT as int)).len() as int,
        ),
        RegistryError::UnknownLanguage { family, key } => exists|n: int|
            unknown_at(keys, families, n, family@, key@),
        RegistryError::TwoFamilies { key, first, second } => exists|m: int, n: int|
            twice_at(keys, families, m, n, key@, first@, second@),
        _ => false,
    }
}

proof fn lemma_is_unknown(
    error: RegistryError,
    keys: Seq<Seq<char>>,
    families: Seq<(Seq<char>, Tree)>,
    n: int,
    family: Seq<char>,
    key: Seq<char>,
)
    requires
        error matches RegistryError::UnknownLanguage { family: f, key: k } && f@ == family && k@
            == key,
        unknown_at(keys, families, n, family, key),
    ensures
        is_family_error(error, keys, families),
{
}

proof fn lemma_is_twice(
    error: RegistryError,
    keys: Seq<Seq<char>>,
    families: Seq<(Seq<char>, Tree)>,
    m: int,
    n: int,
)
    requires
        error matches RegistryError::TwoFamilies { key, first, second } && twice_at(
            keys,
            families,
            m,
            n,
            key@,
            first@,
            second@,
        ),
    ensures
        is_family_error(error, keys, families),
{
}

/// The keys of the languages.
pub open spec fn keys_of(languages: Seq<LanguageDef>) -> Seq<Seq<char>> {
    languages.map_values(|l: LanguageDef| l.key@)
}

/// A language is stamped with the family that claims it.
pub open spec fn stamped(language: LanguageDef, claims: Seq<(int, Seq<char>)>) -> bool {
    match language.family {
        Some(f) => claims.contains((f.0 as int, language.key@)),
        None => forall|n: int| 0 <= n < claims.len() ==> (#[trigger] claims[n]).1 != language.key@,
    }
}

/// The family lists the languages whose keys are `keys`, in order.
pub open spec fn lists(
    family: FamilyDef,
    languages: Seq<LanguageDef>,
    keys: Seq<Seq<char>>,
) -> bool {
    &&& family.languages@.len() == keys.len()
    &&& forall|j: int|
        0 <= j < keys.len() ==> (#[trigger] family.languages@[j]).0 < languages.len()
            && languages[family.languages@[j].0 as int].key@ == keys[j]
}

/// The families are those of the definitions.
pub open spec fn families_listed(
    families: Seq<FamilyDef>,
    languages: Seq<LanguageDef>,
    entries: Seq<(Seq<char>, Tree)>,
) -> bool {
    &&& families.len() == entries.len()
    &&& forall|i: int|
        0 <= i < families.len() ==> (#[trigger] families[i]).id.0 == i && families[i].name@
            == entries[i].0 && lists(families[i], languages, member_keys(entries[i].1))
}

/// The families are those of the definitions, and every language is stamped
/// with the family that claims it.
pub open spec fn families_built(
    families: Seq<FamilyDef>,
    languages: Seq<LanguageDef>,
    entries: Seq<(Seq<char>, Tree)>,
) -> bool {
    &&& families_listed(families, languages, entries)
    &&& forall|l: int| 0 <= l < languages.len() ==> stamped(#[trigger] languages[l], claims(entries))
}

/// The claims of the first families come first.
proof fn lemma_claims_prefix(families: Seq<(Seq<char>, Tree)>, a: int)
    requires
        0 <= a <= families.len(),
    ensures
        claims(families.take(a)).is_prefix_of(claims(families)),
        forall|n: int|
            0 <= n < claims(families.take(a)).len() ==> 0 <= (#[trigger] claims(
                families.take(a),
            )[n]).0 < a,
    decreases families.len() - a, families.len(),
{
    if a < families.len() {
        lemma_claims_prefix(families, a + 1);
        let next = families.take(a + 1);
        assert(next.drop_last() =~= families.take(a));
        let x = claims(families.take(a));
        let y = claims(next);
        let z = claims(families);
        assert(y == x + tagged(a, member_keys(families[a].1)));
        assert(x =~= z.subrange(0, x.len() as int)) by {
            assert(y =~= z.subrange(0, y.len() as int));
            assert forall|k: int| 0 <= k < x.len() implies x[k] == z[k] by {
                assert(y[k] == x[k]);
                assert(y[k] == z[k]);
            }
        }
    } else {
        assert(families.take(a) =~= families);
        assert(claims(families) =~= claims(families).subrange(
            0,
            claims(families).len() as int,
        ));
    }
    lemma_claims_families(families.take(a));
}

/// A claim is by one of the families.
proof fn lemma_claims_families(families: Seq<(Seq<char>, Tree)>)
    ensures
        forall|n: int|
            0 <= n < claims(families).len() ==> 0 <= (#[trigger] claims(families)[n]).0
                < families.len(),
    decreases families.len(),
{
    if families.len() > 0 {
        lemma_claims_families(families.drop_last());
        let x = claims(families.drop_last());
        let y = tagged(families.len() - 1, member_keys(families.last().1));
        assert forall|n: int| 0 <= n < claims(families).len() implies 0 <= (#[trigger] claims(
            families,
        )[n]).0 < families.len() by {
            if n < x.len() {
                assert(claims(families)[n] == x[n]);
            } else {
                assert(claims(families)[n] == y[n - x.len()]);
            }
        }
    }
}

/// The languages are the same, except for the families they are stamped with.
pub open spec fn same_but_family(a: Seq<LanguageDef>, b: Seq<LanguageDef>) -> bool {
    &&& a.len() == b.len()
    &&& forall|l: int|
        0 <= l < a.len() ==> #[trigger] a[l] == (LanguageDef { family: a[l].family, ..b[l] })
}

/// The index leads from each key to the language that has it.
pub open spec fn indexes_keys(
    index: Map<Seq<char>, LanguageId>,
    languages: Seq<LanguageDef>,
) -> bool {
    &&& forall|l: int|
        0 <= l < languages.len() ==> index.dom().contains((#[trigger] languages[l]).key@)
            && index[languages[l].key@].0 == l
    &&& forall|key: Seq<char>| #[trigger]
        index.dom().contains(key) ==> index[key].0 < languages.len()
            && languages[index[key].0 as int].key@ == key
}

/// Interprets the family definitions and stamps each language with the family
/// that claims it. A language may belong to at most one family, and every key
/// named has to exist, so a typo in the data fails loudly instead of silently
/// dropping a language out of its group.
fn build_families(
    v: &Json,
    by_key: &OrdMap<String, LanguageId>,
    languages: &mut Vec<LanguageDef>,
) -> (r: Result<Vec<FamilyDef>, RegistryError>)
    requires
        by_key.wf(),
        indexes_keys(by_key@, old(languages)@),
        forall|l: int| 0 <= l < old(languages)@.len() ==> (#[trigger] old(languages)@[l]).family
            is None,
    ensures
        same_but_family(final(languages)@, old(languages)@),
        r is Ok <==> families_ok(keys_of(old(languages)@), family_entries(v@)),
        r matches Ok(families) ==> families_built(
            families@,
            final(languages)@,
            family_entries(v@),
        ),
        r matches Err(error) ==> is_family_error(
            error,
            keys_of(old(languages)@),
            family_entries(v@),
        ),
{
    broadcast use json::lemma_json_view;

    let ghost fams = family_entries(v@);
    let ghost all = claims(fams);
    let ghost keys = keys_of(languages@);
    let ghost start = languages@;
    let mut out: Vec<FamilyDef> = Vec::new();
    let families = match v.get("families") {
        Some(Json::Table(entries)) => entries,
        _ => {
            assert(fams =~= Seq::empty());
            return Ok(out);
        },
    };
    assert(fams == json::tree_entries(families@));
    assert(claims(fams.take(0)) =~= Seq::empty());
    let mut i: usize = 0;
    while i < families.len()
        invariant
            i <= families.len(),
            i <= ID_LIMIT,
            by_key.wf(),
            fams == json::tree_entries(families@),
            fams == family_entries(v@),
            start == old(languages)@,
            all == claims(fams),
            keys == keys_of(start),
            same_but_family(languages@, start),
            indexes_keys(by_key@, start),
            claims_ok(keys, all, claims(fams.take(i as int)).len() as int),
            families_listed(out@, start, fams.take(i as int)),
            forall|l: int|
                0 <= l < languages@.len() ==> stamped(
                    #[trigger] languages@[l],
                    claims(fams.take(i as int)),
                ),
        decreases families.len() - i,
    {
        let ghost here = claims(fams.take(i as int));
        proof {
            lemma_claims_prefix(fams, i as int);
        }
        if i >= ID_LIMIT {
            assert(i == ID_LIMIT);
            return Err(RegistryError::TooManyFamilies);
        }
        let id = FamilyId(i as u16);
        let name = &families[i].0;
        let def = &families[i].1;
        assert(fams[i as int] == (name@, def@));
        let members = strings(def.get("languages"));
        let ghost wanted = member_keys(def@);
        assert(text::views(members@) == wanted);
        let ghost next = claims(fams.take(i + 1));
        proof {
            lemma_claims_prefix(fams, i + 1);
            assert(fams.take(i + 1).drop_last() =~= fams.take(i as int));
            assert(next == here + tagged(i as int, wanted));
        }
        let mut ids: Vec<LanguageId> = Vec::new();
        let mut j: usize = 0;
        assert(here + tagged(i as int, wanted.take(0)) =~= here);
        while j < members.len()
            invariant
                j <= members.len(),
                i < families.len(),
                i < ID_LIMIT,
                id.0 == i,
                by_key.wf(),
                text::views(members@) == wanted,
                fams == json::tree_entries(families@),
                fams[i as int] == (name@, def@),
                fams == family_entries(v@),
                start == old(languages)@,
                all == claims(fams),
                here == claims(fams.take(i as int)),
                next == here + tagged(i as int, wanted),
                next.is_prefix_of(all),
                forall|n: int| 0 <= n < here.len() ==> 0 <= (#[trigger] here[n]).0 < i,
                keys == keys_of(start),
                same_but_family(languages@, start),
                indexes_keys(by_key@, start),
                claims_ok(keys, all, here.len() + j),
                ids.len() == j,
                forall|k: int|
                    0 <= k < j ==> (#[trigger] ids@[k]).0 < start.len()
                        && start[ids@[k].0 as int].key@ == wanted[k],
                forall|l: int|
                    0 <= l < languages@.len() ==> stamped(
                        #[trigger] languages@[l],
                        here + tagged(i as int, wanted.take(j as int)),
                    ),
            decreases members.len() - j,
        {
            let ghost done = here + tagged(i as int, wanted.take(j as int));
            let ghost n = here.len() + j;
            let key = &members[j];
            assert(wanted[j as int] == key@);
            assert(next[n] == (i as int, key@));
            assert(all[n] == next[n]) by {
                assert(next =~= all.subrange(0, next.len() as int));
            }
            assert forall|m: int| 0 <= m < n implies #[trigger] done[m] == all[m] by {
                assert(done[m] == next[m]) by {
                    if m >= here.len() {
                        assert(tagged(i as int, wanted.take(j as int))[m - here.len()] == tagged(
                            i as int,
                            wanted,
                        )[m - here.len()]);
                    }
                }
                assert(next =~= all.subrange(0, next.len() as int));
            }
            assert(done.len() == n);
            let language = match by_key.get(key) {
                Some(language) => *language,
                None => {
                    proof {
                        if keys.contains(key@) {
                            let l = choose|l: int| 0 <= l < keys.len() && keys[l] == key@;
                            assert(start[l].key@ == key@);
                        }
                        assert(unknown_at(keys, fams, n, name@, key@));
                        assert(!claim_ok(keys, all, n));
                    }
                    let family = name.clone();
                    let key = key.clone();
                    let error = RegistryError::UnknownLanguage { family, key };
                    proof {
                        lemma_is_unknown(error, keys, fams, n, family@, key@);
                    }
                    return Err(error);
                },
            };
            let at: usize = language.0 as usize;
            proof {
                assert(keys[at as int] == key@);
                assert(languages@[at as int].key@ == key@);
                assert(stamped(languages@[at as int], done));
            }
            if let Some(existing) = languages[at].family {
                proof {
                    let m = choose|m: int|
                        0 <= m < done.len() && done[m] == (existing.0 as int, key@);
                    assert(all[m] == done[m]);
                    if m < here.len() {
                        assert(here[m] == done[m]);
                    } else {
                        assert(tagged(i as int, wanted.take(j as int))[m - here.len()] == done[m]);
                    }
                    assert(existing.0 <= i);
                    assert(fams[existing.0 as int].0 == families@[existing.0 as int].0@);
                    assert(twice_at(
                        keys,
                        fams,
                        m,
                        n,
                        key@,
                        families@[existing.0 as int].0@,
                        name@,
                    ));
                    assert(!claim_ok(keys, all, n));
                }
                let key = key.clone();
                let first = families[existing.0 as usize].0.clone();
                let second = name.clone();
                let error = RegistryError::TwoFamilies { key, first, second };
                proof {
                    let m = choose|m: int| twice_at(keys, fams, m, n, key@, first@, second@);
                    lemma_is_twice(error, keys, fams, m, n);
                }
                return Err(error);
            }
            let ghost before = languages@;
            languages[at].family = Some(id);
            ids.push(language);
            proof {
                assert forall|m: int| 0 <= m < n implies (#[trigger] all[m]).1 != key@ by {
                    assert(done[m] == all[m]);
                }
                assert(claim_ok(keys, all, n));
                let more = here + tagged(i as int, wanted.take(j + 1));
                assert(more =~= done.push((i as int, key@)));
                assert forall|l: int| 0 <= l < languages@.len() implies stamped(
                    #[trigger] languages@[l],
                    more,
                ) by {
                    assert(stamped(before[l], done));
                    if l == at {
                        assert(more[n] == (i as int, key@));
                    } else {
                        if languages@[l].key@ == key@ {
                            assert(start[l].key@ == key@);
                            assert(by_key@[key@].0 == l);
                        }
                        if let Some(f) = before[l].family {
                            let m = choose|m: int|
                                0 <= m < done.len() && done[m] == (f.0 as int, before[l].key@);
                            assert(more[m] == done[m]);
                        } else {
                            assert forall|m: int| 0 <= m < more.len() implies (
                            #[trigger] more[m]).1 != languages@[l].key@ by {
                                if m < n {
                                    assert(more[m] == done[m]);
                                }
                            }
                        }
                    }
                }
            }
            j = j + 1;
        }
        assert(wanted.take(j as int) =~= wanted);
        let ghost earlier = out@;
        out.push(FamilyDef { id, name: name.clone(), languages: ids });
        proof {
            assert forall|k: int| 0 <= k < out@.len() implies (#[trigger] out@[k]).id.0 == k
                && out@[k].name@ == fams.take(i + 1)[k].0 && lists(
                out@[k],
                start,
                member_keys(fams.take(i + 1)[k].1),
            ) by {
                if k < i {
                    assert(out@[k] == earlier[k]);
                    assert(fams.take(i + 1)[k] == fams.take(i as int)[k]);
                }
            }
        }
        i = i + 1;
    }
    assert(fams.take(i as int) =~= fams);
    assert(families_listed(out@, languages@, fams));
    Ok(out)
}

// ---------------------------------------------------------------------------
// Lookup tables
// ---------------------------------------------------------------------------

/// Each name as one of the language `id`.
pub open spec fn labelled(names: Seq<Seq<char>>, id: LanguageId) -> Seq<(Seq<char>, LanguageId)> {
    names.map_values(|name: Seq<char>| (name, id))
}

/// Which language has which extension, in the order of the languages.
pub open spec fn extension_claims(languages: Seq<LanguageDef>) -> Seq<(Seq<char>, LanguageId)>
    decreases languages.len(),
{
    if languages.len() == 0 {
        Seq::empty()
    } else {
        extension_claims(languages.drop_last()) + labelled(
            text::views(languages.last().extensions@),
            languages.last().id,
        )
    }
}

/// Which language has which file name, in the order of the languages.
pub open spec fn filename_claims(languages: Seq<LanguageDef>) -> Seq<(Seq<char>, LanguageId)>
    decreases languages.len(),
{
    if languages.len() == 0 {
        Seq::empty()
    } else {
        filename_claims(languages.drop_last()) + labelled(
            text::views(languages.last().filenames@),
            languages.last().id,
        )
    }
}

/// Which language has which path suffix, in the order of the languages.
pub open spec fn suffix_claims(languages: Seq<LanguageDef>) -> Seq<(Seq<char>, LanguageId)>
    decreases languages.len(),
{
    if languages.len() == 0 {
        Seq::empty()
    } else {
        suffix_claims(languages.drop_last()) + labelled(
            text::views(languages.last().path_suffixes@),
            languages.last().id,
        )
    }
}

/// The language of the first claim to `name`.
pub open spec fn first_claim(
    claims: Seq<(Seq<char>, LanguageId)>,
    name: Seq<char>,
) -> Option<LanguageId>
    decreases claims.len(),
{
    if claims.len() == 0 {
        None
    } else {
        match first_claim(claims.drop_last(), name) {
            Some(id) => Some(id),
            None => if claims.last().0 == name {
                Some(claims.last().1)
            } else {
                None
            },
        }
    }
}

/// The index leads from each name to the first language that claims it.
pub open spec fn indexes_first(
    index: Map<Seq<char>, LanguageId>,
    claims: Seq<(Seq<char>, LanguageId)>,
) -> bool {
    forall|name: Seq<char>| #[trigger]
        index.dom().contains(name) == (first_claim(claims, name) is Some) && (index.dom().contains(
            name,
        ) ==> Some(index[name]) == first_claim(claims, name))
}

/// Claims as texts and ids.
pub open spec fn claim_views(claims: Seq<(String, LanguageId)>) -> Seq<(Seq<char>, LanguageId)> {
    claims.map_values(|c: (String, LanguageId)| (c.0@, c.1))
}

/// Suffixes are ranked by their length in bytes, the longest first.
pub open spec fn suffix_rank() -> spec_fn((Seq<char>, LanguageId)) -> Seq<int> {
    |c: (Seq<char>, LanguageId)| seq![-(text::bytes_of(c.0).len() as int)]
}

fn push_labelled(out: &mut Vec<(String, LanguageId)>, names: &Vec<String>, id: LanguageId)
    ensures
        claim_views(final(out)@) == claim_views(old(out)@) + labelled(text::views(names@), id),
{
    let ghost before = claim_views(out@);
    let ghost all = labelled(text::views(names@), id);
    let mut i: usize = 0;
    assert(before + all.take(0) =~= before);
    while i < names.len()
        invariant
            i <= names.len(),
            all == labelled(text::views(names@), id),
            claim_views(out@) == before + all.take(i as int),
        decreases names.len() - i,
    {
        let ghost done = claim_views(out@);
        out.push((names[i].clone(), id));
        assert(claim_views(out@) =~= done.push((names@[i as int]@, id)));
        assert(all[i as int] == (names@[i as int]@, id));
        assert(before + all.take(i + 1) =~= (before + all.take(i as int)).push(all[i as int]));
        i = i + 1;
    }
    assert(all.take(i as int) =~= all);
}

/// The first definition wins.
fn index_first(claims: &Vec<(String, LanguageId)>) -> (r: OrdMap<String, LanguageId>)
    ensures
        r.wf(),
        indexes_first(r@, claim_views(claims@)),
{
    let ghost all = claim_views(claims@);
    let mut index: OrdMap<String, LanguageId> = OrdMap::new();
    let mut i: usize = 0;
    assert(indexes_first(index@, all.take(0)));
    while i < claims.len()
        invariant
            i <= claims.len(),
            all == claim_views(claims@),
            index.wf(),
            indexes_first(index@, all.take(i as int)),
        decreases claims.len() - i,
    {
        let ghost before = index@;
        let ghost next = all.take(i + 1);
        assert(next.drop_last() =~= all.take(i as int));
        assert(next.last() == (claims@[i as int].0@, claims@[i as int].1));
        if !index.contains(&claims[i].0) {
            index.insert(claims[i].0.clone(), claims[i].1);
        }
        assert forall|name: Seq<char>| #[trigger]
            index@.dom().contains(name) == (first_claim(next, name) is Some) && (
            index@.dom().contains(name) ==> Some(index@[name]) == first_claim(next, name)) by {
            assert(before.dom().contains(name) == (first_claim(all.take(i as int), name) is Some));
        }
        i = i + 1;
    }
    assert(all.take(i as int) =~= all);
    index
}

/// Whether the suffix of `a` is longer than that of `b`.
fn suffix_longer(a: &(String, LanguageId), b: &(String, LanguageId)) -> (r: bool)
    ensures
        r == order::before(suffix_rank()((a.0@, a.1)), suffix_rank()((b.0@, b.1))),
{
    reveal_with_fuel(order::before, 2);
    a.0.as_str().as_bytes().len() > b.0.as_str().as_bytes().len()
}

/// Longest suffix first, so `.blade.php` beats `.php`.
fn longest_suffixes(items: Vec<(String, LanguageId)>) -> (r: Vec<(String, LanguageId)>)
    ensures
        claim_views(r@) == order::sorted_by(claim_views(items@), suffix_rank()),
{
    let ghost rank = |c: (String, LanguageId)| suffix_rank()((c.0@, c.1));
    let ghost view = |c: (String, LanguageId)| (c.0@, c.1);
    let ghost all = items@;
    let r = order::stable_sort(items, suffix_longer, Ghost(rank));
    proof {
        order::lemma_sorted_map(all, view, rank, suffix_rank());
        assert(claim_views(r@) =~= r@.map_values(view));
        assert(claim_views(all) =~= all.map_values(view));
    }
    r
}

/// The lookup tables of some languages.
struct Tables {
    by_extension: OrdMap<String, LanguageId>,
    by_filename: OrdMap<String, LanguageId>,
    by_key: OrdMap<String, LanguageId>,
    path_suffixes: Vec<(String, LanguageId)>,
}

/// Languages are numbered in their order.
pub open spec fn numbered(languages: Seq<LanguageDef>) -> bool {
    &&& languages.len() <= ID_LIMIT
    &&& forall|l: int| 0 <= l < languages.len() ==> (#[trigger] languages[l]).id.0 == l
}

/// No two languages have the same key.
pub open spec fn keys_differ(languages: Seq<LanguageDef>) -> bool {
    forall|a: int, b: int|
        0 <= a < b < languages.len() ==> (#[trigger] languages[a]).key@ != (
        #[trigger] languages[b]).key@
}

impl Tables {
    spec fn wf(&self, languages: Seq<LanguageDef>) -> bool {
        &&& self.by_extension.wf()
        &&& indexes_first(self.by_extension@, extension_claims(languages))
        &&& self.by_filename.wf()
        &&& indexes_first(self.by_filename@, filename_claims(languages))
        &&& self.by_key.wf()
        &&& indexes_keys(self.by_key@, languages)
        &&& claim_views(self.path_suffixes@) == order::sorted_by(
            suffix_claims(languages),
            suffix_rank(),
        )
    }

    fn build(languages: &Vec<LanguageDef>) -> (r: Tables)
        requires
            numbered(languages@),
            keys_differ(languages@),
        ensures
            r.wf(languages@),
    {
        let mut extensions: Vec<(String, LanguageId)> = Vec::new();
        let mut filenames: Vec<(String, LanguageId)> = Vec::new();
        let mut suffixes: Vec<(String, LanguageId)> = Vec::new();
        let mut by_key: OrdMap<String, LanguageId> = OrdMap::new();
        let mut i: usize = 0;
        assert(claim_views(extensions@) =~= extension_claims(languages@.take(0)));
        assert(claim_views(filenames@) =~= filename_claims(languages@.take(0)));
        assert(claim_views(suffixes@) =~= suffix_claims(languages@.take(0)));
        while i < languages.len()
            invariant
                i <= languages.len(),
                numbered(languages@),
                keys_differ(languages@),
                claim_views(extensions@) == extension_claims(languages@.take(i as int)),
                claim_views(filenames@) == filename_claims(languages@.take(i as int)),
                claim_views(suffixes@) == suffix_claims(languages@.take(i as int)),
                by_key.wf(),
                indexes_keys(by_key@, languages@.take(i as int)),
            decreases languages.len() - i,
        {
            let lang = &languages[i];
            let ghost next = languages@.take(i + 1);
            let ghost before = by_key@;
            assert(next.drop_last() =~= languages@.take(i as int));
            by_key.insert(lang.key.clone(), lang.id);
            push_labelled(&mut extensions, &lang.extensions, lang.id);
            push_labelled(&mut filenames, &lang.filenames, lang.id);
            push_labelled(&mut suffixes, &lang.path_suffixes, lang.id);
            proof {
                assert forall|l: int| 0 <= l < next.len() implies by_key@.dom().contains(
                    (#[trigger] next[l]).key@,
                ) && by_key@[next[l].key@].0 == l by {
                    if l < i {
                        assert(next[l] == languages@.take(i as int)[l]);
                        assert(languages@[l].key@ != languages@[i as int].key@);
                    }
                }
                assert forall|key: Seq<char>| #[trigger]
                    by_key@.dom().contains(key) implies by_key@[key].0 < next.len()
                    && next[by_key@[key].0 as int].key@ == key by {
                    if key != lang.key@ {
                        assert(before.dom().contains(key));
                        assert(next[before[key].0 as int] == languages@.take(
                            i as int,
                        )[before[key].0 as int]);
                    }
                }
            }
            i = i + 1;
        }
        assert(languages@.take(i as int) =~= languages@);
        Tables {
            by_extension: index_first(&extensions),
            by_filename: index_first(&filenames),
            by_key,
            path_suffixes: longest_suffixes(suffixes),
        }
    }
}

proof fn lemma_same_claims(a: Seq<LanguageDef>, b: Seq<LanguageDef>)
    requires
        same_but_family(a, b),
    ensures
        extension_claims(a) == extension_claims(b),
        filename_claims(a) == filename_claims(b),
        suffix_claims(a) == suffix_claims(b),
    decreases a.len(),
{
    if a.len() > 0 {
        let x = a.drop_last();
        let y = b.drop_last();
        assert forall|l: int| 0 <= l < x.len() implies #[trigger] x[l] == (LanguageDef {
            family: x[l].family,
            ..y[l]
        }) by {
            assert(a[l] == x[l]);
        }
        lemma_same_claims(x, y);
        assert(a[a.len() - 1] == a.last());
    }
}

// ---------------------------------------------------------------------------
// The registry
// ---------------------------------------------------------------------------

/// The set of all known languages, plus the lookup tables used to map a path to
/// one of them.
#[derive(Debug)]
pub struct Registry {
    languages: Vec<LanguageDef>,
    families: Vec<FamilyDef>,
    by_extension: OrdMap<String, LanguageId>,
    by_filename: OrdMap<String, LanguageId>,
    by_key: OrdMap<String, LanguageId>,
    /// `(suffix, id)`, longest suffix first so the most specific wins.
    path_suffixes: Vec<(String, LanguageId)>,
    /// Path globs that mark a file as test code regardless of language.
    global_test_paths: GlobSet,
}

/// The language definitions: `extra` merged over `base`.
pub open spec fn merged_languages(base: Tree, extra: Tree) -> Tree {
    let start = match base.get("languages"@) {
        Some(tree) => tree,
        None => Tree::Table(Seq::empty()),
    };
    match extra.get("languages"@) {
        Some(overlay) => json::merged(start, overlay),
        None => start,
    }
}

/// The patterns that mark a file as test code regardless of language.
pub open spec fn global_texts(extra: Tree) -> Seq<Seq<char>> {
    match extra.get("global"@) {
        Some(global) => texts(global.get("test_paths"@)),
        None => Seq::empty(),
    }
}

/// The first `n` language definitions can be interpreted.
pub open spec fn languages_ok(entries: Seq<(Seq<char>, Tree)>, n: int) -> bool {
    forall|i: int| 0 <= i < n ==> language_ok((#[trigger] entries[i]).1)
}

/// The keys of the definitions.
pub open spec fn entry_keys(entries: Seq<(Seq<char>, Tree)>) -> Seq<Seq<char>> {
    entries.map_values(|e: (Seq<char>, Tree)| e.0)
}

/// The global test paths are globs.
pub open spec fn global_ok(extra: Tree) -> bool {
    globs::all_valid(global_texts(extra)) && globs::set_builds(global_texts(extra))
}

/// A registry can be built.
pub open spec fn registry_ok(base: Tree, extra: Tree, families: Tree) -> bool {
    &&& merged_languages(base, extra) matches Tree::Table(entries)
    &&& global_ok(extra)
    &&& entries.len() <= ID_LIMIT
    &&& languages_ok(entries, entries.len() as int)
    &&& families_ok(entry_keys(entries), family_entries(families))
}

/// Definition `i` is the first that cannot be interpreted.
pub open spec fn language_fault_at(
    entries: Seq<(Seq<char>, Tree)>,
    i: int,
    key: Seq<char>,
    fault: LanguageFault,
) -> bool {
    &&& 0 <= i < entries.len()
    &&& i < ID_LIMIT
    &&& languages_ok(entries, i)
    &&& entries[i].0 == key
    &&& is_language_fault(fault, entries[i].1)
}

/// Why the first of the texts that is not JSON is none.
pub open spec fn first_complaint(
    base: Seq<char>,
    extra: Seq<char>,
    families: Seq<char>,
) -> Seq<char> {
    match json::parsed(base) {
        Err(complaint) => complaint,
        Ok(_) => match json::parsed(extra) {
            Err(complaint) => complaint,
            Ok(_) => json::parsed(families)->Err_0,
        },
    }
}

/// The error is what the definitions deserve.
pub open spec fn is_registry_error(
    error: RegistryError,
    base: Tree,
    extra: Tree,
    families: Tree,
) -> bool {
    match merged_languages(base, extra) {
        Tree::Table(entries) => match error {
            RegistryError::Json(_) | RegistryError::NotATable => false,
            RegistryError::GlobalTestPaths(fault) => globs::is_fault(fault, global_texts(extra)),
            RegistryError::TooManyLanguages => global_ok(extra) && entries.len() > ID_LIMIT
                && languages_ok(entries, ID_LIMIT as int),
            RegistryError::Language { key, fault } => global_ok(extra) && exists|i: int|
                language_fault_at(entries, i, key@, fault),
            _ => global_ok(extra) && entries.len() <= ID_LIMIT && languages_ok(
                entries,
                entries.len() as int,
            ) && is_family_error(error, entry_keys(entries), family_entries(families)),
        },
        _ => error is NotATable,
    }
}

/// These are the languages that the entries define.
pub open spec fn languages_defined(
    languages: Seq<LanguageDef>,
    entries: Seq<(Seq<char>, Tree)>,
) -> bool {
    &&& languages.len() == entries.len()
    &&& forall|i: int|
        0 <= i < languages.len() ==> (#[trigger] languages[i]).defined_by(
            i,
            entries[i].0,
            entries[i].1,
        )
}

/// A language is stamped with a family exactly if the family lists it.
pub open spec fn membership(languages: Seq<LanguageDef>, families: Seq<FamilyDef>) -> bool {
    forall|l: int, f: int|
        #![trigger languages[l], families[f]]
        0 <= l < languages.len() && 0 <= f < families.len() ==> (languages[l].family == Some(
            FamilyId(f as u16),
        ) <==> families[f].languages@.contains(LanguageId(l as u16)))
}

/// Families list only languages that there are.
pub open spec fn members_known(languages: Seq<LanguageDef>, families: Seq<FamilyDef>) -> bool {
    forall|f: int, k: int|
        #![trigger families[f].languages@[k]]
        0 <= f < families.len() && 0 <= k < families[f].languages@.len()
            ==> families[f].languages@[k].0 < languages.len()
}

/// The merged language definitions.
fn merge_languages(base: &Json, extra: &Json) -> (r: Json)
    requires
        json::tidy(base@),
        json::tidy(extra@),
    ensures
        r@ == merged_languages(base@, extra@),
        json::tidy(r@),
{
    broadcast use json::lemma_json_view;

    proof {
        json::lemma_tidy_member(base@, "languages"@);
        json::lemma_tidy_member(extra@, "languages"@);
    }
    let start = match base.get("languages") {
        Some(json) => json.copy(),
        None => {
            let empty: Vec<(String, Json)> = Vec::new();
            let r = Json::Table(empty);
            assert(r@->Table_0 =~= Seq::empty());
            r
        },
    };
    match extra.get("languages") {
        Some(overlay) => json::deep_merge(start, overlay),
        None => start,
    }
}

/// Interprets each language definition in turn.
fn interpret_languages(entries: &Vec<(String, Json)>) -> (r: Result<
    Vec<LanguageDef>,
    RegistryError,
>)
    ensures
        ({
            let all = json::tree_entries(entries@);
            &&& r is Ok <==> all.len() <= ID_LIMIT && languages_ok(all, all.len() as int)
            &&& r matches Ok(languages) ==> languages_defined(languages@, all) && forall|i: int|
                0 <= i < languages@.len() ==> (#[trigger] languages@[i]).family is None
            &&& r matches Err(error) ==> is_language_error(error, all)
        }),
{
    let ghost all = json::tree_entries(entries@);
    let mut languages: Vec<LanguageDef> = Vec::with_capacity(entries.len());
    let mut i: usize = 0;
    while i < entries.len()
        invariant
            i <= entries.len(),
            i <= ID_LIMIT,
            all == json::tree_entries(entries@),
            languages_ok(all, i as int),
            languages.len() == i,
            forall|k: int|
                0 <= k < i ==> (#[trigger] languages@[k]).defined_by(k, all[k].0, all[k].1)
                    && languages@[k].family is None,
        decreases entries.len() - i,
    {
        assert(all[i as int] == (entries@[i as int].0@, entries@[i as int].1@));
        if i >= ID_LIMIT {
            return Err(RegistryError::TooManyLanguages);
        }
        match LanguageDef::from_json(LanguageId(i as u16), &entries[i].0, &entries[i].1) {
            Ok(language) => {
                languages.push(language);
            },
            Err(fault) => {
                let key = entries[i].0.clone();
                assert(!language_ok(all[i as int].1));
                let error = RegistryError::Language { key, fault };
                proof {
                    lemma_is_language_error(error, all, i as int);
                }
                return Err(error);
            },
        }
        i = i + 1;
    }
    Ok(languages)
}

/// The error is what the language definitions deserve.
spec fn is_language_error(error: RegistryError, entries: Seq<(Seq<char>, Tree)>) -> bool {
    match error {
        RegistryError::TooManyLanguages => entries.len() > ID_LIMIT && languages_ok(
            entries,
            ID_LIMIT as int,
        ),
        RegistryError::Language { key, fault } => exists|i: int|
            language_fault_at(entries, i, key@, fault),
        _ => false,
    }
}

proof fn lemma_is_language_error(
    error: RegistryError,
    entries: Seq<(Seq<char>, Tree)>,
    i: int,
)
    requires
        error matches RegistryError::Language { key, fault } && language_fault_at(
            entries,
            i,
            key@,
            fault,
        ),
    ensures
        is_language_error(error, entries),
{
}

/// No two definitions have the same key.
proof fn lemma_keys_differ(languages: Seq<LanguageDef>, entries: Seq<(Seq<char>, Tree)>)
    requires
        languages_defined(languages, entries),
        json::keys_ascend(entries),
    ensures
        keys_differ(languages),
{
    assert forall|a: int, b: int| 0 <= a < b < languages.len() implies (
    #[trigger] languages[a]).key@ != (#[trigger] languages[b]).key@ by {
        assert(languages[a].defined_by(a, entries[a].0, entries[a].1));
        assert(languages[b].defined_by(b, entries[b].0, entries[b].1));
        order::lemma_before_irreflexive(order::text_rank(entries[a].0));
        assert(order::before(order::text_rank(entries[a].0), order::text_rank(entries[b].0)));
    }
}

/// A family claims exactly the keys it lists.
proof fn lemma_claims_are_members(families: Seq<(Seq<char>, Tree)>, f: int, key: Seq<char>)
    ensures
        claims(families).contains((f, key)) <==> 0 <= f < families.len() && member_keys(
            families[f].1,
        ).contains(key),
    decreases families.len(),
{
    if families.len() > 0 {
        let rest = families.drop_last();
        let last = families.len() - 1;
        lemma_claims_are_members(rest, f, key);
        let x = claims(rest);
        let y = tagged(last, member_keys(families.last().1));
        let z = claims(families);
        assert(z == x + y);
        if z.contains((f, key)) {
            let n = choose|n: int| 0 <= n < z.len() && z[n] == (f, key);
            if n < x.len() {
                assert(x[n] == (f, key));
                assert(rest[f] == families[f]);
            } else {
                assert(y[n - x.len()] == (f, key));
                assert(member_keys(families.last().1)[n - x.len()] == key);
            }
        }
        if 0 <= f < families.len() && member_keys(families[f].1).contains(key) {
            if f < last {
                assert(rest[f] == families[f]);
                let n = choose|n: int| 0 <= n < x.len() && x[n] == (f, key);
                assert(z[n] == (f, key));
            } else {
                let members = member_keys(families.last().1);
                let j = choose|j: int| 0 <= j < members.len() && members[j] == key;
                assert(y[j] == (f, key));
                assert(z[x.len() + j] == (f, key));
            }
        }
    }
}

/// A language is stamped with a family exactly if the family lists it.
proof fn lemma_membership(
    languages: Seq<LanguageDef>,
    families: Seq<FamilyDef>,
    entries: Seq<(Seq<char>, Tree)>,
)
    requires
        languages.len() <= ID_LIMIT,
        keys_differ(languages),
        families_ok(keys_of(languages), entries),
        families_built(families, languages, entries),
    ensures
        membership(languages, families),
        members_known(languages, families),
        forall|l: int|
            0 <= l < languages.len() ==> ((#[trigger] languages[l]).family matches Some(f)
                ==> f.0 < families.len()),
{
    let all = claims(entries);
    assert forall|f: int, k: int|
        #![trigger families[f].languages@[k]]
        0 <= f < families.len() && 0 <= k
            < families[f].languages@.len() implies families[f].languages@[k].0
        < languages.len() by {
        assert(lists(families[f], languages, member_keys(entries[f].1)));
    }
    assert forall|l: int| 0 <= l < languages.len() implies ((
    #[trigger] languages[l]).family matches Some(f) ==> f.0 < families.len()) by {
        assert(stamped(languages[l], all));
        if let Some(f) = languages[l].family {
            lemma_claims_are_members(entries, f.0 as int, languages[l].key@);
        }
    }
    assert forall|l: int, f: int|
        #![trigger languages[l], families[f]]
        0 <= l < languages.len() && 0 <= f < families.len() implies (languages[l].family == Some(
        FamilyId(f as u16),
    ) <==> families[f].languages@.contains(LanguageId(l as u16))) by {
        let key = languages[l].key@;
        let members = member_keys(entries[f].1);
        assert(stamped(languages[l], all));
        assert(lists(families[f], languages, members));
        lemma_claims_are_members(entries, f, key);
        if languages[l].family == Some(FamilyId(f as u16)) {
            let j = choose|j: int| 0 <= j < members.len() && members[j] == key;
            let other = families[f].languages@[j].0 as int;
            assert(languages[other].key@ == key);
            assert(other == l) by {
                if other < l {
                    assert(languages[other].key@ != languages[l].key@);
                } else if l < other {
                    assert(languages[l].key@ != languages[other].key@);
                }
            }
            assert(families[f].languages@[j] == LanguageId(l as u16));
        }
        if families[f].languages@.contains(LanguageId(l as u16)) {
            let j = choose|j: int|
                0 <= j < families[f].languages@.len() && families[f].languages@[j] == LanguageId(
                    l as u16,
                );
            assert(families[f].languages@[j].0 == l);
            assert(members[j] == key);
            let n = choose|n: int| 0 <= n < all.len() && all[n] == (f, key);
            assert(all[n].1 == key);
            let g = languages[l].family->0;
            let m = choose|m: int| 0 <= m < all.len() && all[m] == (g.0 as int, key);
            assert(claim_ok(keys_of(languages), all, m));
            assert(claim_ok(keys_of(languages), all, n));
            assert(m == n) by {
                if m < n {
                    assert(all[m].1 != all[n].1);
                } else if n < m {
                    assert(all[n].1 != all[m].1);
                }
            }
        }
    }
}

impl Registry {
    /// All languages, by id.
    pub closed spec fn langs(&self) -> Seq<LanguageDef> {
        self.languages@
    }

    /// All families, by id.
    pub closed spec fn fams(&self) -> Seq<FamilyDef> {
        self.families@
    }

    /// The globs that mark a file as test code regardless of language.
    pub closed spec fn global_globs(&self) -> Seq<Seq<char>> {
        globs::set_globs(self.global_test_paths)
    }

    /// The lookup tables fit the languages, and ids are places.
    pub closed spec fn wf(&self) -> bool {
        &&& self.by_extension.wf()
        &&& indexes_first(self.by_extension@, extension_claims(self.langs()))
        &&& self.by_filename.wf()
        &&& indexes_first(self.by_filename@, filename_claims(self.langs()))
        &&& self.by_key.wf()
        &&& indexes_keys(self.by_key@, self.langs())
        &&& claim_views(self.path_suffixes@) == order::sorted_by(
            suffix_claims(self.langs()),
            suffix_rank(),
        )
        &&& numbered(self.langs())
        &&& self.fams().len() <= ID_LIMIT
        &&& forall|f: int| 0 <= f < self.fams().len() ==> (#[trigger] self.fams()[f]).id.0 == f
        &&& forall|l: int|
            0 <= l < self.langs().len() ==> ((#[trigger] self.langs()[l]).family matches Some(
                f,
            ) ==> f.0 < self.fams().len())
        &&& membership(self.langs(), self.fams())
        &&& members_known(self.langs(), self.fams())
    }

    /// This is the registry that the definitions describe.
    pub open spec fn built_from(&self, base: Tree, extra: Tree, families: Tree) -> bool {
        &&& merged_languages(base, extra) matches Tree::Table(entries)
        &&& languages_defined(self.langs(), entries)
        &&& self.global_globs() == global_texts(extra)
        &&& families_built(self.fams(), self.langs(), family_entries(families))
    }

    /// Builds a registry by deep-merging `extra` over `base` and interpreting
    /// the result.
    pub fn from_trees(base: &Json, extra: &Json, families: &Json) -> (r: Result<
        Registry,
        RegistryError,
    >)
        requires
            json::tidy(base@),
            json::tidy(extra@),
            json::tidy(families@),
        ensures
            r is Ok <==> registry_ok(base@, extra@, families@),
            r matches Ok(registry) ==> registry.wf() && registry.built_from(
                base@,
                extra@,
                families@,
            ),
            r matches Err(error) ==> is_registry_error(error, base@, extra@, families@),
    {
        broadcast use json::lemma_json_view;

        let merged = merge_languages(base, extra);
        let entries = match merged {
            Json::Table(entries) => entries,
            _ => {
                return Err(RegistryError::NotATable);
            },
        };
        let ghost all = json::tree_entries(entries@);
        assert(merged_languages(base@, extra@) == Tree::Table(all));
        let global = match extra.get("global") {
            Some(global) => strings(global.get("test_paths")),
            None => Vec::new(),
        };
        assert(text::views(global@) =~= global_texts(extra@));
        let global_test_paths = match globs::compile(&global) {
            Ok(set) => set,
            Err(fault) => {
                return Err(RegistryError::GlobalTestPaths(fault));
            },
        };
        let mut languages = match interpret_languages(&entries) {
            Ok(languages) => languages,
            Err(error) => {
                return Err(error);
            },
        };
        let ghost start = languages@;
        proof {
            lemma_keys_differ(languages@, all);
            assert(keys_of(start) =~= entry_keys(all));
        }
        let tables = Tables::build(&languages);
        let built = match build_families(families, &tables.by_key, &mut languages) {
            Ok(built) => built,
            Err(error) => {
                return Err(error);
            },
        };
        proof {
            lemma_same_claims(languages@, start);
            assert forall|i: int| 0 <= i < languages@.len() implies (
            #[trigger] languages@[i]).defined_by(i, all[i].0, all[i].1) by {
                assert(start[i].defined_by(i, all[i].0, all[i].1));
            }
            assert(indexes_keys(tables.by_key@, languages@));
            lemma_keys_differ(languages@, all);
            assert(keys_of(languages@) =~= entry_keys(all));
            lemma_membership(languages@, built@, family_entries(families@));
        }
        let registry = Registry {
            languages,
            families: built,
            by_extension: tables.by_extension,
            by_filename: tables.by_filename,
            by_key: tables.by_key,
            path_suffixes: tables.path_suffixes,
            global_test_paths,
        };
        Ok(registry)
    }
}

// ---------------------------------------------------------------------------
// Looking languages up
// ---------------------------------------------------------------------------

/// The id of the first language that `wanted` holds of.
pub open spec fn first_language(
    languages: Seq<LanguageDef>,
    wanted: spec_fn(LanguageDef) -> bool,
) -> Option<LanguageId>
    decreases languages.len(),
{
    if languages.len() == 0 {
        None
    } else {
        match first_language(languages.drop_last(), wanted) {
            Some(id) => Some(id),
            None => if wanted(languages.last()) {
                Some(languages.last().id)
            } else {
                None
            },
        }
    }
}

/// The key or the name is `needle`, whatever the case.
pub open spec fn called(needle: Seq<char>) -> spec_fn(LanguageDef) -> bool {
    |l: LanguageDef|
        text::lowered(l.key@) == text::lowered(needle) || text::lowered(l.name@) == text::lowered(
            needle,
        )
}

/// The language that `needle` means: one whose key or name it is, else the one
/// whose extension it is.
pub open spec fn resolved(languages: Seq<LanguageDef>, needle: Seq<char>) -> Option<LanguageId> {
    match first_language(languages, called(needle)) {
        Some(id) => Some(id),
        None => first_claim(extension_claims(languages), text::lowered(needle)),
    }
}

/// The language of the first suffix that `name` ends with.
pub open spec fn suffix_language(
    suffixes: Seq<(Seq<char>, LanguageId)>,
    name: Seq<char>,
) -> Option<LanguageId>
    decreases suffixes.len(),
{
    if suffixes.len() == 0 {
        None
    } else {
        match suffix_language(suffixes.drop_last(), name) {
            Some(id) => Some(id),
            None => if suffixes.last().0.is_suffix_of(name) {
                Some(suffixes.last().1)
            } else {
                None
            },
        }
    }
}

/// The language of a path: by its file name, else by the longest suffix of it,
/// else by its extension; whatever the case.
pub open spec fn path_language(languages: Seq<LanguageDef>, path: Seq<char>) -> Option<
    LanguageId,
> {
    match path::file_name(path) {
        None => None,
        Some(name) => match first_claim(filename_claims(languages), text::lowered(name)) {
            Some(id) => Some(id),
            None => match suffix_language(
                order::sorted_by(suffix_claims(languages), suffix_rank()),
                text::lowered(name),
            ) {
                Some(id) => Some(id),
                None => match path::extension(path) {
                    Some(ext) => first_claim(extension_claims(languages), text::lowered(ext)),
                    None => None,
                },
            },
        },
    }
}

/// The letters that `s` starts with.
pub open spec fn stem(s: Seq<char>) -> Seq<char>
    decreases s.len(),
{
    if s.len() == 0 || !is_letter(s[0]) {
        Seq::empty()
    } else {
        seq![s[0]] + stem(s.skip(1))
    }
}

/// An ASCII letter.
pub open spec fn is_letter(c: char) -> bool {
    ('a' <= c && c <= 'z') || ('A' <= c && c <= 'Z')
}

/// What a first line says the interpreter is: the word behind `#!/.../env`, or
/// the end of a path behind `#!`.
pub open spec fn interpreter(line: Seq<char>) -> Option<Seq<char>> {
    let words = text::words(line);
    if words.len() == 0 || !("#!"@.is_prefix_of(words[0])) {
        None
    } else if "/env"@.is_suffix_of(words[0]) {
        if words.len() > 1 {
            Some(words[1])
        } else {
            None
        }
    } else {
        Some(text::split(words[0], '/').last())
    }
}

/// The key or one of the extensions is `stem`, whatever the case.
pub open spec fn run_by(stem: Seq<char>) -> spec_fn(LanguageDef) -> bool {
    |l: LanguageDef|
        text::lowered(l.key@) == text::lowered(stem) || exists|i: int|
            0 <= i < l.extensions@.len() && text::lowered((#[trigger] l.extensions@[i])@)
                == text::lowered(stem)
}

/// The language that a first line asks for.
pub open spec fn shebang_language(languages: Seq<LanguageDef>, line: Seq<char>) -> Option<
    LanguageId,
> {
    match interpreter(line) {
        Some(word) => first_language(languages, run_by(stem(word))),
        None => None,
    }
}

/// Where the language stands that no earlier one rules out.
proof fn lemma_first_language(
    languages: Seq<LanguageDef>,
    wanted: spec_fn(LanguageDef) -> bool,
    n: int,
)
    requires
        0 <= n <= languages.len(),
        forall|k: int| 0 <= k < n ==> !wanted(#[trigger] languages[k]),
        n == languages.len() || wanted(languages[n]),
    ensures
        first_language(languages, wanted) == if n == languages.len() {
            None
        } else {
            Some(languages[n].id)
        },
    decreases languages.len(),
{
    if languages.len() > 0 {
        let rest = languages.drop_last();
        if n == languages.len() {
            lemma_first_language(rest, wanted, n - 1);
        } else if n == languages.len() - 1 {
            lemma_first_language(rest, wanted, n);
        } else {
            assert(rest[n] == languages[n]);
            lemma_first_language(rest, wanted, n);
        }
    }
}

/// Where the suffix stands that no earlier one rules out.
proof fn lemma_suffix_language(
    suffixes: Seq<(Seq<char>, LanguageId)>,
    name: Seq<char>,
    n: int,
)
    requires
        0 <= n <= suffixes.len(),
        forall|k: int| 0 <= k < n ==> !(#[trigger] suffixes[k]).0.is_suffix_of(name),
        n == suffixes.len() || suffixes[n].0.is_suffix_of(name),
    ensures
        suffix_language(suffixes, name) == if n == suffixes.len() {
            None
        } else {
            Some(suffixes[n].1)
        },
    decreases suffixes.len(),
{
    if suffixes.len() > 0 {
        let rest = suffixes.drop_last();
        if n == suffixes.len() {
            lemma_suffix_language(rest, name, n - 1);
        } else if n == suffixes.len() - 1 {
            lemma_suffix_language(rest, name, n);
        } else {
            assert(rest[n] == suffixes[n]);
            lemma_suffix_language(rest, name, n);
        }
    }
}

/// The letters that `s` starts with.
fn stem_of(s: &str) -> (r: String)
    ensures
        r@ == stem(s@),
{
    let chars = text::chars_of(s);
    let mut out = String::new();
    let mut i: usize = 0;
    assert(s@.skip(0) =~= s@);
    assert(out@ + stem(s@) =~= stem(s@));
    while i < chars.len() && (('a' <= chars[i] && chars[i] <= 'z') || ('A' <= chars[i] && chars[i]
        <= 'Z'))
        invariant
            i <= chars.len(),
            chars@ == s@,
            out@ + stem(s@.skip(i as int)) == stem(s@),
        decreases chars.len() - i,
    {
        let ghost rest = s@.skip(i as int);
        let ghost done = out@;
        text::push_char(&mut out, chars[i]);
        assert(rest.skip(1) =~= s@.skip(i + 1));
        assert(done + (seq![rest[0]] + stem(rest.skip(1))) =~= out@ + stem(rest.skip(1)));
        i = i + 1;
    }
    assert(stem(s@.skip(i as int)) =~= Seq::empty());
    assert(out@ =~= stem(s@));
    out
}

/// Whether two texts are the same but for the case of ASCII letters.
fn same_ignoring_case(a: &str, b: &str) -> (r: bool)
    ensures
        r == (text::lowered(a@) == text::lowered(b@)),
{
    let x = text::lower(a);
    let y = text::lower(b);
    text::same(x.as_str(), y.as_str())
}

/// Every claim is by a language below `n`.
spec fn in_range(claims: Seq<(Seq<char>, LanguageId)>, n: int) -> bool {
    forall|i: int| 0 <= i < claims.len() ==> (#[trigger] claims[i]).1.0 < n
}

proof fn lemma_in_range_more(
    claims: Seq<(Seq<char>, LanguageId)>,
    names: Seq<Seq<char>>,
    id: LanguageId,
    n: int,
)
    requires
        in_range(claims, n),
        id.0 < n,
    ensures
        in_range(claims + labelled(names, id), n),
{
    let all = claims + labelled(names, id);
    assert forall|i: int| 0 <= i < all.len() implies (#[trigger] all[i]).1.0 < n by {
        if i < claims.len() {
            assert(all[i] == claims[i]);
        } else {
            assert(all[i] == labelled(names, id)[i - claims.len()]);
        }
    }
}

/// A name is claimed by one of the languages.
proof fn lemma_claims_in_range(languages: Seq<LanguageDef>, n: int)
    requires
        forall|l: int| 0 <= l < languages.len() ==> (#[trigger] languages[l]).id.0 < n,
    ensures
        in_range(extension_claims(languages), n),
        in_range(filename_claims(languages), n),
        in_range(suffix_claims(languages), n),
    decreases languages.len(),
{
    if languages.len() > 0 {
        let rest = languages.drop_last();
        let last = languages.last();
        assert forall|l: int| 0 <= l < rest.len() implies (#[trigger] rest[l]).id.0 < n by {
            assert(rest[l] == languages[l]);
        }
        lemma_claims_in_range(rest, n);
        assert(last == languages[languages.len() - 1]);
        lemma_in_range_more(extension_claims(rest), text::views(last.extensions@), last.id, n);
        lemma_in_range_more(filename_claims(rest), text::views(last.filenames@), last.id, n);
        lemma_in_range_more(suffix_claims(rest), text::views(last.path_suffixes@), last.id, n);
    }
}

proof fn lemma_first_claim_in_range(
    claims: Seq<(Seq<char>, LanguageId)>,
    name: Seq<char>,
    n: int,
)
    requires
        in_range(claims, n),
    ensures
        first_claim(claims, name) matches Some(id) ==> id.0 < n,
        suffix_language(claims, name) matches Some(id) ==> id.0 < n,
    decreases claims.len(),
{
    if claims.len() > 0 {
        lemma_first_claim_in_range(claims.drop_last(), name, n);
        assert(claims.last() == claims[claims.len() - 1]);
    }
}

proof fn lemma_first_language_in_range(
    languages: Seq<LanguageDef>,
    wanted: spec_fn(LanguageDef) -> bool,
    n: int,
)
    requires
        forall|l: int| 0 <= l < languages.len() ==> (#[trigger] languages[l]).id.0 < n,
    ensures
        first_language(languages, wanted) matches Some(id) ==> id.0 < n,
    decreases languages.len(),
{
    if languages.len() > 0 {
        lemma_first_language_in_range(languages.drop_last(), wanted, n);
        assert(languages.last() == languages[languages.len() - 1]);
    }
}

impl Registry {
    /// Families list only languages that there are.
    pub proof fn lemma_members_known(&self)
        requires
            self.wf(),
        ensures
            members_known(self.langs(), self.fams()),
    {
    }

    /// Whatever a lookup finds is one of the languages.
    pub proof fn lemma_lookups_know(&self)
        requires
            self.wf(),
        ensures
            forall|needle: Seq<char>| #[trigger] self.knows(resolved(self.langs(), needle)),
            forall|path: Seq<char>| #[trigger] self.knows(path_language(self.langs(), path)),
            forall|line: Seq<char>| #[trigger] self.knows(shebang_language(self.langs(), line)),
    {
        let languages = self.langs();
        let n = languages.len() as int;
        lemma_claims_in_range(languages, n);
        let suffixes = order::sorted_by(suffix_claims(languages), suffix_rank());
        order::law_sort_keeps_everything(suffix_claims(languages), suffix_rank());
        assert forall|i: int| 0 <= i < suffixes.len() implies (#[trigger] suffixes[i]).1.0 < n by {
            broadcast use vstd::seq_lib::group_to_multiset_ensures;

            let all = suffix_claims(languages);
            assert(suffixes.contains(suffixes[i]));
            assert(suffixes.to_multiset().count(suffixes[i]) > 0);
            assert(all.contains(suffixes[i]));
        }
        assert forall|needle: Seq<char>| #[trigger]
            self.knows(resolved(self.langs(), needle)) by {
            lemma_first_language_in_range(languages, called(needle), n);
            lemma_first_claim_in_range(extension_claims(languages), text::lowered(needle), n);
        }
        assert forall|path: Seq<char>| #[trigger]
            self.knows(path_language(self.langs(), path)) by {
            if let Some(name) = path::file_name(path) {
                lemma_first_claim_in_range(filename_claims(languages), text::lowered(name), n);
                lemma_first_claim_in_range(suffixes, text::lowered(name), n);
                if let Some(ext) = path::extension(path) {
                    lemma_first_claim_in_range(extension_claims(languages), text::lowered(ext), n);
                }
            }
        }
        assert forall|line: Seq<char>| #[trigger]
            self.knows(shebang_language(self.langs(), line)) by {
            if let Some(word) = interpreter(line) {
                lemma_first_language_in_range(languages, run_by(stem(word)), n);
            }
        }
    }

    /// Builds a registry by deep-merging `extra` over `base` and interpreting
    /// the result.
    pub fn from_json(base: &str, extra: &str, families: &str) -> (r: Result<
        Registry,
        RegistryError,
    >)
        ensures
            ({
                let all = (json::parsed(base@), json::parsed(extra@), json::parsed(families@));
                match all {
                    (Ok(b), Ok(e), Ok(f)) => {
                        &&& r is Ok <==> registry_ok(b, e, f)
                        &&& r matches Ok(registry) ==> registry.wf() && registry.built_from(
                            b,
                            e,
                            f,
                        )
                        &&& r matches Err(error) ==> is_registry_error(error, b, e, f)
                    },
                    _ => r matches Err(RegistryError::Json(why)) && why@ == first_complaint(
                        base@,
                        extra@,
                        families@,
                    ),
                }
            }),
    {
        let base = match json::parse(base) {
            Ok(json) => json,
            Err(complaint) => {
                return Err(RegistryError::Json(complaint));
            },
        };
        let extra = match json::parse(extra) {
            Ok(json) => json,
            Err(complaint) => {
                return Err(RegistryError::Json(complaint));
            },
        };
        let families = match json::parse(families) {
            Ok(json) => json,
            Err(complaint) => {
                return Err(RegistryError::Json(complaint));
            },
        };
        Registry::from_trees(&base, &extra, &families)
    }

    pub fn languages(&self) -> (r: &[LanguageDef])
        ensures
            r@ == self.langs(),
    {
        self.languages.as_slice()
    }

    pub fn get(&self, id: LanguageId) -> (r: &LanguageDef)
        requires
            id.0 < self.langs().len(),
        ensures
            *r == self.langs()[id.0 as int],
    {
        &self.languages[id.0 as usize]
    }

    pub fn families(&self) -> (r: &[FamilyDef])
        ensures
            r@ == self.fams(),
    {
        self.families.as_slice()
    }

    pub fn family(&self, id: FamilyId) -> (r: &FamilyDef)
        requires
            id.0 < self.fams().len(),
        ensures
            *r == self.fams()[id.0 as int],
    {
        &self.families[id.0 as usize]
    }

    /// The family `id` belongs to, or `None` when no family claims it.
    pub fn family_of(&self, id: LanguageId) -> (r: Option<&FamilyDef>)
        requires
            self.wf(),
            id.0 < self.langs().len(),
        ensures
            r is Some <==> self.langs()[id.0 as int].family is Some,
            r matches Some(family) ==> {
                let f = self.langs()[id.0 as int].family->0;
                f.0 < self.fams().len() && *family == self.fams()[f.0 as int]
            },
    {
        match self.get(id).family {
            Some(f) => Some(self.family(f)),
            None => None,
        }
    }

    /// The name of the family of a language that may be unknown.
    pub open spec fn family_name_of(&self, id: Option<LanguageId>) -> Seq<char> {
        match id {
            Some(id) => match self.langs()[id.0 as int].family {
                Some(f) => self.fams()[f.0 as int].name@,
                None => OTHER_FAMILY@,
            },
            None => OTHER_FAMILY@,
        }
    }

    /// The id, if there is one, is that of a language.
    pub open spec fn knows(&self, id: Option<LanguageId>) -> bool {
        id matches Some(id) ==> id.0 < self.langs().len()
    }

    /// The name of the family `id` belongs to, falling back to
    /// [`OTHER_FAMILY`]. `None`, a file of unknown language, lands there too.
    pub fn family_name(&self, id: Option<LanguageId>) -> (r: &str)
        requires
            self.wf(),
            self.knows(id),
        ensures
            r@ == self.family_name_of(id),
    {
        match id {
            Some(id) => match self.family_of(id) {
                Some(family) => family.name.as_str(),
                None => OTHER_FAMILY,
            },
            None => OTHER_FAMILY,
        }
    }

    /// Family `f` is the first whose name is `needle`, whatever the case.
    pub open spec fn is_first_family(&self, needle: Seq<char>, f: int) -> bool {
        &&& 0 <= f < self.fams().len()
        &&& text::lowered(self.fams()[f].name@) == text::lowered(needle)
        &&& forall|k: int|
            0 <= k < f ==> text::lowered((#[trigger] self.fams()[k]).name@) != text::lowered(
                needle,
            )
    }

    /// Resolves a family by name, case-insensitively.
    pub fn resolve_family(&self, needle: &str) -> (r: Option<FamilyId>)
        requires
            self.wf(),
        ensures
            r matches Some(id) ==> self.is_first_family(needle@, id.0 as int),
            r is None ==> forall|k: int|
                0 <= k < self.fams().len() ==> text::lowered((#[trigger] self.fams()[k]).name@)
                    != text::lowered(needle@),
    {
        let mut i: usize = 0;
        while i < self.families.len()
            invariant
                self.wf(),
                i <= self.families.len(),
                forall|k: int|
                    0 <= k < i ==> text::lowered((#[trigger] self.fams()[k]).name@)
                        != text::lowered(needle@),
            decreases self.families.len() - i,
        {
            let ghost family = self.fams()[i as int];
            if same_ignoring_case(self.families[i].name.as_str(), needle) {
                return Some(self.families[i].id);
            }
            i = i + 1;
        }
        None
    }

    /// The language with this key.
    pub fn by_key(&self, key: &str) -> (r: Option<LanguageId>)
        requires
            self.wf(),
        ensures
            r is Some <==> keys_of(self.langs()).contains(key@),
            r matches Some(id) ==> id.0 < self.langs().len() && self.langs()[id.0 as int].key@
                == key@,
    {
        let key = key.to_owned();
        let ghost keys = keys_of(self.langs());
        match self.by_key.get(&key) {
            Some(id) => {
                assert(keys[id.0 as int] == key@);
                Some(*id)
            },
            None => {
                proof {
                    if keys.contains(key@) {
                        let l = choose|l: int| 0 <= l < keys.len() && keys[l] == key@;
                        assert(self.langs()[l].key@ == key@);
                    }
                }
                None
            },
        }
    }

    /// Resolves a language by name, key or extension, case-insensitively.
    pub fn resolve(&self, needle: &str) -> (r: Option<LanguageId>)
        requires
            self.wf(),
        ensures
            r == resolved(self.langs(), needle@),
            self.knows(r),
    {
        proof {
            self.lemma_lookups_know();
        }
        let lowered = text::lower(needle);
        let ghost wanted = called(needle@);
        let mut i: usize = 0;
        while i < self.languages.len()
            invariant
                self.wf(),
                i <= self.languages.len(),
                lowered@ == text::lowered(needle@),
                wanted == called(needle@),
                forall|k: int| 0 <= k < i ==> !wanted(#[trigger] self.langs()[k]),
            decreases self.languages.len() - i,
        {
            let l = &self.languages[i];
            assert(*l == self.langs()[i as int]);
            let key = text::lower(l.key.as_str());
            let name = text::lower(l.name.as_str());
            if text::same(key.as_str(), lowered.as_str()) || text::same(
                name.as_str(),
                lowered.as_str(),
            ) {
                proof {
                    lemma_first_language(self.langs(), wanted, i as int);
                }
                return Some(l.id);
            }
            i = i + 1;
        }
        proof {
            lemma_first_language(self.langs(), wanted, i as int);
        }
        match self.by_extension.get(&lowered) {
            Some(id) => Some(*id),
            None => {
                assert(!self.by_extension@.dom().contains(lowered@));
                None
            },
        }
    }

    /// Determines the language of a path from its filename, path suffix or
    /// extension. Does not read the file, so shebangs are not consulted.
    pub fn from_path(&self, path: &str) -> (r: Option<LanguageId>)
        requires
            self.wf(),
        ensures
            r == path_language(self.langs(), path@),
            self.knows(r),
    {
        proof {
            self.lemma_lookups_know();
        }
        let filename = match path::file_name_of(path) {
            Some(name) => text::lower(name.as_str()),
            None => {
                return None;
            },
        };
        if let Some(id) = self.by_filename.get(&filename) {
            return Some(*id);
        }
        assert(!self.by_filename@.dom().contains(filename@));
        let ghost suffixes = claim_views(self.path_suffixes@);
        let mut i: usize = 0;
        while i < self.path_suffixes.len()
            invariant
                self.wf(),
                i <= self.path_suffixes.len(),
                suffixes == claim_views(self.path_suffixes@),
                forall|k: int|
                    0 <= k < i ==> !(#[trigger] suffixes[k]).0.is_suffix_of(filename@),
                path::file_name(path@) is Some,
                filename@ == text::lowered(path::file_name(path@)->0),
                self.knows(path_language(self.langs(), path@)),
                !self.by_filename@.dom().contains(filename@),
            decreases self.path_suffixes.len() - i,
        {
            let suffix = &self.path_suffixes[i];
            assert(suffixes[i as int] == (suffix.0@, suffix.1));
            if text::ends_with_text(filename.as_str(), suffix.0.as_str()) {
                proof {
                    lemma_suffix_language(suffixes, filename@, i as int);
                }
                return Some(suffix.1);
            }
            i = i + 1;
        }
        proof {
            lemma_suffix_language(suffixes, filename@, i as int);
        }
        match path::extension_of(path) {
            Some(ext) => {
                let ext = text::lower(ext.as_str());
                match self.by_extension.get(&ext) {
                    Some(id) => Some(*id),
                    None => {
                        assert(!self.by_extension@.dom().contains(ext@));
                        None
                    },
                }
            },
            None => None,
        }
    }

    /// Determines a language from the first line of a file, e.g.
    /// `#!/usr/bin/env python3`. Only consulted when the path is inconclusive.
    pub fn from_shebang(&self, first_line: &str) -> (r: Option<LanguageId>)
        requires
            self.wf(),
        ensures
            r == shebang_language(self.langs(), first_line@),
            self.knows(r),
    {
        proof {
            self.lemma_lookups_know();
        }
        let words = text::split_words(first_line);
        if words.len() == 0 {
            return None;
        }
        let ghost all = text::words(first_line@);
        assert(all[0] == words@[0]@);
        let first = words[0].as_str();
        if !text::starts_with(first, "#!") {
            return None;
        }
        // `#!/usr/bin/env python3`: the interpreter is the second word.
        let interpreter = if text::ends_with_text(first, "/env") {
            if words.len() < 2 {
                return None;
            }
            assert(all[1] == words@[1]@);
            words[1].clone()
        } else {
            let pieces = text::split_at_each(first, '/');
            proof {
                text::lemma_split_nonempty(first@, '/');
                assert(text::split(first@, '/').last() == pieces@[pieces@.len() - 1]@);
            }
            pieces[pieces.len() - 1].clone()
        };
        let stem = stem_of(interpreter.as_str());
        let ghost wanted = run_by(stem@);
        let mut i: usize = 0;
        while i < self.languages.len()
            invariant
                self.wf(),
                i <= self.languages.len(),
                wanted == run_by(stem@),
                shebang_language(self.langs(), first_line@) == first_language(
                    self.langs(),
                    wanted,
                ),
                forall|k: int| 0 <= k < i ==> !wanted(#[trigger] self.langs()[k]),
            decreases self.languages.len() - i,
        {
            let l = &self.languages[i];
            assert(*l == self.langs()[i as int]);
            if same_ignoring_case(l.key.as_str(), stem.as_str()) || has_extension(
                l,
                stem.as_str(),
            ) {
                proof {
                    lemma_first_language(self.langs(), wanted, i as int);
                }
                return Some(l.id);
            }
            i = i + 1;
        }
        proof {
            lemma_first_language(self.langs(), wanted, i as int);
        }
        None
    }

    /// The whole file at `path` is test code.
    pub open spec fn is_test_path(&self, path: Seq<char>, language: Option<LanguageId>) -> bool {
        ||| globs::any_matches(self.global_globs(), path)
        ||| language matches Some(id) && globs::any_matches(
            globs::set_globs(self.langs()[id.0 as int].test_paths),
            path,
        )
    }

    /// Whether the whole file at `path` should be counted as test code.
    pub fn path_is_test(&self, path: &str, language: Option<LanguageId>) -> (r: bool)
        requires
            self.knows(language),
        ensures
            r == self.is_test_path(path@, language),
    {
        if globs::set_matches(&self.global_test_paths, path) {
            return true;
        }
        match language {
            Some(id) => globs::set_matches(&self.get(id).test_paths, path),
            None => false,
        }
    }
}

/// Whether one of the extensions is `stem`, whatever the case.
fn has_extension(l: &LanguageDef, stem: &str) -> (r: bool)
    ensures
        r == exists|i: int|
            0 <= i < l.extensions@.len() && text::lowered((#[trigger] l.extensions@[i])@)
                == text::lowered(stem@),
{
    let mut i: usize = 0;
    while i < l.extensions.len()
        invariant
            i <= l.extensions.len(),
            forall|k: int|
                0 <= k < i ==> text::lowered((#[trigger] l.extensions@[k])@) != text::lowered(
                    stem@,
                ),
        decreases l.extensions.len() - i,
    {
        if same_ignoring_case(l.extensions[i].as_str(), stem) {
            return true;
        }
        i = i + 1;
    }
    false
}

// ---------------------------------------------------------------------------
// Laws
// ---------------------------------------------------------------------------

/// A language belongs to at most one family.
pub proof fn law_at_most_one_family(registry: Registry, l: int, f: int, g: int)
    requires
        registry.wf(),
        0 <= l < registry.langs().len(),
        0 <= f < registry.fams().len(),
        0 <= g < registry.fams().len(),
        registry.fams()[f].languages@.contains(LanguageId(l as u16)),
        registry.fams()[g].languages@.contains(LanguageId(l as u16)),
    ensures
        f == g,
{
    let language = registry.langs()[l];
    let a = registry.fams()[f];
    let b = registry.fams()[g];
    assert(language.family == Some(FamilyId(f as u16)));
    assert(language.family == Some(FamilyId(g as u16)));
}

/// A language is stamped with a family exactly if the family lists it.
pub proof fn law_stamps_match_members(registry: Registry, l: int, f: int)
    requires
        registry.wf(),
        0 <= l < registry.langs().len(),
        0 <= f < registry.fams().len(),
    ensures
        registry.langs()[l].family == Some(FamilyId(f as u16))
            <==> registry.fams()[f].languages@.contains(LanguageId(l as u16)),
{
    let language = registry.langs()[l];
    let family = registry.fams()[f];
}

/// The longest opener is tried first: in a language with both `"` and `"""`, a
/// triple quote is not read as an empty string followed by a quote.
pub proof fn law_longest_opener_first(tree: Option<Tree>, i: int, j: int)
    requires
        0 <= i < j < longest_pairs(tree).len(),
    ensures
        text::bytes_of(longest_pairs(tree)[i].0).len() >= text::bytes_of(
            longest_pairs(tree)[j].0,
        ).len(),
{
    let pairs = longest_pairs(tree);
    let rank = opener_rank();
    order::law_sort_orders(text_pairs(tree), rank);
    assert(!order::before(rank(pairs[j]), rank(pairs[i])));
    assert(rank(pairs[i])[0] == -(text::bytes_of(pairs[i].0).len() as int));
    assert(rank(pairs[j])[0] == -(text::bytes_of(pairs[j].0).len() as int));
}

/// The most specific path suffix wins: of two suffixes, the longer one is tried
/// first.
pub proof fn law_longest_suffix_first(languages: Seq<LanguageDef>, i: int, j: int)
    requires
        0 <= i < j < suffix_claims(languages).len(),
    ensures
        ({
            let sorted = order::sorted_by(suffix_claims(languages), suffix_rank());
            text::bytes_of(sorted[i].0).len() >= text::bytes_of(sorted[j].0).len()
        }),
{
    let sorted = order::sorted_by(suffix_claims(languages), suffix_rank());
    let rank = suffix_rank();
    order::law_sort_orders(suffix_claims(languages), rank);
    order::law_sort_keeps_everything(suffix_claims(languages), rank);
    assert(!order::before(rank(sorted[j]), rank(sorted[i])));
    assert(rank(sorted[i])[0] == -(text::bytes_of(sorted[i].0).len() as int));
    assert(rank(sorted[j])[0] == -(text::bytes_of(sorted[j].0).len() as int));
}

/// A registry that was built holds a language for every definition, and its
/// families are exactly those defined: what is built is valid.
pub proof fn law_every_definition_is_a_language(
    registry: Registry,
    base: Tree,
    extra: Tree,
    families: Tree,
    key: Seq<char>,
)
    requires
        registry.built_from(base, extra, families),
    ensures
        keys_of(registry.langs()).contains(key) <==> exists|i: int|
            0 <= i < merged_languages(base, extra)->Table_0.len() && (
            #[trigger] merged_languages(base, extra)->Table_0[i]).0 == key,
{
    let entries = merged_languages(base, extra)->Table_0;
    let keys = keys_of(registry.langs());
    if keys.contains(key) {
        let i = choose|i: int| 0 <= i < keys.len() && keys[i] == key;
        assert(registry.langs()[i].defined_by(i, entries[i].0, entries[i].1));
        assert(entries[i].0 == key);
    }
    if exists|i: int| 0 <= i < entries.len() && (#[trigger] entries[i]).0 == key {
        let i = choose|i: int| 0 <= i < entries.len() && (#[trigger] entries[i]).0 == key;
        assert(registry.langs()[i].defined_by(i, entries[i].0, entries[i].1));
        assert(keys[i] == key);
    }
}

// ---------------------------------------------------------------------------
// Laws of looking languages up
// ---------------------------------------------------------------------------

/// `id` is the first of the languages for which something holds; `None` where it
/// holds for none.
pub open spec fn is_first_where(
    languages: Seq<LanguageDef>,
    holds: spec_fn(LanguageDef) -> bool,
    id: Option<LanguageId>,
) -> bool {
    match id {
        Some(id) => exists|l: int|
            0 <= l < languages.len() && (#[trigger] languages[l]).id == id && holds(languages[l])
                && forall|k: int| 0 <= k < l ==> !holds(#[trigger] languages[k]),
        None => forall|l: int| 0 <= l < languages.len() ==> !holds(#[trigger] languages[l]),
    }
}

/// One of the texts is `name`.
pub open spec fn one_is(names: Seq<String>, name: Seq<char>) -> bool {
    exists|k: int| 0 <= k < names.len() && (#[trigger] names[k])@ == name
}

/// A language has an extension.
pub open spec fn lists_extension(name: Seq<char>) -> spec_fn(LanguageDef) -> bool {
    |l: LanguageDef| one_is(l.extensions@, name)
}

/// A language has a file name.
pub open spec fn lists_filename(name: Seq<char>) -> spec_fn(LanguageDef) -> bool {
    |l: LanguageDef| one_is(l.filenames@, name)
}

proof fn lemma_first_where_push(
    languages: Seq<LanguageDef>,
    holds: spec_fn(LanguageDef) -> bool,
    id: Option<LanguageId>,
)
    requires
        languages.len() > 0,
        is_first_where(languages.drop_last(), holds, id),
    ensures
        is_first_where(
            languages,
            holds,
            if id is None && holds(languages.last()) {
                Some(languages.last().id)
            } else {
                id
            },
        ),
{
    let rest = languages.drop_last();
    match id {
        Some(id) => {
            let l = choose|l: int|
                0 <= l < rest.len() && (#[trigger] rest[l]).id == id && holds(rest[l]) && forall|
                    k: int,
                |
                    0 <= k < l ==> !holds(#[trigger] rest[k]);
            assert forall|k: int| 0 <= k < l implies !holds(#[trigger] languages[k]) by {
                assert(!holds(rest[k]));
            }
            assert(languages[l].id == id);
        },
        None => {
            let n = languages.len() - 1;
            assert forall|k: int| 0 <= k < n implies !holds(#[trigger] languages[k]) by {
                assert(!holds(rest[k]));
            }
            assert(languages[n] == languages.last());
        },
    }
}

proof fn lemma_first_language_is_first(
    languages: Seq<LanguageDef>,
    holds: spec_fn(LanguageDef) -> bool,
)
    ensures
        is_first_where(languages, holds, first_language(languages, holds)),
    decreases languages.len(),
{
    if languages.len() > 0 {
        lemma_first_language_is_first(languages.drop_last(), holds);
        lemma_first_where_push(
            languages,
            holds,
            first_language(languages.drop_last(), holds),
        );
    }
}

proof fn lemma_first_claim_concat(
    a: Seq<(Seq<char>, LanguageId)>,
    b: Seq<(Seq<char>, LanguageId)>,
    name: Seq<char>,
)
    ensures
        first_claim(a + b, name) == if first_claim(a, name) is Some {
            first_claim(a, name)
        } else {
            first_claim(b, name)
        },
    decreases b.len(),
{
    if b.len() == 0 {
        assert(a + b =~= a);
    } else {
        assert((a + b).drop_last() =~= a + b.drop_last());
        lemma_first_claim_concat(a, b.drop_last(), name);
    }
}

proof fn lemma_first_claim_labelled(names: Seq<String>, id: LanguageId, name: Seq<char>)
    ensures
        first_claim(labelled(text::views(names), id), name) == if one_is(names, name) {
            Some(id)
        } else {
            None
        },
    decreases names.len(),
{
    let claims = labelled(text::views(names), id);
    if names.len() > 0 {
        let rest = names.drop_last();
        lemma_first_claim_labelled(rest, id, name);
        assert(claims.drop_last() =~= labelled(text::views(rest), id));
        assert(claims.last() == (names.last()@, id));
        assert(names[names.len() - 1] == names.last());
        if one_is(rest, name) {
            let k = choose|k: int| 0 <= k < rest.len() && (#[trigger] rest[k])@ == name;
            assert(names[k]@ == name);
        }
        if one_is(names, name) && !one_is(rest, name) {
            let k = choose|k: int| 0 <= k < names.len() && (#[trigger] names[k])@ == name;
            if k < rest.len() {
                assert(rest[k]@ == name);
            }
        }
    }
}

/// Of the languages that have an extension, the first counts.
pub proof fn law_the_first_language_with_an_extension_counts(
    languages: Seq<LanguageDef>,
    name: Seq<char>,
)
    ensures
        is_first_where(
            languages,
            lists_extension(name),
            first_claim(extension_claims(languages), name),
        ),
    decreases languages.len(),
{
    if languages.len() > 0 {
        let rest = languages.drop_last();
        let last = languages.last();
        law_the_first_language_with_an_extension_counts(rest, name);
        lemma_first_where_push(
            languages,
            lists_extension(name),
            first_claim(extension_claims(rest), name),
        );
        lemma_first_claim_concat(
            extension_claims(rest),
            labelled(text::views(last.extensions@), last.id),
            name,
        );
        lemma_first_claim_labelled(last.extensions@, last.id, name);
    }
}

/// Of the languages that have a file name, the first counts.
pub proof fn law_the_first_language_with_a_file_name_counts(
    languages: Seq<LanguageDef>,
    name: Seq<char>,
)
    ensures
        is_first_where(
            languages,
            lists_filename(name),
            first_claim(filename_claims(languages), name),
        ),
    decreases languages.len(),
{
    if languages.len() > 0 {
        let rest = languages.drop_last();
        let last = languages.last();
        law_the_first_language_with_a_file_name_counts(rest, name);
        lemma_first_where_push(
            languages,
            lists_filename(name),
            first_claim(filename_claims(rest), name),
        );
        lemma_first_claim_concat(
            filename_claims(rest),
            labelled(text::views(last.filenames@), last.id),
            name,
        );
        lemma_first_claim_labelled(last.filenames@, last.id, name);
    }
}

/// A language has a path suffix that a file name ends with.
pub open spec fn suffix_fits(
    languages: Seq<LanguageDef>,
    l: int,
    k: int,
    name: Seq<char>,
) -> bool {
    &&& 0 <= l < languages.len()
    &&& 0 <= k < languages[l].path_suffixes@.len()
    &&& languages[l].path_suffixes@[k]@.is_suffix_of(name)
}

proof fn lemma_suffix_claim(languages: Seq<LanguageDef>, claim: (Seq<char>, LanguageId))
    ensures
        suffix_claims(languages).contains(claim) <==> exists|l: int, k: int|
            0 <= l < languages.len() && 0 <= k < languages[l].path_suffixes@.len()
                && languages[l].id == claim.1 && #[trigger] languages[l].path_suffixes@[k]@
                == claim.0,
    decreases languages.len(),
{
    let all = suffix_claims(languages);
    if languages.len() > 0 {
        let rest = languages.drop_last();
        let n = languages.len() - 1;
        let head = suffix_claims(rest);
        let own = labelled(text::views(languages[n].path_suffixes@), languages[n].id);
        lemma_suffix_claim(rest, claim);
        if all.contains(claim) {
            let i = choose|i: int| 0 <= i < all.len() && all[i] == claim;
            if i < head.len() {
                assert(head[i] == claim);
                let (l, k) = choose|l: int, k: int|
                    0 <= l < rest.len() && 0 <= k < rest[l].path_suffixes@.len() && rest[l].id
                        == claim.1 && #[trigger] rest[l].path_suffixes@[k]@ == claim.0;
                assert(languages[l].path_suffixes@[k]@ == claim.0);
            } else {
                assert(own[i - head.len()] == claim);
                assert(languages[n].path_suffixes@[i - head.len()]@ == claim.0);
            }
        }
        if exists|l: int, k: int|
            0 <= l < languages.len() && 0 <= k < languages[l].path_suffixes@.len()
                && languages[l].id == claim.1 && #[trigger] languages[l].path_suffixes@[k]@
                == claim.0 {
            let (l, k) = choose|l: int, k: int|
                0 <= l < languages.len() && 0 <= k < languages[l].path_suffixes@.len()
                    && languages[l].id == claim.1 && #[trigger] languages[l].path_suffixes@[k]@
                    == claim.0;
            if l < n {
                assert(rest[l].path_suffixes@[k]@ == claim.0);
                let i = choose|i: int| 0 <= i < head.len() && head[i] == claim;
                assert(all[i] == claim);
            } else {
                assert(own[k] == claim);
                assert(all[head.len() + k] == claim);
            }
        }
    }
}

/// Of suffixes that are tried in turn the first that fits counts.
pub proof fn law_the_first_suffix_that_fits_counts(suffixes: Seq<(Seq<char>, LanguageId)>, name: Seq<char>)
    ensures
        match suffix_language(suffixes, name) {
            Some(id) => exists|i: int|
                0 <= i < suffixes.len() && (#[trigger] suffixes[i]).0.is_suffix_of(name)
                    && suffixes[i].1 == id && forall|k: int|
                    0 <= k < i ==> !(#[trigger] suffixes[k]).0.is_suffix_of(name),
            None => forall|i: int|
                0 <= i < suffixes.len() ==> !(#[trigger] suffixes[i]).0.is_suffix_of(name),
        },
    decreases suffixes.len(),
{
    if suffixes.len() > 0 {
        let rest = suffixes.drop_last();
        let n = suffixes.len() - 1;
        law_the_first_suffix_that_fits_counts(rest, name);
        match suffix_language(rest, name) {
            Some(id) => {
                let i = choose|i: int|
                    0 <= i < rest.len() && (#[trigger] rest[i]).0.is_suffix_of(name) && rest[i].1
                        == id && forall|k: int|
                        0 <= k < i ==> !(#[trigger] rest[k]).0.is_suffix_of(name);
                assert forall|k: int| 0 <= k < i implies !(#[trigger] suffixes[k]).0.is_suffix_of(
                    name,
                ) by {
                    assert(!rest[k].0.is_suffix_of(name));
                }
                assert(suffixes[i].0.is_suffix_of(name));
            },
            None => {
                assert forall|k: int| 0 <= k < n implies !(#[trigger] suffixes[k]).0.is_suffix_of(
                    name,
                ) by {
                    assert(!rest[k].0.is_suffix_of(name));
                }
                assert(suffixes[n] == suffixes.last());
            },
        }
    }
}

/// Of the path suffixes that a file name ends with, the longest counts. Where
/// none fits there is no language.
pub proof fn law_the_longest_suffix_counts(languages: Seq<LanguageDef>, name: Seq<char>)
    ensures
        match suffix_language(order::sorted_by(suffix_claims(languages), suffix_rank()), name) {
            Some(id) => exists|l: int, k: int| #[trigger]
                suffix_fits(languages, l, k, name) && languages[l].id == id && forall|
                    m: int,
                    n: int,
                | #[trigger]
                    suffix_fits(languages, m, n, name) ==> vstd::utf8::encode_utf8(
                        languages[m].path_suffixes@[n]@,
                    ).len() <= vstd::utf8::encode_utf8(languages[l].path_suffixes@[k]@).len(),
            None => forall|m: int, n: int| !#[trigger] suffix_fits(languages, m, n, name),
        },
{
    broadcast use vstd::seq_lib::group_to_multiset_ensures;

    let claims = suffix_claims(languages);
    let rank = suffix_rank();
    let sorted = order::sorted_by(claims, rank);
    order::law_sort_keeps_everything(claims, rank);
    order::law_sort_orders(claims, rank);
    law_the_first_suffix_that_fits_counts(sorted, name);
    assert forall|m: int, n: int| #[trigger] suffix_fits(languages, m, n, name) implies exists|
        j: int,
    |
        0 <= j < sorted.len() && (#[trigger] sorted[j]).0 == languages[m].path_suffixes@[n]@ by {
        let claim = (languages[m].path_suffixes@[n]@, languages[m].id);
        lemma_suffix_claim(languages, claim);
        assert(claims.contains(claim));
        assert(claims.to_multiset().count(claim) > 0);
        assert(sorted.contains(claim));
        let j = choose|j: int| 0 <= j < sorted.len() && sorted[j] == claim;
        assert(sorted[j].0 == languages[m].path_suffixes@[n]@);
    }
    match suffix_language(sorted, name) {
        Some(id) => {
            let i = choose|i: int|
                0 <= i < sorted.len() && (#[trigger] sorted[i]).0.is_suffix_of(name) && sorted[i].1
                    == id && forall|k: int|
                    0 <= k < i ==> !(#[trigger] sorted[k]).0.is_suffix_of(name);
            let claim = sorted[i];
            assert(sorted.contains(claim));
            assert(sorted.to_multiset().count(claim) > 0);
            assert(claims.contains(claim));
            lemma_suffix_claim(languages, claim);
            let (l, k) = choose|l: int, k: int|
                0 <= l < languages.len() && 0 <= k < languages[l].path_suffixes@.len()
                    && languages[l].id == claim.1 && #[trigger] languages[l].path_suffixes@[k]@
                    == claim.0;
            assert(suffix_fits(languages, l, k, name));
            assert forall|m: int, n: int| #[trigger]
                suffix_fits(languages, m, n, name) implies vstd::utf8::encode_utf8(
                languages[m].path_suffixes@[n]@,
            ).len() <= vstd::utf8::encode_utf8(languages[l].path_suffixes@[k]@).len() by {
                let j = choose|j: int|
                    0 <= j < sorted.len() && (#[trigger] sorted[j]).0
                        == languages[m].path_suffixes@[n]@;
                if j > i {
                    assert(!order::before(rank(sorted[j]), rank(sorted[i])));
                    assert(rank(sorted[i])[0] == -(text::bytes_of(sorted[i].0).len() as int));
                    assert(rank(sorted[j])[0] == -(text::bytes_of(sorted[j].0).len() as int));
                }
            }
        },
        None => {
            assert forall|m: int, n: int| !#[trigger] suffix_fits(languages, m, n, name) by {
                if suffix_fits(languages, m, n, name) {
                    let j = choose|j: int|
                        0 <= j < sorted.len() && (#[trigger] sorted[j]).0
                            == languages[m].path_suffixes@[n]@;
                    assert(!sorted[j].0.is_suffix_of(name));
                }
            }
        },
    }
}

/// A path tells its language by its file name as a whole if it can, else by the
/// end of the file name, else by its extension, in lower case each. A path
/// without a file name tells none.
pub proof fn law_names_come_before_suffixes_and_extensions(
    languages: Seq<LanguageDef>,
    path: Seq<char>,
)
    ensures
        path::file_name(path) is None ==> path_language(languages, path) is None,
        path::file_name(path) matches Some(name) ==> {
            let low = text::lowered(name);
            let named = exists|l: int|
                0 <= l < languages.len() && one_is((#[trigger] languages[l]).filenames@, low);
            let fits = exists|l: int, k: int| #[trigger] suffix_fits(languages, l, k, low);
            let r = path_language(languages, path);
            &&& named ==> is_first_where(languages, lists_filename(low), r)
            &&& !named && fits ==> r is Some && exists|l: int, k: int| #[trigger]
                suffix_fits(languages, l, k, low) && languages[l].id == r->0 && forall|
                    m: int,
                    n: int,
                | #[trigger]
                    suffix_fits(languages, m, n, low) ==> vstd::utf8::encode_utf8(
                        languages[m].path_suffixes@[n]@,
                    ).len() <= vstd::utf8::encode_utf8(languages[l].path_suffixes@[k]@).len()
            &&& !named && !fits && path::extension(path) is Some ==> is_first_where(
                languages,
                lists_extension(text::lowered(path::extension(path)->0)),
                r,
            )
            &&& !named && !fits && path::extension(path) is None ==> r is None
        },
{
    if path::file_name(path) is Some {
        let low = text::lowered(path::file_name(path)->0);
        law_the_first_language_with_a_file_name_counts(languages, low);
        law_the_longest_suffix_counts(languages, low);
        if path::extension(path) is Some {
            law_the_first_language_with_an_extension_counts(
                languages,
                text::lowered(path::extension(path)->0),
            );
        }
        let by_name = first_claim(filename_claims(languages), low);
        if by_name is Some {
            let l = choose|l: int|
                0 <= l < languages.len() && (#[trigger] languages[l]).id == by_name->0
                    && lists_filename(low)(languages[l]) && forall|k: int|
                    0 <= k < l ==> !lists_filename(low)(#[trigger] languages[k]);
            assert(one_is(languages[l].filenames@, low));
        } else {
            assert forall|l: int| 0 <= l < languages.len() implies !one_is(
                (#[trigger] languages[l]).filenames@,
                low,
            ) by {
                assert(!lists_filename(low)(languages[l]));
            }
        }
    }
}

/// A language answers to a name: its key or its name, in any case.
pub open spec fn answers_to(needle: Seq<char>) -> spec_fn(LanguageDef) -> bool {
    |l: LanguageDef|
        text::lowered(l.key@) == text::lowered(needle) || text::lowered(l.name@) == text::lowered(
            needle,
        )
}

/// A language is asked for by its key or its name, in any case; where none
/// answers to that, by an extension.
pub proof fn law_languages_are_found_by_key_name_or_extension(
    languages: Seq<LanguageDef>,
    needle: Seq<char>,
)
    ensures
        ({
            let known = exists|l: int|
                0 <= l < languages.len() && (text::lowered((#[trigger] languages[l]).key@)
                    == text::lowered(needle) || text::lowered(languages[l].name@) == text::lowered(
                    needle,
                ));
            let r = resolved(languages, needle);
            &&& known ==> r is Some && is_first_where(languages, answers_to(needle), r)
            &&& !known ==> is_first_where(languages, lists_extension(text::lowered(needle)), r)
        }),
{
    let wanted = called(needle);
    let r = first_language(languages, wanted);
    lemma_first_language_is_first(languages, wanted);
    law_the_first_language_with_an_extension_counts(languages, text::lowered(needle));
    if r is Some {
        let l = choose|l: int|
            0 <= l < languages.len() && (#[trigger] languages[l]).id == r->0 && wanted(languages[l])
                && forall|k: int| 0 <= k < l ==> !wanted(#[trigger] languages[k]);
        assert forall|k: int| 0 <= k < l implies !answers_to(needle)(#[trigger] languages[k]) by {
            assert(!wanted(languages[k]));
        }
        assert(answers_to(needle)(languages[l]));
    } else {
        assert forall|l: int| 0 <= l < languages.len() implies text::lowered(
            (#[trigger] languages[l]).key@,
        ) != text::lowered(needle) && text::lowered(languages[l].name@) != text::lowered(
            needle,
        ) by {
            assert(!wanted(languages[l]));
        }
    }
}

/// The stem of a word is the run of ASCII letters that it starts with.
pub proof fn law_a_stem_is_the_letters_in_front(s: Seq<char>)
    ensures
        ({
            let n = stem(s).len() as int;
            &&& n <= s.len()
            &&& stem(s) == s.take(n)
            &&& forall|i: int|
                0 <= i < n ==> 'a' <= #[trigger] s[i] <= 'z' || 'A' <= s[i] <= 'Z'
            &&& n < s.len() ==> !('a' <= s[n] <= 'z') && !('A' <= s[n] <= 'Z')
        }),
    decreases s.len(),
{
    if s.len() == 0 || !is_letter(s[0]) {
        assert(s.take(0) =~= Seq::empty());
    } else {
        let rest = s.skip(1);
        law_a_stem_is_the_letters_in_front(rest);
        let n = stem(s).len() as int;
        assert(stem(s) =~= s.take(n));
        assert forall|i: int| 0 <= i < n implies 'a' <= #[trigger] s[i] <= 'z' || 'A' <= s[i]
            <= 'Z' by {
            if i > 0 {
                assert(rest[i - 1] == s[i]);
            }
        }
        if n < s.len() {
            assert(rest[n - 1] == s[n]);
        }
    }
}

/// A first line names an interpreter if its first word starts with `#!`: the
/// word behind `env` where the first word ends with `/env`, and else what
/// follows the last slash of the first word.
pub proof fn law_a_shebang_names_its_interpreter(line: Seq<char>)
    ensures
        ({
            let words = text::words(line);
            let first = words[0];
            let marked = words.len() > 0 && first.len() >= 2 && first[0] == '#' && first[1] == '!';
            let n = first.len();
            let by_env = n >= 4 && first[n - 4] == '/' && first[n - 3] == 'e' && first[n - 2] == 'n'
                && first[n - 1] == 'v';
            &&& !marked ==> interpreter(line) is None
            &&& marked && by_env && words.len() > 1 ==> interpreter(line) == Some(words[1])
            &&& marked && by_env && words.len() == 1 ==> interpreter(line) is None
            &&& marked && !by_env ==> interpreter(line) is Some && {
                let word = interpreter(line)->0;
                let at = n - word.len();
                &&& 0 <= at
                &&& word == first.skip(at)
                &&& forall|i: int| 0 <= i < word.len() ==> #[trigger] word[i] != '/'
                &&& at == 0 || first[at - 1] == '/'
            }
        }),
{
    reveal_strlit("#!");
    reveal_strlit("/env");
    let words = text::words(line);
    if words.len() > 0 {
        let first = words[0];
        let n = first.len() as int;
        text::law_the_last_piece_follows_the_last_separator(first, '/');
        if n >= 2 && first[0] == '#' && first[1] == '!' {
            assert(first.subrange(0, 2) =~= "#!"@);
        }
        if "#!"@.is_prefix_of(first) {
            assert(first.subrange(0, 2)[0] == first[0]);
            assert(first.subrange(0, 2)[1] == first[1]);
        }
        if n >= 4 {
            let end = first.subrange(n - 4, n);
            assert(end[0] == first[n - 4] && end[1] == first[n - 3] && end[2] == first[n - 2]
                && end[3] == first[n - 1]);
            if first[n - 4] == '/' && first[n - 3] == 'e' && first[n - 2] == 'n' && first[n - 1]
                == 'v' {
                assert(end =~= "/env"@);
            }
        }
    }
}

/// The interpreter's stem, without its version, tells the language: the first
/// whose key or one of whose extensions it is, in any case.
pub proof fn law_the_interpreter_tells_the_language(languages: Seq<LanguageDef>, line: Seq<char>)
    ensures
        interpreter(line) is None ==> shebang_language(languages, line) is None,
        interpreter(line) matches Some(word) ==> {
            let low = text::lowered(stem(word));
            match shebang_language(languages, line) {
                Some(id) => exists|l: int|
                    0 <= l < languages.len() && (#[trigger] languages[l]).id == id && is_run_as(
                        languages[l],
                        low,
                    ) && forall|k: int|
                        0 <= k < l ==> !is_run_as(#[trigger] languages[k], low),
                None => forall|k: int|
                    0 <= k < languages.len() ==> !is_run_as(#[trigger] languages[k], low),
            }
        },
{
    if interpreter(line) is Some {
        let word = stem(interpreter(line)->0);
        let low = text::lowered(word);
        let wanted = run_by(word);
        lemma_first_language_is_first(languages, wanted);
        assert forall|k: int| 0 <= k < languages.len() implies wanted(#[trigger] languages[k])
            == is_run_as(languages[k], low) by {
            let l = languages[k];
            if is_run_as(l, low) && text::lowered(l.key@) != low {
                let i = choose|i: int|
                    0 <= i < l.extensions@.len() && text::lowered((#[trigger] l.extensions@[i])@)
                        == low;
                assert(text::lowered(l.extensions@[i]@) == text::lowered(word));
            }
        }
    }
}

/// A language has a name, in lower case, as its key or as an extension.
pub open spec fn is_run_as(l: LanguageDef, low: Seq<char>) -> bool {
    text::lowered(l.key@) == low || exists|i: int|
        0 <= i < l.extensions@.len() && text::lowered((#[trigger] l.extensions@[i])@) == low
}

/// A path is a test path exactly if one of the global globs matches it, or one
/// of those of its own language.
pub proof fn law_test_paths_are_those_that_match(
    registry: Registry,
    path: Seq<char>,
    language: Option<LanguageId>,
)
    ensures
        registry.is_test_path(path, language) <==> {
            ||| exists|i: int|
                0 <= i < registry.global_globs().len() && globs::glob_matches(
                    #[trigger] registry.global_globs()[i],
                    path,
                )
            ||| language is Some && exists|i: int|
                0 <= i < globs::set_globs(
                    registry.langs()[(language->0).0 as int].test_paths,
                ).len() && globs::glob_matches(
                    #[trigger] globs::set_globs(
                        registry.langs()[(language->0).0 as int].test_paths,
                    )[i],
                    path,
                )
        },
{
}

/// A language that a family lists has the name of that family; one that none
/// lists, and what is not known, belongs to the others.
pub proof fn law_families_name_their_languages(registry: Registry, l: int, f: int)
    requires
        registry.wf(),
        0 <= l < registry.langs().len(),
    ensures
        0 <= f < registry.fams().len() && registry.fams()[f].languages@.contains(
            LanguageId(l as u16),
        ) ==> registry.family_name_of(Some(LanguageId(l as u16))) == registry.fams()[f].name@,
        (forall|g: int|
            0 <= g < registry.fams().len() ==> !(
            #[trigger] registry.fams()[g]).languages@.contains(LanguageId(l as u16)))
            ==> registry.family_name_of(Some(LanguageId(l as u16))) == "Other"@,
        registry.family_name_of(None) == "Other"@,
{
    let language = registry.langs()[l];
    if 0 <= f < registry.fams().len() {
        law_stamps_match_members(registry, l, f);
    }
    if language.family is Some {
        let g = (language.family->0).0 as int;
        assert(g < registry.fams().len());
        law_stamps_match_members(registry, l, g);
        assert(registry.fams()[g].languages@.contains(LanguageId(l as u16)));
    }
}

// ---------------------------------------------------------------------------
// Laws of definitions
// ---------------------------------------------------------------------------

/// A backslash stands for the character behind it, and every other character
/// for itself. At the end of a text a backslash stands for nothing.
pub proof fn law_a_backslash_stands_for_what_follows(c: char, rest: Seq<char>)
    ensures
        unescaped(Seq::empty()).len() == 0,
        unescaped(seq!['\\']).len() == 0,
        c != '\\' ==> unescaped(seq![c] + rest) == seq![c] + unescaped(rest),
        unescaped(seq!['\\', c] + rest) == seq![c] + unescaped(rest),
{
    assert((seq![c] + rest).skip(1) =~= rest);
    assert((seq!['\\', c] + rest).skip(2) =~= rest);
}

/// A list of texts gives its texts, unescaped and in their order; what is no
/// text is passed over. Anything but a list gives none.
pub proof fn law_lists_give_their_texts(items: Seq<Tree>, item: Tree)
    ensures
        texts(Some(Tree::List(items.push(item)))) == match item {
            Tree::Text(s) => texts(Some(Tree::List(items))).push(unescaped(s)),
            _ => texts(Some(Tree::List(items))),
        },
        texts(Some(Tree::List(Seq::empty()))).len() == 0,
        !(item is List) ==> texts(Some(item)).len() == 0,
        texts(None).len() == 0,
{
    assert(items.push(item).drop_last() =~= items);
}

/// A list of pairs gives its pairs, unescaped and in their order: the first two
/// items of each list that starts with two texts. All else is passed over.
pub proof fn law_lists_give_their_pairs(items: Seq<Tree>, item: Tree)
    ensures
        ({
            let is_pair = item is List && (item->List_0).len() >= 2 && (item->List_0)[0] is Text && (
            item->List_0)[1] is Text;
            let before = text_pairs(Some(Tree::List(items)));
            text_pairs(Some(Tree::List(items.push(item)))) == if is_pair {
                before.push(
                    (
                        unescaped((item->List_0)[0]->Text_0),
                        unescaped((item->List_0)[1]->Text_0),
                    ),
                )
            } else {
                before
            }
        }),
        text_pairs(Some(Tree::List(Seq::empty()))).len() == 0,
        !(item is List) ==> text_pairs(Some(item)).len() == 0,
        text_pairs(None).len() == 0,
{
    assert(items.push(item).drop_last() =~= items);
}

/// Every pair of delimiters that a definition gives is used, and no other is.
pub proof fn law_every_pair_is_used(tree: Option<Tree>)
    ensures
        longest_pairs(tree).to_multiset() == text_pairs(tree).to_multiset(),
        longest_pairs(tree).len() == text_pairs(tree).len(),
{
    order::law_sort_keeps_everything(text_pairs(tree), opener_rank());
}

/// What a definition leaves out has a default: the key is the name, flags are
/// off, and test blocks are told by braces.
pub proof fn law_definitions_have_defaults(tree: Tree, key: Seq<char>)
    ensures
        !(tree.get("name"@) is Some && tree.get("name"@)->0 is Text) ==> name_in(tree, key) == key,
        tree.get("name"@) is Some && tree.get("name"@)->0 is Text ==> name_in(tree, key)
            == tree.get("name"@)->0->Text_0,
        flag_in(tree, key) <==> tree.get(key) == Some(Tree::Bool(true)),
        style_in(tree) is Indent <==> tree.get("test_block_style"@) == Some(
            Tree::Text("indent"@),
        ),
{
}

/// The syntax of a language is what its definition says, as bytes: block
/// comments are those that do not nest and then those that do.
pub proof fn law_a_definition_gives_the_syntax(
    language: LanguageDef,
    id: int,
    key: Seq<char>,
    tree: Tree,
)
    requires
        language.defined_by(id, key, tree),
    ensures
        ({
            let s = language.syntax();
            &&& s.any_multi_line_comments == s.multi_line_comments + s.nested_comments
            &&& forall|i: int|
                0 <= i < s.multi_line_comments.len() ==> (#[trigger] s.multi_line_comments[i])
                    == pair_bytes(longest_pairs(tree.get("multi_line_comments"@))[i])
            &&& forall|i: int|
                0 <= i < s.nested_comments.len() ==> (#[trigger] s.nested_comments[i])
                    == pair_bytes(longest_pairs(tree.get("nested_comments"@))[i])
            &&& forall|i: int|
                0 <= i < s.quotes.len() ==> (#[trigger] s.quotes[i]) == pair_bytes(
                    longest_pairs(tree.get("quotes"@))[i],
                )
            &&& forall|i: int|
                0 <= i < s.verbatim_quotes.len() ==> (#[trigger] s.verbatim_quotes[i])
                    == pair_bytes(longest_pairs(tree.get("verbatim_quotes"@))[i])
            &&& forall|i: int|
                0 <= i < s.doc_quotes.len() ==> (#[trigger] s.doc_quotes[i]) == pair_bytes(
                    longest_pairs(tree.get("doc_quotes"@))[i],
                )
            &&& forall|i: int|
                0 <= i < s.test_blocks.len() ==> (#[trigger] s.test_blocks[i])
                    == vstd::utf8::encode_utf8(texts(tree.get("test_blocks"@))[i])
            &&& s.multi_line_comments.len() == longest_pairs(
                tree.get("multi_line_comments"@),
            ).len()
            &&& s.nested_comments.len() == longest_pairs(tree.get("nested_comments"@)).len()
            &&& s.quotes.len() == longest_pairs(tree.get("quotes"@)).len()
            &&& s.verbatim_quotes.len() == longest_pairs(tree.get("verbatim_quotes"@)).len()
            &&& s.doc_quotes.len() == longest_pairs(tree.get("doc_quotes"@)).len()
            &&& s.test_blocks.len() == texts(tree.get("test_blocks"@)).len()
            &&& s.nested <==> tree.get("nested"@) == Some(Tree::Bool(true))
            &&& s.literate <==> tree.get("literate"@) == Some(Tree::Bool(true))
            &&& s.is_fortran <==> key == "FortranModern"@ || key == "FortranLegacy"@
        }),
{
    let s = language.syntax();
    let a = text::pair_views(language.multi_line_comments@);
    let b = text::pair_views(language.nested_comments@);
    let c = text::pair_views(language.any_multi_line_comments@);
    assert(c.len() == language.any_multi_line_comments@.len());
    assert(a.len() == language.multi_line_comments@.len());
    assert(b.len() == language.nested_comments@.len());
    assert forall|i: int| 0 <= i < c.len() implies s.any_multi_line_comments[i] == (
    s.multi_line_comments + s.nested_comments)[i] by {
        assert(c[i] == (a + b)[i]);
        assert(s.any_multi_line_comments[i] == pair_bytes(c[i]));
        if i < a.len() {
            assert(s.multi_line_comments[i] == pair_bytes(a[i]));
        } else {
            assert(s.nested_comments[i - a.len()] == pair_bytes(b[i - a.len()]));
        }
    }
    assert(s.any_multi_line_comments =~= s.multi_line_comments + s.nested_comments);
    lemma_pair_bytes(language.multi_line_comments@);
    lemma_pair_bytes(language.nested_comments@);
    lemma_pair_bytes(language.quotes@);
    lemma_pair_bytes(language.verbatim_quotes@);
    lemma_pair_bytes(language.doc_quotes@);
    let blocks = text::views(language.test_blocks@);
    assert(blocks.len() == language.test_blocks@.len());
    assert forall|i: int| 0 <= i < s.test_blocks.len() implies (#[trigger] s.test_blocks[i])
        == vstd::utf8::encode_utf8(texts(tree.get("test_blocks"@))[i]) by {
        assert(blocks[i] == language.test_blocks@[i]@);
    }
}

/// The UTF-8 bytes of both texts of a pair.
pub open spec fn pair_bytes(pair: (Seq<char>, Seq<char>)) -> (Seq<u8>, Seq<u8>) {
    (vstd::utf8::encode_utf8(pair.0), vstd::utf8::encode_utf8(pair.1))
}

proof fn lemma_pair_bytes(pairs: Seq<(String, String)>)
    ensures
        text::byte_pairs(pairs).len() == text::pair_views(pairs).len(),
        forall|i: int|
            0 <= i < pairs.len() ==> (#[trigger] text::byte_pairs(pairs)[i]) == pair_bytes(
                text::pair_views(pairs)[i],
            ),
{
}

/// The names by which a language is found are those of its definition, in their
/// order; so are the globs of its test paths. Its line comments are all used.
pub proof fn law_a_definition_gives_the_names(
    language: LanguageDef,
    id: int,
    key: Seq<char>,
    tree: Tree,
)
    requires
        language.defined_by(id, key, tree),
    ensures
        language.key@ == key,
        language.id.0 == id,
        text::views(language.extensions@) == texts(tree.get("extensions"@)),
        text::views(language.filenames@) == texts(tree.get("filenames"@)),
        text::views(language.path_suffixes@) == texts(tree.get("path_suffixes"@)),
        globs::set_globs(language.test_paths) == texts(tree.get("test_paths"@)),
        text::views(language.line_comments@).to_multiset() == texts(
            tree.get("line_comment"@),
        ).to_multiset(),
        tree.get("name"@) is None ==> language.name@ == key,
{
    order::law_sort_keeps_everything(texts(tree.get("line_comment"@)), length_rank());
}

/// Of line comments the longest is tried first.
pub proof fn law_the_longest_line_comment_is_tried_first(
    language: LanguageDef,
    id: int,
    key: Seq<char>,
    tree: Tree,
    i: int,
    j: int,
)
    requires
        language.defined_by(id, key, tree),
        0 <= i < j < language.line_comments@.len(),
    ensures
        vstd::utf8::encode_utf8(language.line_comments@[i]@).len() >= vstd::utf8::encode_utf8(
            language.line_comments@[j]@,
        ).len(),
{
    let given = texts(tree.get("line_comment"@));
    let rank = length_rank();
    let sorted = text::views(language.line_comments@);
    order::law_sort_orders(given, rank);
    assert(sorted.len() == language.line_comments@.len());
    assert(sorted[i] == language.line_comments@[i]@);
    assert(sorted[j] == language.line_comments@[j]@);
    assert(!order::before(rank(sorted[j]), rank(sorted[i])));
    assert(rank(sorted[i])[0] == -(text::bytes_of(sorted[i]).len() as int));
    assert(rank(sorted[j])[0] == -(text::bytes_of(sorted[j]).len() as int));
}

/// Of equal texts that follow each other one stays, and nothing else goes.
pub proof fn law_repeated_texts_stay_once(s: Seq<Seq<char>>, x: Seq<char>)
    ensures
        deduped(Seq::empty()).len() == 0,
        deduped(seq![x]) == seq![x],
        s.len() > 0 && s[s.len() - 1] == x ==> deduped(s.push(x)) == deduped(s),
        s.len() > 0 && s[s.len() - 1] != x ==> deduped(s.push(x)) == deduped(s).push(x),
{
    let one = seq![x];
    assert(one.drop_last() =~= Seq::empty());
    assert(deduped(Seq::<Seq<char>>::empty()).push(x) =~= one);
    let all = s.push(x);
    assert(all.drop_last() =~= s);
    if s.len() > 0 {
        assert(all[all.len() - 2] == s[s.len() - 1]);
    }
}

/// The languages of an overlay are merged into those of the base, where it has
/// any; otherwise those of the base stay.
pub proof fn law_an_overlay_adds_to_the_languages(base: Tree, extra: Tree)
    ensures
        ({
            let own = base.get("languages"@);
            let over = extra.get("languages"@);
            let none = Tree::Table(Seq::empty());
            let r = merged_languages(base, extra);
            &&& over is None && own is Some ==> r == own->0
            &&& over is None && own is None ==> r == none
            &&& over is Some && own is Some ==> r == json::merged(own->0, over->0)
            &&& over is Some && own is None ==> r == json::merged(none, over->0)
        }),
        extra.get("global"@) is None ==> global_texts(extra).len() == 0,
        extra.get("global"@) matches Some(global) ==> global_texts(extra) == texts(
            global.get("test_paths"@),
        ),
{
}

/// A family claims the languages that it lists, in turn. What families claim is
/// accepted exactly if each key is that of a language and none comes up twice.
pub proof fn law_claims_are_known_and_claimed_once(
    keys: Seq<Seq<char>>,
    claimed: Seq<(int, Seq<char>)>,
    claim: (int, Seq<char>),
)
    ensures
        claims_ok(keys, claimed.push(claim), claimed.len() as int + 1) <==> claims_ok(
            keys,
            claimed,
            claimed.len() as int,
        ) && (exists|i: int| 0 <= i < keys.len() && #[trigger] keys[i] == claim.1) && forall|
            m: int,
        |
            0 <= m < claimed.len() ==> (#[trigger] claimed[m]).1 != claim.1,
        claims_ok(keys, Seq::empty(), 0),
{
    let all = claimed.push(claim);
    let n = claimed.len() as int;
    assert forall|k: int| 0 <= k < n implies (#[trigger] claim_ok(keys, all, k) <==> claim_ok(
        keys,
        claimed,
        k,
    )) by {
        assert(all[k] == claimed[k]);
        if claim_ok(keys, all, k) {
            assert forall|m: int| 0 <= m < k implies (#[trigger] claimed[m]).1
                != claimed[k].1 by {
                assert(all[m] == claimed[m]);
            }
        }
        if claim_ok(keys, claimed, k) {
            assert forall|m: int| 0 <= m < k implies (#[trigger] all[m]).1 != all[k].1 by {
                assert(all[m] == claimed[m]);
            }
        }
    }
    assert(all[n] == claim);
    if claims_ok(keys, all, n + 1) {
        assert(claim_ok(keys, all, n));
        assert forall|m: int| 0 <= m < n implies (#[trigger] claimed[m]).1 != claim.1 by {
            assert(all[m].1 != all[n].1);
        }
        assert forall|k: int| 0 <= k < n implies #[trigger] claim_ok(keys, claimed, k) by {
            assert(claim_ok(keys, all, k));
        }
        let i = choose|i: int| 0 <= i < keys.len() && keys[i] == claim.1;
        assert(keys[i] == claim.1);
    }
    if claims_ok(keys, claimed, n) && (exists|i: int|
        0 <= i < keys.len() && #[trigger] keys[i] == claim.1) && forall|m: int|
        0 <= m < n ==> (#[trigger] claimed[m]).1 != claim.1 {
        assert forall|k: int| 0 <= k < n + 1 implies #[trigger] claim_ok(keys, all, k) by {
            if k < n {
                assert(claim_ok(keys, claimed, k));
            } else {
                assert forall|m: int| 0 <= m < n implies (#[trigger] all[m]).1 != claim.1 by {
                    assert(claimed[m].1 != claim.1);
                }
            }
        }
    }
}

/// Each family claims what it lists, and nothing for another.
pub proof fn law_families_claim_what_they_list(
    families: Seq<(Seq<char>, Tree)>,
    family: (Seq<char>, Tree),
    j: int,
)
    ensures
        ({
            let before = claims(families);
            let after = claims(families.push(family));
            let listed = texts(family.1.get("languages"@));
            &&& before.is_prefix_of(after)
            &&& after.len() == before.len() + listed.len()
            &&& 0 <= j < listed.len() ==> after[before.len() + j] == (
                families.len() as int,
                listed[j],
            )
        }),
        claims(Seq::empty()).len() == 0,
{
    assert(families.push(family).drop_last() =~= families);
    let before = claims(families);
    let after = claims(families.push(family));
    assert(after.subrange(0, before.len() as int) =~= before);
}

/// Path suffixes are claimed in turn: those of the first language first, each in
/// the order in which it lists them.
pub proof fn law_suffixes_are_claimed_in_turn(
    languages: Seq<LanguageDef>,
    language: LanguageDef,
    k: int,
)
    ensures
        ({
            let before = suffix_claims(languages);
            let after = suffix_claims(languages.push(language));
            let own = language.path_suffixes@;
            &&& before.is_prefix_of(after)
            &&& after.len() == before.len() + own.len()
            &&& 0 <= k < own.len() ==> after[before.len() + k] == (own[k]@, language.id)
        }),
        suffix_claims(Seq::empty()).len() == 0,
{
    assert(languages.push(language).drop_last() =~= languages);
    let before = suffix_claims(languages);
    let after = suffix_claims(languages.push(language));
    assert(after.subrange(0, before.len() as int) =~= before);
}

/// Suffixes of the same length are tried in the order in which they are claimed.
pub proof fn law_suffixes_of_a_length_keep_their_order(
    claims: Seq<(Seq<char>, LanguageId)>,
    n: int,
)
    ensures
        order::of_rank(order::sorted_by(claims, suffix_rank()), suffix_rank(), seq![-n])
            == order::of_rank(claims, suffix_rank(), seq![-n]),
        forall|c: (Seq<char>, LanguageId)| #[trigger]
            suffix_rank()(c) == seq![-n] <==> vstd::utf8::encode_utf8(c.0).len() == n,
{
    order::law_sort_is_stable(claims, suffix_rank(), seq![-n]);
    assert forall|c: (Seq<char>, LanguageId)| #[trigger]
        suffix_rank()(c) == seq![-n] <==> vstd::utf8::encode_utf8(c.0).len() == n by {
        assert(suffix_rank()(c)[0] == -(text::bytes_of(c.0).len() as int));
        assert(seq![-n][0] == -n);
        if vstd::utf8::encode_utf8(c.0).len() == n {
            assert(suffix_rank()(c) =~= seq![-n]);
        }
    }
}

/// An error about families names the family and the language, each as a literal;
/// where a language is in two families, the one that has it comes first.
pub proof fn law_errors_name_what_is_wrong(family: String, key: String, other: String)
    ensures
        error_text(RegistryError::UnknownLanguage { family, key }) == "family "@ + text::quoted(
            family@,
        ) + " names unknown language "@ + text::quoted(key@),
        error_text(RegistryError::TwoFamilies { key, first: family, second: other })
            == "language "@ + text::quoted(key@) + " is in two families: Some("@ + text::quoted(
            family@,
        ) + ") and "@ + text::quoted(other@),
        error_text(RegistryError::NotATable) == "`languages` is not an object"@,
        error_text(RegistryError::Json(key)) == key@,
{
}

} // verus!
