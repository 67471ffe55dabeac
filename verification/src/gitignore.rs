//! The rules of one ignore file.

use ignore::gitignore::{Gitignore, GitignoreBuilder};
use ignore::Match;

use vstd::prelude::*;

use crate::path;
use crate::text;

verus! {

/// The rules of an ignore file.
#[verifier::external_type_specification]
#[verifier::external_body]
pub struct ExGitignore(Gitignore);

/// The rules of an ignore file in the making.
#[verifier::external_type_specification]
#[verifier::external_body]
pub struct ExGitignoreBuilder(GitignoreBuilder);

/// What one ignore file says of a path.
#[derive(Debug, Clone, Copy, PartialEq, Eq, Structural)]
pub enum Verdict {
    /// No line matches.
    Silent,
    /// The last line that matches hides the path.
    Hide,
    /// The last line that matches is negated, and keeps the path.
    Keep,
}

/// The message with which `GitignoreBuilder::add_line` refuses a line, if it
/// does.
pub uninterp spec fn line_complaint(line: Seq<char>) -> Option<Seq<char>>;

/// The message with which `GitignoreBuilder::build` refuses these lines
/// together, if it does.
pub uninterp spec fn build_complaint(lines: Seq<Seq<char>>) -> Option<Seq<char>>;

/// What rules made of these lines say of the file at a path, as
/// `Gitignore::matched_path_or_any_parents` decides it.
pub uninterp spec fn verdict(lines: Seq<Seq<char>>, path: Seq<char>) -> Verdict;

/// The lines added to a builder so far.
pub uninterp spec fn builder_lines(builder: GitignoreBuilder) -> Seq<Seq<char>>;

/// The lines that rules were made of.
pub uninterp spec fn rule_lines(rules: Gitignore) -> Seq<Seq<char>>;

/// `GitignoreBuilder::new` with an empty root: a builder without lines.
#[verifier::external_body]
fn new_builder() -> (r: GitignoreBuilder)
    ensures
        builder_lines(r) == Seq::<Seq<char>>::empty(),
{
    GitignoreBuilder::new("")
}

/// `GitignoreBuilder::add_line`, for a builder made by [`new_builder`]: adds a
/// line behind the others, or refuses it by its text alone and changes nothing.
#[verifier::external_body]
fn add_line(builder: &mut GitignoreBuilder, line: &str) -> (r: Result<(), String>)
    ensures
        r is Ok <==> line_complaint(line@) is None,
        r is Ok ==> builder_lines(*final(builder)) == builder_lines(*old(builder)).push(line@),
        r is Err ==> builder_lines(*final(builder)) == builder_lines(*old(builder)),
        r matches Err(complaint) ==> line_complaint(line@) == Some(complaint@),
{
    match builder.add_line(None, line) {
        Ok(_) => Ok(()),
        Err(error) => Err(error.to_string()),
    }
}

/// `GitignoreBuilder::build`: rules made of exactly the lines that were added.
#[verifier::external_body]
fn build_rules(builder: &GitignoreBuilder) -> (r: Result<Gitignore, String>)
    ensures
        r is Ok <==> build_complaint(builder_lines(*builder)) is None,
        r matches Ok(rules) ==> rule_lines(rules) == builder_lines(*builder),
        r matches Err(complaint) ==> build_complaint(builder_lines(*builder)) == Some(complaint@),
{
    builder.build().map_err(|error| error.to_string())
}

/// `Gitignore::matched_path_or_any_parents` for a file: what the last line that
/// matches the path says; where none does, what is said of the directories
/// above it, the nearest first. One leading slash is dropped, and a path that
/// still starts with one is not accepted.
#[verifier::external_body]
pub(crate) fn verdict_on(rules: &Gitignore, path: &str) -> (r: Verdict)
    requires
        path::slashes_apart(path@),
    ensures
        r == verdict(rule_lines(*rules), path@),
{
    match rules.matched_path_or_any_parents(path, false) {
        Match::None => Verdict::Silent,
        Match::Ignore(_) => Verdict::Hide,
        Match::Whitelist(_) => Verdict::Keep,
    }
}

/// One line of a text that ends with a line feed, without that and without a
/// carriage return before it.
pub open spec fn bare(line: Seq<char>) -> Seq<char> {
    if line.len() > 0 && line.last() == '\r' {
        line.drop_last()
    } else {
        line
    }
}

/// The lines of a text. What stands behind the last line feed is a line too,
/// unless it is empty, and keeps its carriage return.
pub open spec fn lines(s: Seq<char>) -> Seq<Seq<char>> {
    let pieces = text::split(s, '\n');
    let ended = pieces.drop_last().map_values(|line: Seq<char>| bare(line));
    if pieces.last().len() == 0 {
        ended
    } else {
        ended.push(pieces.last())
    }
}

/// The lines of a text.
pub fn lines_of(s: &str) -> (r: Vec<String>)
    ensures
        text::views(r@) == lines(s@),
{
    let pieces = text::split_at_each(s, '\n');
    let ghost all = text::split(s@, '\n');
    proof {
        text::lemma_split_nonempty(s@, '\n');
    }
    let ghost ended = all.drop_last().map_values(|line: Seq<char>| bare(line));
    let n = pieces.len();
    let mut out: Vec<String> = Vec::new();
    let mut i: usize = 0;
    assert(text::views(out@) =~= ended.take(0));
    while i < n - 1
        invariant
            n == pieces.len(),
            n > 0,
            i <= n - 1,
            all == text::views(pieces@),
            ended == all.drop_last().map_values(|line: Seq<char>| bare(line)),
            text::views(out@) == ended.take(i as int),
        decreases n - i,
    {
        let ghost done = text::views(out@);
        let piece = &pieces[i];
        assert(ended[i as int] == bare(piece@));
        let len = piece.as_str().unicode_len();
        let line = if len > 0 && piece.as_str().get_char(len - 1) == '\r' {
            text::slice(piece.as_str(), 0, len - 1)
        } else {
            piece.clone()
        };
        assert(line@ =~= bare(piece@));
        out.push(line);
        assert(text::views(out@) =~= done.push(line@));
        assert(ended.take(i + 1) =~= ended.take(i as int).push(ended[i as int]));
        i = i + 1;
    }
    assert(ended.take(i as int) =~= ended);
    let last = &pieces[n - 1];
    assert(all.last() == last@);
    if last.as_str().unicode_len() > 0 {
        let ghost done = text::views(out@);
        out.push(last.clone());
        assert(text::views(out@) =~= done.push(last@));
    }
    out
}

/// Why the text of an ignore file was refused.
#[derive(Debug)]
pub enum RulesFault {
    /// A line is not a pattern; with what is wrong with it.
    Line(String),
    /// The lines are patterns, but cannot be made into rules.
    Union(String),
}

/// Every line is accepted.
pub open spec fn all_valid(lines: Seq<Seq<char>>) -> bool {
    forall|i: int| 0 <= i < lines.len() ==> line_complaint(#[trigger] lines[i]) is None
}

/// `complaint` is about the first line that is not accepted.
pub open spec fn first_complaint(lines: Seq<Seq<char>>, complaint: Seq<char>) -> bool {
    exists|i: int|
        #![trigger lines[i]]
        0 <= i < lines.len() && all_valid(lines.take(i)) && line_complaint(lines[i]) == Some(
            complaint,
        )
}

/// The fault is what these lines deserve.
pub open spec fn is_fault(fault: RulesFault, lines: Seq<Seq<char>>) -> bool {
    match fault {
        RulesFault::Line(complaint) => first_complaint(lines, complaint@),
        RulesFault::Union(complaint) => all_valid(lines) && build_complaint(lines) == Some(
            complaint@,
        ),
    }
}

/// These lines make rules.
pub open spec fn accepted(lines: Seq<Seq<char>>) -> bool {
    all_valid(lines) && build_complaint(lines) is None
}

/// Makes rules out of the text of an ignore file.
pub fn compile(source: &str) -> (r: Result<Gitignore, RulesFault>)
    ensures
        r is Ok <==> accepted(lines(source@)),
        r matches Ok(rules) ==> rule_lines(rules) == lines(source@),
        r matches Err(fault) ==> is_fault(fault, lines(source@)),
{
    let texts = lines_of(source);
    let ghost all = text::views(texts@);
    let mut builder = new_builder();
    let mut i: usize = 0;
    while i < texts.len()
        invariant
            i <= texts.len(),
            all == text::views(texts@),
            all == lines(source@),
            builder_lines(builder) == all.take(i as int),
            all_valid(all.take(i as int)),
        decreases texts.len() - i,
    {
        assert(all[i as int] == texts@[i as int]@);
        match add_line(&mut builder, texts[i].as_str()) {
            Ok(()) => {
                assert(all.take(i + 1) =~= all.take(i as int).push(all[i as int]));
            },
            Err(complaint) => {
                return Err(RulesFault::Line(complaint));
            },
        }
        i = i + 1;
    }
    assert(all.take(i as int) =~= all);
    match build_rules(&builder) {
        Ok(rules) => Ok(rules),
        Err(complaint) => Err(RulesFault::Union(complaint)),
    }
}

/// A line feed ends a line, which is what precedes it without one carriage
/// return at its end. What is left without a line feed is a line as it stands,
/// unless it is empty.
pub proof fn law_rules_stand_on_lines(body: Seq<char>, rest: Seq<char>)
    requires
        forall|i: int| 0 <= i < body.len() ==> #[trigger] body[i] != '\n',
    ensures
        lines(body.push('\n') + rest) == seq![
            if body.len() > 0 && body[body.len() - 1] == '\r' {
                body.take(body.len() - 1)
            } else {
                body
            },
        ] + lines(rest),
        body.len() > 0 ==> lines(body) == seq![body],
        lines(Seq::empty()).len() == 0,
{
    let f = |line: Seq<char>| bare(line);
    text::law_a_separator_parts_the_pieces(body, rest, '\n');
    text::law_a_separator_parts_the_pieces(Seq::empty(), rest, '\n');
    text::lemma_split_nonempty(rest, '\n');
    assert(!body.contains('\n'));
    let own = text::split(body, '\n');
    let others = text::split(rest, '\n');
    let all = own + others;
    assert(own == seq![body]);
    assert(own.drop_last().map_values(f) =~= Seq::empty());
    let line = if body.len() > 0 && body[body.len() - 1] == '\r' {
        body.take(body.len() - 1)
    } else {
        body
    };
    assert(body.len() > 0 ==> body.drop_last() =~= body.take(body.len() - 1));
    assert(bare(body) == line);
    assert(all.drop_last() =~= seq![body] + others.drop_last());
    assert(all.drop_last().map_values(f) =~= seq![line] + others.drop_last().map_values(f));
    assert(all.last() == others.last());
    assert(lines(body.push('\n') + rest) =~= seq![line] + lines(rest));
    if body.len() > 0 {
        assert(lines(body) =~= seq![body]);
    }
    let empty = Seq::<char>::empty();
    assert(text::split(empty, '\n') == seq![empty]);
    assert(seq![empty].drop_last().map_values(f) =~= Seq::empty());
}

} // verus!
