//! Hiding the files of a source that its own ignore files exclude.

use ignore::gitignore::Gitignore;

use vstd::prelude::*;

use crate::gitignore;
use crate::gitignore::{RulesFault, Verdict};
use crate::order;
use crate::path;
use crate::path::{Part, PartModel};
use crate::text;
use crate::vfs;
use crate::vfs::{Entry, EntryModel};

verus! {

/// Which files are hidden.
#[derive(Debug, Clone)]
pub struct IgnoreRules {
    /// The names of the ignore files to read from the source, in gitignore
    /// syntax.
    pub ignore_files: Vec<String>,
    /// Keep dotfiles and what is in dot-directories.
    pub include_hidden: bool,
    /// Hide `.git` and its like even where hidden files are kept.
    pub skip_vcs_dirs: bool,
}

/// The rules can hide nothing.
pub open spec fn noop(rules: IgnoreRules) -> bool {
    rules.ignore_files@.len() == 0 && rules.include_hidden && !rules.skip_vcs_dirs
}

impl Default for IgnoreRules {
    /// Reads every kind of ignore file, and hides dotfiles and the directories
    /// of version control.
    fn default() -> (r: IgnoreRules)
        ensures
            text::views(r.ignore_files@) == seq![".gitignore"@, ".ignore"@, ".slopcountignore"@],
            !r.include_hidden,
            r.skip_vcs_dirs,
    {
        let ignore_files = vec![
            ".gitignore".to_owned(),
            ".ignore".to_owned(),
            ".slopcountignore".to_owned(),
        ];
        assert(text::views(ignore_files@) =~= seq![
            ".gitignore"@,
            ".ignore"@,
            ".slopcountignore"@,
        ]);
        IgnoreRules { ignore_files, include_hidden: false, skip_vcs_dirs: true }
    }
}

impl IgnoreRules {
    /// Rules for a git tree. `.gitignore` is left out: a file that is tracked
    /// although it matches was committed on purpose.
    pub fn for_git_tree() -> (r: IgnoreRules)
        ensures
            text::views(r.ignore_files@) == seq![".ignore"@, ".slopcountignore"@],
            !r.include_hidden,
            r.skip_vcs_dirs,
    {
        let ignore_files = vec![".ignore".to_owned(), ".slopcountignore".to_owned()];
        assert(text::views(ignore_files@) =~= seq![".ignore"@, ".slopcountignore"@]);
        IgnoreRules { ignore_files, include_hidden: false, skip_vcs_dirs: true }
    }

    /// Rules that hide nothing.
    pub fn none() -> (r: IgnoreRules)
        ensures
            noop(r),
    {
        IgnoreRules { ignore_files: Vec::new(), include_hidden: true, skip_vcs_dirs: false }
    }

    /// Whether the rules can hide nothing.
    pub fn is_noop(&self) -> (r: bool)
        ensures
            r == noop(*self),
    {
        self.ignore_files.len() == 0 && self.include_hidden && !self.skip_vcs_dirs
    }
}

// ---------------------------------------------------------------------------
// Which ignore files there are
// ---------------------------------------------------------------------------

/// The file at a path is one of the ignore files that the rules name.
pub open spec fn is_ignore_file(rules: IgnoreRules, path: Seq<char>) -> bool {
    match path::file_name(path) {
        Some(name) => text::views(rules.ignore_files@).contains(name),
        None => false,
    }
}

/// The paths of the ignore files among some entries, in their order.
pub open spec fn ignore_paths(rules: IgnoreRules, entries: Seq<EntryModel>) -> Seq<Seq<char>>
    decreases entries.len(),
{
    if entries.len() == 0 {
        Seq::empty()
    } else {
        let rest = ignore_paths(rules, entries.drop_last());
        if is_ignore_file(rules, entries.last().path) {
            rest.push(entries.last().path)
        } else {
            rest
        }
    }
}

fn names_contain(names: &Vec<String>, name: &str) -> (r: bool)
    ensures
        r == text::views(names@).contains(name@),
{
    let mut i: usize = 0;
    while i < names.len()
        invariant
            i <= names.len(),
            forall|k: int| 0 <= k < i ==> #[trigger] text::views(names@)[k] != name@,
        decreases names.len() - i,
    {
        assert(text::views(names@)[i as int] == names@[i as int]@);
        if text::same(names[i].as_str(), name) {
            return true;
        }
        i = i + 1;
    }
    false
}

/// The paths of the ignore files among some entries: what has to be read
/// before anything can be hidden.
pub fn ignore_files_among(rules: &IgnoreRules, entries: &Vec<Entry>) -> (r: Vec<String>)
    ensures
        text::views(r@) == ignore_paths(*rules, vfs::entry_views(entries@)),
{
    let ghost all = vfs::entry_views(entries@);
    let mut out: Vec<String> = Vec::new();
    let mut i: usize = 0;
    assert(text::views(out@) =~= ignore_paths(*rules, all.take(0)));
    while i < entries.len()
        invariant
            i <= entries.len(),
            all == vfs::entry_views(entries@),
            text::views(out@) == ignore_paths(*rules, all.take(i as int)),
        decreases entries.len() - i,
    {
        let ghost done = text::views(out@);
        assert(all.take(i + 1).drop_last() =~= all.take(i as int));
        assert(all.take(i + 1).last() == entries@[i as int]@);
        if let Some(name) = path::file_name_of(entries[i].path.as_str()) {
            if names_contain(&rules.ignore_files, name.as_str()) {
                out.push(entries[i].path.clone());
                assert(text::views(out@) =~= done.push(entries@[i as int].path@));
            }
        }
        i = i + 1;
    }
    assert(all.take(i as int) =~= all);
    out
}

// ---------------------------------------------------------------------------
// What the ignore files say together
// ---------------------------------------------------------------------------

/// One ignore file: the directory it stands in, and its rules.
pub struct Matcher {
    directory: String,
    rules: Gitignore,
}

/// One ignore file: the directory it stands in, and its lines.
#[verifier::ext_equal]
pub struct MatcherModel {
    pub directory: Seq<char>,
    pub lines: Seq<Seq<char>>,
}

impl View for Matcher {
    type V = MatcherModel;

    closed spec fn view(&self) -> MatcherModel {
        MatcherModel { directory: self.directory@, lines: gitignore::rule_lines(self.rules) }
    }
}

/// What an ignore file at a path with this text is.
pub open spec fn matcher_of(path: Seq<char>, text: Seq<char>) -> MatcherModel {
    MatcherModel { directory: path::parent(path), lines: gitignore::lines(text) }
}

/// What ignore files at `paths` with these texts are.
pub open spec fn matchers_of(paths: Seq<Seq<char>>, texts: Seq<Seq<char>>) -> Seq<MatcherModel> {
    Seq::new(paths.len(), |i: int| matcher_of(paths[i], texts[i]))
}

/// What some ignore files are.
pub open spec fn matcher_views(matchers: Seq<Matcher>) -> Seq<MatcherModel> {
    matchers.map_values(|m: Matcher| m@)
}

/// The rank of an ignore file: how deep it stands, deepest first.
pub open spec fn depth_rank(matcher: MatcherModel) -> Seq<int> {
    seq![-path::parts(matcher.directory).len()]
}

/// The ignore files in the order in which they are asked: the deepest first,
/// and of those as deep as one another the one listed first.
pub open spec fn deepest_first(matchers: Seq<MatcherModel>) -> Seq<MatcherModel> {
    order::sorted_by(matchers, |m: MatcherModel| depth_rank(m))
}

/// What one ignore file says of a path. It has no say outside of its own
/// directory.
pub open spec fn opinion(matcher: MatcherModel, path: Seq<char>) -> Verdict {
    match path::below(path, matcher.directory) {
        Some(rest) => gitignore::verdict(matcher.lines, rest),
        None => Verdict::Silent,
    }
}

/// The first ignore file that is not silent hides the path.
pub open spec fn excluded(matchers: Seq<MatcherModel>, path: Seq<char>) -> bool
    decreases matchers.len(),
{
    if matchers.len() == 0 {
        false
    } else {
        match opinion(matchers[0], path) {
            Verdict::Hide => true,
            Verdict::Keep => false,
            Verdict::Silent => excluded(matchers.skip(1), path),
        }
    }
}

/// The name of a directory of version control.
pub open spec fn vcs_name(name: Seq<char>) -> bool {
    name == ".git"@ || name == ".hg"@ || name == ".svn"@ || name == ".jj"@
}

pub open spec fn vcs_part(part: PartModel) -> bool {
    match part {
        PartModel::Name(name) => vcs_name(name),
        _ => false,
    }
}

pub open spec fn hidden_part(part: PartModel) -> bool {
    match part {
        PartModel::Name(name) => name.len() > 0 && name[0] == '.',
        _ => false,
    }
}

/// A part of the path is a directory of version control.
pub open spec fn in_vcs_dir(path: Seq<char>) -> bool {
    exists|i: int| 0 <= i < path::parts(path).len() && vcs_part(#[trigger] path::parts(path)[i])
}

/// A part of the path is a name that starts with a dot.
pub open spec fn hidden(path: Seq<char>) -> bool {
    exists|i: int|
        0 <= i < path::parts(path).len() && hidden_part(#[trigger] path::parts(path)[i])
}

/// The file at a path is hidden.
pub open spec fn masked(
    rules: IgnoreRules,
    matchers: Seq<MatcherModel>,
    path: Seq<char>,
) -> bool {
    ||| rules.skip_vcs_dirs && in_vcs_dir(path)
    ||| !rules.include_hidden && hidden(path)
    ||| excluded(matchers, path)
}

/// The entries that are not hidden, in their order.
pub open spec fn shown(
    rules: IgnoreRules,
    matchers: Seq<MatcherModel>,
    entries: Seq<EntryModel>,
) -> Seq<EntryModel>
    decreases entries.len(),
{
    if entries.len() == 0 {
        Seq::empty()
    } else {
        let rest = shown(rules, matchers, entries.drop_last());
        if masked(rules, matchers, entries.last().path) {
            rest
        } else {
            rest.push(entries.last())
        }
    }
}

/// An ignore file that was refused.
#[derive(Debug)]
pub struct IgnoreFault {
    /// The path of the ignore file.
    pub path: String,
    /// What is wrong with it.
    pub fault: RulesFault,
}

/// What an [`IgnoreFault`] says: a bad line is reported with the path of its
/// file.
pub open spec fn fault_text(fault: IgnoreFault) -> Seq<char> {
    match fault.fault {
        RulesFault::Line(complaint) => "in "@ + fault.path@ + ": "@ + complaint@,
        RulesFault::Union(complaint) => complaint@,
    }
}

impl IgnoreFault {
    /// What is wrong, in words.
    pub fn message(&self) -> (r: String)
        ensures
            r@ == fault_text(*self),
    {
        match &self.fault {
            RulesFault::Line(complaint) => {
                let mut out = "in ".to_owned();
                out.append(self.path.as_str());
                out.append(": ");
                out.append(complaint.as_str());
                out
            },
            RulesFault::Union(complaint) => complaint.clone(),
        }
    }
}

impl Matcher {
    /// Makes rules of the text of the ignore file at a path.
    pub fn read(path: &str, text: &str) -> (r: Result<Matcher, IgnoreFault>)
        ensures
            r is Ok <==> gitignore::accepted(gitignore::lines(text@)),
            r matches Ok(matcher) ==> matcher@ == matcher_of(path@, text@),
            r matches Err(fault) ==> fault.path@ == path@ && gitignore::is_fault(
                fault.fault,
                gitignore::lines(text@),
            ),
    {
        match gitignore::compile(text) {
            Ok(rules) => Ok(Matcher { directory: path::parent_of(path), rules }),
            Err(fault) => Err(IgnoreFault { path: path.to_owned(), fault }),
        }
    }
}

/// Every text makes rules.
pub open spec fn all_accepted(texts: Seq<Seq<char>>) -> bool {
    forall|i: int|
        0 <= i < texts.len() ==> gitignore::accepted(gitignore::lines(#[trigger] texts[i]))
}

/// The fault is that of the first ignore file that is refused.
pub open spec fn is_first_fault(
    fault: IgnoreFault,
    paths: Seq<Seq<char>>,
    texts: Seq<Seq<char>>,
) -> bool {
    exists|i: int|
        #![trigger texts[i]]
        0 <= i < texts.len() && all_accepted(texts.take(i)) && fault.path@ == paths[i]
            && gitignore::is_fault(fault.fault, gitignore::lines(texts[i]))
}

/// A source's entries together with what its ignore files say.
pub struct IgnoreState {
    /// Every entry of the source, the hidden ones too.
    entries: Vec<Entry>,
    /// The ignore files, the deepest first.
    matchers: Vec<Matcher>,
}

impl IgnoreState {
    pub closed spec fn entries(&self) -> Seq<EntryModel> {
        vfs::entry_views(self.entries@)
    }

    pub closed spec fn matchers(&self) -> Seq<MatcherModel> {
        matcher_views(self.matchers@)
    }

    /// Takes the entries of a source and its ignore files, in the order in
    /// which they were found.
    pub fn new(entries: Vec<Entry>, matchers: Vec<Matcher>) -> (r: IgnoreState)
        ensures
            r.entries() == vfs::entry_views(entries@),
            r.matchers() == deepest_first(matcher_views(matchers@)),
    {
        let ghost rank = |m: Matcher| depth_rank(m@);
        let deeper = |a: &Matcher, b: &Matcher| -> (c: bool)
            ensures
                c == order::before(depth_rank(a@), depth_rank(b@)),
        {
            stands_deeper(a, b)
        };
        let ghost unsorted = matchers@;
        let sorted = order::stable_sort(matchers, deeper, Ghost(rank));
        proof {
            order::lemma_sorted_map(
                unsorted,
                |m: Matcher| m@,
                rank,
                |m: MatcherModel| depth_rank(m),
            );
        }
        IgnoreState { entries, matchers: sorted }
    }

    /// Takes the entries of a source, and the texts of the ignore files among
    /// them in the order in which [`ignore_files_among`] gives their paths.
    pub fn build(rules: &IgnoreRules, entries: Vec<Entry>, texts: &Vec<String>) -> (r: Result<
        IgnoreState,
        IgnoreFault,
    >)
        requires
            texts@.len() == ignore_paths(*rules, vfs::entry_views(entries@)).len(),
        ensures
            r is Ok <==> all_accepted(text::views(texts@)),
            r matches Ok(state) ==> {
                &&& state.entries() == vfs::entry_views(entries@)
                &&& state.matchers() == deepest_first(
                    matchers_of(
                        ignore_paths(*rules, vfs::entry_views(entries@)),
                        text::views(texts@),
                    ),
                )
            },
            r matches Err(fault) ==> is_first_fault(
                fault,
                ignore_paths(*rules, vfs::entry_views(entries@)),
                text::views(texts@),
            ),
    {
        let paths = ignore_files_among(rules, &entries);
        let ghost all_paths = text::views(paths@);
        let ghost all_texts = text::views(texts@);
        let ghost wanted = matchers_of(all_paths, all_texts);
        let mut matchers: Vec<Matcher> = Vec::new();
        let mut i: usize = 0;
        assert(matcher_views(matchers@) =~= wanted.take(0));
        while i < paths.len()
            invariant
                i <= paths.len(),
                paths@.len() == texts@.len(),
                all_paths == text::views(paths@),
                all_paths == ignore_paths(*rules, vfs::entry_views(entries@)),
                all_texts == text::views(texts@),
                wanted == matchers_of(all_paths, all_texts),
                all_accepted(all_texts.take(i as int)),
                matcher_views(matchers@) == wanted.take(i as int),
            decreases paths.len() - i,
        {
            let ghost done = matcher_views(matchers@);
            assert(all_paths[i as int] == paths@[i as int]@);
            assert(all_texts[i as int] == texts@[i as int]@);
            match Matcher::read(paths[i].as_str(), texts[i].as_str()) {
                Ok(matcher) => {
                    assert(matcher@ == wanted[i as int]);
                    matchers.push(matcher);
                    assert(matcher_views(matchers@) =~= done.push(matcher@));
                    assert(wanted.take(i + 1) =~= wanted.take(i as int).push(wanted[i as int]));
                    assert(all_texts.take(i + 1) =~= all_texts.take(i as int).push(
                        all_texts[i as int],
                    ));
                },
                Err(fault) => {
                    return Err(fault);
                },
            }
            i = i + 1;
        }
        assert(all_texts.take(i as int) =~= all_texts);
        assert(wanted.take(i as int) =~= wanted);
        Ok(IgnoreState::new(entries, matchers))
    }

    /// Whether the file at a path is hidden.
    pub fn is_ignored(&self, rules: &IgnoreRules, path: &str) -> (r: bool)
        ensures
            r == masked(*rules, self.matchers(), path@),
    {
        if rules.skip_vcs_dirs && any_vcs_part(path) {
            return true;
        }
        if !rules.include_hidden && any_hidden_part(path) {
            return true;
        }
        let ghost all = self.matchers();
        let mut i: usize = 0;
        assert(all.skip(0) =~= all);
        while i < self.matchers.len()
            invariant
                i <= self.matchers.len(),
                all == self.matchers(),
                !(rules.skip_vcs_dirs && in_vcs_dir(path@)),
                !(!rules.include_hidden && hidden(path@)),
                excluded(all, path@) == excluded(all.skip(i as int), path@),
            decreases self.matchers.len() - i,
        {
            let matcher = &self.matchers[i];
            assert(all.skip(i as int)[0] == matcher@);
            assert(all.skip(i as int).skip(1) =~= all.skip(i + 1));
            if let Some(rest) = path::strip_prefix(path, matcher.directory.as_str()) {
                proof {
                    path::lemma_below_apart(
                        path@,
                        path::parts(matcher.directory@).len() as int,
                    );
                }
                match gitignore::verdict_on(&matcher.rules, rest.as_str()) {
                    Verdict::Hide => {
                        return true;
                    },
                    Verdict::Keep => {
                        return false;
                    },
                    Verdict::Silent => {},
                }
            }
            i = i + 1;
        }
        false
    }

    /// Why the file at a path cannot be read, where it cannot be: it is hidden.
    pub fn refusal(&self, rules: &IgnoreRules, path: &str) -> (r: Option<String>)
        ensures
            r is Some <==> masked(*rules, self.matchers(), path@),
            r matches Some(why) ==> why@ == path@ + " is ignored"@,
    {
        if !self.is_ignored(rules, path) {
            return None;
        }
        let mut out = path.to_owned();
        out.append(" is ignored");
        Some(out)
    }

    /// The entries that are not hidden, in their order.
    pub fn visible(&self, rules: &IgnoreRules) -> (r: Vec<Entry>)
        ensures
            vfs::entry_views(r@) == shown(*rules, self.matchers(), self.entries()),
    {
        let ghost all = self.entries();
        let ghost matchers = self.matchers();
        let mut out: Vec<Entry> = Vec::new();
        let mut i: usize = 0;
        assert(vfs::entry_views(out@) =~= shown(*rules, matchers, all.take(0)));
        while i < self.entries.len()
            invariant
                i <= self.entries.len(),
                all == vfs::entry_views(self.entries@),
                matchers == self.matchers(),
                vfs::entry_views(out@) == shown(*rules, matchers, all.take(i as int)),
            decreases self.entries.len() - i,
        {
            let ghost done = vfs::entry_views(out@);
            let entry = &self.entries[i];
            assert(all.take(i + 1).drop_last() =~= all.take(i as int));
            assert(all.take(i + 1).last() == entry@);
            if !self.is_ignored(rules, entry.path.as_str()) {
                let kept = entry.copy();
                out.push(kept);
                assert(vfs::entry_views(out@) =~= done.push(kept@));
            }
            i = i + 1;
        }
        assert(all.take(i as int) =~= all);
        out
    }
}

// ---------------------------------------------------------------------------
// Asking the wrapped source
// ---------------------------------------------------------------------------

/// The wrapped source has to be listed before a call can be answered: something
/// can be hidden, and nothing is known of it yet.
pub open spec fn wants(rules: IgnoreRules, known: bool) -> bool {
    !noop(rules) && !known
}

/// Who answers a call for the entries.
pub enum Listing {
    /// The wrapped source does.
    Wrapped,
    /// These are the entries.
    Shown(Vec<Entry>),
}

/// The rules that hide the files of a source, and what is known of the source
/// so far.
pub struct Mask {
    rules: IgnoreRules,
    state: Option<IgnoreState>,
}

impl Mask {
    pub closed spec fn follows(&self) -> IgnoreRules {
        self.rules
    }

    /// The entries of the source and its ignore files, once they are known.
    pub closed spec fn known(&self) -> Option<(Seq<EntryModel>, Seq<MatcherModel>)> {
        match self.state {
            Some(state) => Some((state.entries(), state.matchers())),
            None => None,
        }
    }

    /// Nothing is known of the source yet.
    pub fn new(rules: IgnoreRules) -> (r: Mask)
        ensures
            r.follows() == rules,
            r.known() is None,
    {
        Mask { rules, state: None }
    }

    pub fn rules(&self) -> (r: &IgnoreRules)
        ensures
            *r == self.follows(),
    {
        &self.rules
    }

    /// Whether the wrapped source has to be listed before a call can be
    /// answered.
    pub fn wants_listing(&self) -> (r: bool)
        ensures
            r == wants(self.follows(), self.known() is Some),
    {
        !self.rules.is_noop() && self.state.is_none()
    }

    /// Takes what the wrapped source holds.
    pub fn learn(&mut self, state: IgnoreState)
        ensures
            final(self).follows() == old(self).follows(),
            final(self).known() == Some((state.entries(), state.matchers())),
    {
        self.state = Some(state);
    }

    /// The entries that are not hidden. Rules that hide nothing leave the call
    /// to the wrapped source.
    pub fn list(&self) -> (r: Listing)
        requires
            !wants(self.follows(), self.known() is Some),
        ensures
            r is Wrapped <==> noop(self.follows()),
            r matches Listing::Shown(entries) ==> vfs::entry_views(entries@) == shown(
                self.follows(),
                (self.known()->0).1,
                (self.known()->0).0,
            ),
    {
        match &self.state {
            Some(state) if !self.rules.is_noop() => Listing::Shown(state.visible(&self.rules)),
            _ => Listing::Wrapped,
        }
    }

    /// Why the file at a path is not opened, where it is not; any other is
    /// opened by the wrapped source.
    pub fn refusal(&self, path: &str) -> (r: Option<String>)
        requires
            !wants(self.follows(), self.known() is Some),
        ensures
            r is Some <==> !noop(self.follows()) && masked(
                self.follows(),
                (self.known()->0).1,
                path@,
            ),
            r matches Some(why) ==> why@ == path@ + " is ignored"@,
    {
        match &self.state {
            Some(state) if !self.rules.is_noop() => state.refusal(&self.rules, path),
            _ => None,
        }
    }
}

fn stands_deeper(a: &Matcher, b: &Matcher) -> (r: bool)
    ensures
        r == order::before(depth_rank(a@), depth_rank(b@)),
{
    let x = path::parts_of(a.directory.as_str());
    let y = path::parts_of(b.directory.as_str());
    proof {
        reveal_with_fuel(order::before, 2);
        assert(path::part_views(x@).len() == x@.len());
        assert(path::part_views(y@).len() == y@.len());
    }
    x.len() > y.len()
}

fn is_vcs_name(name: &str) -> (r: bool)
    ensures
        r == vcs_name(name@),
{
    text::same(name, ".git") || text::same(name, ".hg") || text::same(name, ".svn") || text::same(
        name,
        ".jj",
    )
}

pub(crate) fn any_vcs_part(path: &str) -> (r: bool)
    ensures
        r == in_vcs_dir(path@),
{
    let parts = path::parts_of(path);
    let ghost all = path::parts(path@);
    let mut i: usize = 0;
    while i < parts.len()
        invariant
            i <= parts.len(),
            all == path::part_views(parts@),
            all == path::parts(path@),
            forall|k: int| 0 <= k < i ==> !vcs_part(#[trigger] all[k]),
        decreases parts.len() - i,
    {
        assert(all[i as int] == parts@[i as int]@);
        if let Part::Name(name) = &parts[i] {
            if is_vcs_name(name.as_str()) {
                assert(vcs_part(path::parts(path@)[i as int]));
                return true;
            }
        }
        i = i + 1;
    }
    false
}

fn any_hidden_part(path: &str) -> (r: bool)
    ensures
        r == hidden(path@),
{
    let parts = path::parts_of(path);
    let ghost all = path::parts(path@);
    let mut i: usize = 0;
    while i < parts.len()
        invariant
            i <= parts.len(),
            all == path::part_views(parts@),
            all == path::parts(path@),
            forall|k: int| 0 <= k < i ==> !hidden_part(#[trigger] all[k]),
        decreases parts.len() - i,
    {
        assert(all[i as int] == parts@[i as int]@);
        if let Part::Name(name) = &parts[i] {
            if name.as_str().unicode_len() > 0 && name.as_str().get_char(0) == '.' {
                assert(hidden_part(path::parts(path@)[i as int]));
                return true;
            }
        }
        i = i + 1;
    }
    false
}

// ---------------------------------------------------------------------------
// Laws
// ---------------------------------------------------------------------------

/// Rules that can hide nothing find no ignore files and show every entry.
pub proof fn law_noop_rules_show_everything(rules: IgnoreRules, entries: Seq<EntryModel>)
    requires
        noop(rules),
    ensures
        ignore_paths(rules, entries) == Seq::<Seq<char>>::empty(),
        forall|texts: Seq<Seq<char>>|
            shown(
                rules,
                deepest_first(#[trigger] matchers_of(ignore_paths(rules, entries), texts)),
                entries,
            ) == entries,
    decreases entries.len(),
{
    lemma_noop_paths(rules, entries);
    assert forall|texts: Seq<Seq<char>>|
        shown(
            rules,
            deepest_first(#[trigger] matchers_of(ignore_paths(rules, entries), texts)),
            entries,
        ) == entries by {
        let matchers = matchers_of(ignore_paths(rules, entries), texts);
        assert(matchers =~= Seq::empty());
        assert(deepest_first(matchers) =~= Seq::empty());
        lemma_noop_shown(rules, entries);
    }
}

proof fn lemma_noop_paths(rules: IgnoreRules, entries: Seq<EntryModel>)
    requires
        noop(rules),
    ensures
        ignore_paths(rules, entries) == Seq::<Seq<char>>::empty(),
    decreases entries.len(),
{
    if entries.len() > 0 {
        lemma_noop_paths(rules, entries.drop_last());
    }
}

proof fn lemma_noop_shown(rules: IgnoreRules, entries: Seq<EntryModel>)
    requires
        noop(rules),
    ensures
        shown(rules, Seq::empty(), entries) == entries,
    decreases entries.len(),
{
    if entries.len() > 0 {
        lemma_noop_shown(rules, entries.drop_last());
        assert(entries.drop_last().push(entries.last()) =~= entries);
    } else {
        assert(shown(rules, Seq::empty(), entries) =~= entries);
    }
}

/// Of two ignore files the one that is asked first stands at least as deep.
pub proof fn law_the_deepest_file_is_asked_first(matchers: Seq<MatcherModel>, i: int, j: int)
    requires
        0 <= i < j < deepest_first(matchers).len(),
    ensures
        path::parts(deepest_first(matchers)[i].directory).len() >= path::parts(
            deepest_first(matchers)[j].directory,
        ).len(),
{
    let rank = |m: MatcherModel| depth_rank(m);
    order::law_sort_orders(matchers, rank);
    reveal_with_fuel(order::before, 2);
    assert(!order::before(rank(deepest_first(matchers)[j]), rank(deepest_first(matchers)[i])));
}

/// The first ignore file that has something to say of a path settles whether
/// it is excluded, whatever those behind it say.
pub proof fn law_the_first_opinion_counts(matchers: Seq<MatcherModel>, path: Seq<char>, k: int)
    requires
        0 <= k < matchers.len(),
        forall|i: int| 0 <= i < k ==> opinion(#[trigger] matchers[i], path) is Silent,
        opinion(matchers[k], path) !is Silent,
    ensures
        excluded(matchers, path) == (opinion(matchers[k], path) is Hide),
    decreases k,
{
    if k > 0 {
        assert(opinion(matchers[0], path) is Silent);
        let rest = matchers.skip(1);
        assert forall|i: int| 0 <= i < k - 1 implies opinion(#[trigger] rest[i], path) is Silent by {
            assert(rest[i] == matchers[i + 1]);
        }
        assert(rest[k - 1] == matchers[k]);
        law_the_first_opinion_counts(rest, path, k - 1);
    }
}

/// An ignore file has no say outside of its own directory: without it the same
/// is excluded there.
pub proof fn law_a_file_governs_only_its_subtree(
    matchers: Seq<MatcherModel>,
    path: Seq<char>,
    k: int,
)
    requires
        0 <= k < matchers.len(),
        !path::parts(matchers[k].directory).is_prefix_of(path::parts(path)),
    ensures
        excluded(matchers.remove(k), path) == excluded(matchers, path),
    decreases matchers.len(),
{
    let without = matchers.remove(k);
    if k == 0 {
        assert(without =~= matchers.skip(1));
    } else {
        let rest = matchers.skip(1);
        assert(rest[k - 1] == matchers[k]);
        law_a_file_governs_only_its_subtree(rest, path, k - 1);
        assert(without.skip(1) =~= rest.remove(k - 1));
        assert(without[0] == matchers[0]);
    }
}

/// A file in a directory of version control is hidden even where hidden files
/// are kept and no ignore file says so.
pub proof fn law_vcs_directories_stay_hidden(
    rules: IgnoreRules,
    matchers: Seq<MatcherModel>,
    path: Seq<char>,
)
    requires
        rules.skip_vcs_dirs,
        in_vcs_dir(path),
    ensures
        masked(rules, matchers, path),
{
}

/// Some entry has this path.
pub open spec fn has_path(entries: Seq<EntryModel>, path: Seq<char>) -> bool {
    exists|i: int| 0 <= i < entries.len() && (#[trigger] entries[i]).path == path
}

/// A file of the source is shown exactly where it can be opened: what is
/// hidden from the listing is refused, and nothing else is.
pub proof fn law_what_is_listed_opens(
    rules: IgnoreRules,
    matchers: Seq<MatcherModel>,
    entries: Seq<EntryModel>,
    path: Seq<char>,
)
    requires
        has_path(entries, path),
    ensures
        has_path(shown(rules, matchers, entries), path) <==> !masked(rules, matchers, path),
{
    lemma_shown_paths(rules, matchers, entries, path);
}

proof fn lemma_shown_paths(
    rules: IgnoreRules,
    matchers: Seq<MatcherModel>,
    entries: Seq<EntryModel>,
    path: Seq<char>,
)
    ensures
        has_path(shown(rules, matchers, entries), path) <==> has_path(entries, path) && !masked(
            rules,
            matchers,
            path,
        ),
    decreases entries.len(),
{
    if entries.len() > 0 {
        let before = entries.drop_last();
        let last = entries.last();
        let rest = shown(rules, matchers, before);
        lemma_shown_paths(rules, matchers, before, path);
        if has_path(before, path) {
            let i = choose|i: int| 0 <= i < before.len() && (#[trigger] before[i]).path == path;
            assert(entries[i] == before[i]);
        }
        if has_path(entries, path) && last.path != path {
            let i = choose|i: int| 0 <= i < entries.len() && (#[trigger] entries[i]).path == path;
            assert(before[i] == entries[i]);
        }
        assert(last.path == path ==> has_path(entries, path)) by {
            assert(entries[entries.len() - 1] == last);
        }
        if !masked(rules, matchers, last.path) {
            let all = rest.push(last);
            if has_path(rest, path) {
                let i = choose|i: int| 0 <= i < rest.len() && (#[trigger] rest[i]).path == path;
                assert(all[i] == rest[i]);
            }
            assert(all[rest.len() as int] == last);
            if has_path(all, path) && last.path != path {
                let i = choose|i: int| 0 <= i < all.len() && (#[trigger] all[i]).path == path;
                assert(rest[i] == all[i]);
            }
        }
    }
}

/// A call on a source whose files are hidden.
pub enum Call {
    List,
    Open(Seq<char>),
}

/// How often some calls, one after the other, list the wrapped source, where
/// each listing succeeds. `known` says whether anything is known of the source
/// before them.
pub open spec fn listings(rules: IgnoreRules, known: bool, calls: Seq<Call>) -> int
    decreases calls.len(),
{
    if calls.len() == 0 {
        0
    } else {
        let now: int = if wants(rules, known) || (noop(rules) && calls[0] is List) {
            1
        } else {
            0
        };
        now + listings(rules, known || wants(rules, known), calls.skip(1))
    }
}

/// Where something can be hidden, the wrapped source is listed once, however
/// often its files are listed and opened.
pub proof fn law_the_wrapped_source_is_listed_once(rules: IgnoreRules, calls: Seq<Call>)
    requires
        !noop(rules),
        calls.len() > 0,
    ensures
        listings(rules, false, calls) == 1,
{
    lemma_known_sources_are_not_listed(rules, calls.skip(1));
}

proof fn lemma_known_sources_are_not_listed(rules: IgnoreRules, calls: Seq<Call>)
    requires
        !noop(rules),
    ensures
        listings(rules, true, calls) == 0,
    decreases calls.len(),
{
    if calls.len() > 0 {
        lemma_known_sources_are_not_listed(rules, calls.skip(1));
    }
}

/// What is shown is shown again: hiding twice is hiding once.
pub proof fn law_hiding_twice_is_hiding_once(
    rules: IgnoreRules,
    matchers: Seq<MatcherModel>,
    entries: Seq<EntryModel>,
)
    ensures
        shown(rules, matchers, shown(rules, matchers, entries)) == shown(rules, matchers, entries),
    decreases entries.len(),
{
    if entries.len() > 0 {
        let rest = shown(rules, matchers, entries.drop_last());
        law_hiding_twice_is_hiding_once(rules, matchers, entries.drop_last());
        if !masked(rules, matchers, entries.last().path) {
            assert(rest.push(entries.last()).drop_last() =~= rest);
        }
    }
}

/// A file is an ignore file exactly if its name is one of those that the rules
/// name; the ignore files come in the order of the entries.
pub proof fn law_ignore_files_are_found_by_name(
    rules: IgnoreRules,
    entries: Seq<EntryModel>,
    entry: EntryModel,
)
    ensures
        ({
            let before = ignore_paths(rules, entries);
            let name = path::file_name(entry.path);
            let named = name is Some && exists|i: int|
                0 <= i < rules.ignore_files@.len() && (#[trigger] rules.ignore_files@[i])@
                    == name->0;
            ignore_paths(rules, entries.push(entry)) == if named {
                before.push(entry.path)
            } else {
                before
            }
        }),
        ignore_paths(rules, Seq::empty()).len() == 0,
{
    assert(entries.push(entry).drop_last() =~= entries);
    let names = text::views(rules.ignore_files@);
    if path::file_name(entry.path) is Some {
        let name = path::file_name(entry.path)->0;
        if names.contains(name) {
            let i = choose|i: int| 0 <= i < names.len() && names[i] == name;
            assert(rules.ignore_files@[i]@ == name);
        }
        if exists|i: int|
            0 <= i < rules.ignore_files@.len() && (#[trigger] rules.ignore_files@[i])@ == name {
            let i = choose|i: int|
                0 <= i < rules.ignore_files@.len() && (#[trigger] rules.ignore_files@[i])@ == name;
            assert(names[i] == name);
        }
    }
}

/// An ignore file governs its own directory, and each path there as it is called
/// from that directory. Of a path elsewhere it says nothing.
pub proof fn law_an_ignore_file_judges_from_its_directory(
    file: Seq<char>,
    text: Seq<char>,
    path: Seq<char>,
)
    ensures
        ({
            let matcher = matcher_of(file, text);
            match path::below(path, path::parent(file)) {
                Some(rest) => opinion(matcher, path) == gitignore::verdict(
                    gitignore::lines(text),
                    rest,
                ),
                None => opinion(matcher, path) is Silent,
            }
        }),
{
}

/// Each ignore file is asked with its own text.
pub proof fn law_ignore_files_keep_their_texts(
    paths: Seq<Seq<char>>,
    texts: Seq<Seq<char>>,
    i: int,
)
    requires
        0 <= i < paths.len(),
    ensures
        matchers_of(paths, texts).len() == paths.len(),
        matchers_of(paths, texts)[i].directory == path::parent(paths[i]),
        matchers_of(paths, texts)[i].lines == gitignore::lines(texts[i]),
        deepest_first(matchers_of(paths, texts)).to_multiset() == matchers_of(
            paths,
            texts,
        ).to_multiset(),
{
    order::law_sort_keeps_everything(
        matchers_of(paths, texts),
        |m: MatcherModel| depth_rank(m),
    );
}

/// Of ignore files that stand equally deep the one that is listed first is asked
/// first.
pub proof fn law_ignore_files_of_a_depth_keep_their_order(
    matchers: Seq<MatcherModel>,
    depth: int,
)
    ensures
        order::of_rank(
            deepest_first(matchers),
            |m: MatcherModel| depth_rank(m),
            seq![-depth],
        ) == order::of_rank(matchers, |m: MatcherModel| depth_rank(m), seq![-depth]),
        forall|m: MatcherModel|
            depth_rank(m) == seq![-depth] <==> #[trigger] path::parts(m.directory).len() == depth,
{
    order::law_sort_is_stable(matchers, |m: MatcherModel| depth_rank(m), seq![-depth]);
    assert forall|m: MatcherModel|
        depth_rank(m) == seq![-depth] <==> #[trigger] path::parts(m.directory).len() == depth by {
        assert(depth_rank(m)[0] == -path::parts(m.directory).len());
        assert(seq![-depth][0] == -depth);
        if path::parts(m.directory).len() == depth {
            assert(depth_rank(m) =~= seq![-depth]);
        }
    }
}

/// A path of which no ignore file has anything to say is not excluded.
pub proof fn law_silence_excludes_nothing(matchers: Seq<MatcherModel>, path: Seq<char>)
    requires
        forall|i: int|
            0 <= i < matchers.len() ==> opinion(#[trigger] matchers[i], path) is Silent,
    ensures
        !excluded(matchers, path),
    decreases matchers.len(),
{
    if matchers.len() > 0 {
        let rest = matchers.skip(1);
        assert(opinion(matchers[0], path) is Silent);
        assert forall|i: int| 0 <= i < rest.len() implies opinion(
            #[trigger] rest[i],
            path,
        ) is Silent by {
            assert(rest[i] == matchers[i + 1]);
        }
        law_silence_excludes_nothing(rest, path);
    }
}

/// A path is hidden for three reasons and no other: one of its parts is a
/// directory of version control, one of its parts is a name that starts with a
/// dot, or its ignore files exclude it. The first two can be switched off.
pub proof fn law_paths_are_hidden_for_a_reason(
    rules: IgnoreRules,
    matchers: Seq<MatcherModel>,
    path: Seq<char>,
)
    ensures
        ({
            let parts = path::parts(path);
            masked(rules, matchers, path) <==> {
                ||| rules.skip_vcs_dirs && exists|i: int|
                    0 <= i < parts.len() && (#[trigger] parts[i] == PartModel::Name(".git"@)
                        || parts[i] == PartModel::Name(".hg"@) || parts[i] == PartModel::Name(
                        ".svn"@,
                    ) || parts[i] == PartModel::Name(".jj"@))
                ||| !rules.include_hidden && exists|i: int|
                    0 <= i < parts.len() && (#[trigger] parts[i]) is Name && parts[i]->Name_0.len()
                        > 0 && parts[i]->Name_0[0] == '.'
                ||| excluded(matchers, path)
            }
        }),
{
    let parts = path::parts(path);
    assert forall|i: int| 0 <= i < parts.len() implies vcs_part(#[trigger] parts[i]) == (parts[i]
        == PartModel::Name(".git"@) || parts[i] == PartModel::Name(".hg"@) || parts[i]
        == PartModel::Name(".svn"@) || parts[i] == PartModel::Name(".jj"@)) by {}
    assert forall|i: int| 0 <= i < parts.len() implies hidden_part(#[trigger] parts[i]) == (
    parts[i] is Name && parts[i]->Name_0.len() > 0 && parts[i]->Name_0[0] == '.') by {}
}

/// Entries are shown one by one: each that is not hidden, in its order.
pub proof fn law_entries_are_shown_one_by_one(
    rules: IgnoreRules,
    matchers: Seq<MatcherModel>,
    entries: Seq<EntryModel>,
    entry: EntryModel,
)
    ensures
        shown(rules, matchers, entries.push(entry)) == if masked(rules, matchers, entry.path) {
            shown(rules, matchers, entries)
        } else {
            shown(rules, matchers, entries).push(entry)
        },
        shown(rules, matchers, Seq::empty()).len() == 0,
{
    assert(entries.push(entry).drop_last() =~= entries);
}

/// Rules hide nothing exactly if they name no ignore file, keep hidden files and
/// keep version control.
pub proof fn law_rules_can_hide_something(rules: IgnoreRules)
    ensures
        noop(rules) <==> rules.ignore_files@.len() == 0 && rules.include_hidden
            && !rules.skip_vcs_dirs,
        forall|known: bool| #[trigger] wants(rules, known) <==> !known && !noop(rules),
{
}

/// A bad line is reported with the path of its file; what is wrong with the lines
/// together is reported as it stands.
pub proof fn law_faults_name_their_file(path: String, complaint: String)
    ensures
        fault_text(IgnoreFault { path, fault: RulesFault::Line(complaint) }) == "in "@ + path@
            + ": "@ + complaint@,
        fault_text(IgnoreFault { path, fault: RulesFault::Union(complaint) }) == complaint@,
{
}

} // verus!
