//! Which files of a source are counted, and how the counts come together.

use globset::GlobSet;

use vstd::prelude::*;

use crate::count;
use crate::count::{CountConfig, CountOutcome, Setup};
use crate::globs;
use crate::globs::GlobFault;
use crate::lang;
use crate::lang::{LanguageId, Registry};
use crate::order;
use crate::ordmap;
use crate::ordmap::{Key, OrdMap};
use crate::path;
use crate::path::{PartModel, PathKey};
use crate::report::{FileReport, Report};
use crate::text;
use crate::text::CharClass;
use crate::vfs;
use crate::vfs::{Entry, EntryModel};

verus! {

// ---------------------------------------------------------------------------
// Path filters
// ---------------------------------------------------------------------------

/// Path filters that apply to every entry of a source.
#[derive(Debug, Clone)]
pub struct Globs {
    /// If there are any, only paths that match one of these are counted.
    pub included: Vec<String>,
    /// Paths that match one of these are never counted.
    pub excluded: Vec<String>,
}

/// The globs that one pattern stands for: `*.rs` matches at any depth, and
/// `src/` means everything below. A blank pattern stands for none.
pub open spec fn globs_for(pattern: Seq<char>) -> Seq<Seq<char>> {
    let trimmed = text::trimmed_of(pattern, CharClass::Space);
    if trimmed.len() == 0 {
        Seq::empty()
    } else if trimmed.last() == '/' {
        seq![trimmed, trimmed.drop_last() + "/**"@]
    } else if !trimmed.contains('/') {
        seq![trimmed, "**/"@ + trimmed]
    } else {
        seq![trimmed]
    }
}

/// The globs that some patterns stand for, in their order.
pub open spec fn expanded(patterns: Seq<Seq<char>>) -> Seq<Seq<char>>
    decreases patterns.len(),
{
    if patterns.len() == 0 {
        Seq::empty()
    } else {
        expanded(patterns.drop_last()) + globs_for(patterns.last())
    }
}

fn push_globs_for(out: &mut Vec<String>, pattern: &str)
    ensures
        text::views(final(out)@) == text::views(old(out)@) + globs_for(pattern@),
{
    let ghost done = text::views(out@);
    let trimmed = text::trim_of(pattern, CharClass::Space);
    let n = trimmed.as_str().unicode_len();
    if n == 0 {
        assert(text::views(out@) =~= done + globs_for(pattern@));
        return;
    }
    let last = trimmed.as_str().get_char(n - 1);
    if last == '/' {
        let mut below = text::slice(trimmed.as_str(), 0, n - 1);
        below.append("/**");
        assert(below@ =~= trimmed@.drop_last() + "/**"@);
        out.push(trimmed);
        out.push(below);
    } else if !text::has_char(trimmed.as_str(), '/') {
        let mut anywhere = "**/".to_owned();
        anywhere.append(trimmed.as_str());
        out.push(trimmed);
        out.push(anywhere);
    } else {
        out.push(trimmed);
    }
    assert(text::views(out@) =~= done + globs_for(pattern@));
}

/// Makes a set out of what some patterns stand for.
pub fn build(patterns: &Vec<String>) -> (r: Result<GlobSet, GlobFault>)
    ensures
        r is Ok <==> compiles(text::views(patterns@)),
        r matches Ok(set) ==> globs::set_globs(set) == expanded(text::views(patterns@)),
        r matches Err(fault) ==> globs::is_fault(fault, expanded(text::views(patterns@))),
{
    let ghost all = text::views(patterns@);
    let mut out: Vec<String> = Vec::new();
    let mut i: usize = 0;
    assert(text::views(out@) =~= expanded(all.take(0)));
    while i < patterns.len()
        invariant
            i <= patterns.len(),
            all == text::views(patterns@),
            text::views(out@) == expanded(all.take(i as int)),
        decreases patterns.len() - i,
    {
        assert(all.take(i + 1).drop_last() =~= all.take(i as int));
        assert(all.take(i + 1).last() == patterns@[i as int]@);
        push_globs_for(&mut out, patterns[i].as_str());
        i = i + 1;
    }
    assert(all.take(i as int) =~= all);
    globs::compile(&out)
}

/// What some patterns stand for can be made into a set.
pub open spec fn compiles(patterns: Seq<Seq<char>>) -> bool {
    globs::all_valid(expanded(patterns)) && globs::set_builds(expanded(patterns))
}

/// The filters let a path through.
pub open spec fn allowed(
    included: Seq<Seq<char>>,
    excluded: Seq<Seq<char>>,
    path: Seq<char>,
) -> bool {
    &&& !globs::any_matches(expanded(excluded), path)
    &&& included.len() == 0 || globs::any_matches(expanded(included), path)
}

impl Default for Globs {
    /// No filters.
    fn default() -> (r: Globs)
        ensures
            r.included@.len() == 0,
            r.excluded@.len() == 0,
    {
        Globs { included: Vec::new(), excluded: Vec::new() }
    }
}

impl Globs {
    pub fn new(included: Vec<String>, excluded: Vec<String>) -> (r: Globs)
        ensures
            r.included == included,
            r.excluded == excluded,
    {
        Globs { included, excluded }
    }

    /// Makes the filters ready for use.
    pub fn compile(&self) -> (r: Result<CompiledGlobs, GlobFault>)
        ensures
            r is Ok <==> compiles(text::views(self.included@)) && compiles(
                text::views(self.excluded@),
            ),
            r matches Ok(compiled) ==> compiled.stands_for(*self),
            r matches Err(fault) ==> globs::is_fault(
                fault,
                expanded(
                    if compiles(text::views(self.included@)) {
                        text::views(self.excluded@)
                    } else {
                        text::views(self.included@)
                    },
                ),
            ),
    {
        let included = match build(&self.included) {
            Ok(set) => set,
            Err(fault) => {
                return Err(fault);
            },
        };
        let excluded = match build(&self.excluded) {
            Ok(set) => set,
            Err(fault) => {
                return Err(fault);
            },
        };
        Ok(CompiledGlobs { included, excluded, has_included: self.included.len() > 0 })
    }
}

/// Path filters that are ready for use.
pub struct CompiledGlobs {
    included: GlobSet,
    excluded: GlobSet,
    has_included: bool,
}

impl CompiledGlobs {
    /// These are the filters `globs`, ready for use.
    pub closed spec fn stands_for(&self, globs: Globs) -> bool {
        &&& globs::set_globs(self.included) == expanded(text::views(globs.included@))
        &&& globs::set_globs(self.excluded) == expanded(text::views(globs.excluded@))
        &&& self.has_included == (globs.included@.len() > 0)
    }

    /// The filters let a path through.
    pub closed spec fn lets_through(&self, path: Seq<char>) -> bool {
        &&& !globs::any_matches(globs::set_globs(self.excluded), path)
        &&& !self.has_included || globs::any_matches(globs::set_globs(self.included), path)
    }

    /// What the filters let through is what their patterns say.
    pub proof fn law_filters_follow_their_patterns(&self, globs: Globs, path: Seq<char>)
        requires
            self.stands_for(globs),
        ensures
            self.lets_through(path) == allowed(
                text::views(globs.included@),
                text::views(globs.excluded@),
                path,
            ),
    {
    }

    /// Whether the filters let a path through.
    pub fn allows(&self, path: &str) -> (r: bool)
        ensures
            r == self.lets_through(path@),
    {
        if globs::set_matches(&self.excluded, path) {
            return false;
        }
        !self.has_included || globs::set_matches(&self.included, path)
    }
}

/// An exclusion wins over whatever is included.
pub proof fn law_an_exclusion_wins(
    included: Seq<Seq<char>>,
    excluded: Seq<Seq<char>>,
    path: Seq<char>,
)
    requires
        globs::any_matches(expanded(excluded), path),
    ensures
        !allowed(included, excluded, path),
{
}

/// Without filters every path is let through.
pub proof fn law_no_filters_let_everything_through(path: Seq<char>)
    ensures
        allowed(Seq::empty(), Seq::empty(), path),
{
    assert(expanded(Seq::<Seq<char>>::empty()) =~= Seq::empty());
}

/// A pattern without a slash also stands for itself at any depth, and one that
/// ends with a slash for everything below.
pub proof fn law_patterns_are_forgiving(patterns: Seq<Seq<char>>, i: int)
    requires
        0 <= i < patterns.len(),
        text::trimmed_of(patterns[i], CharClass::Space).len() > 0,
    ensures
        ({
            let p = text::trimmed_of(patterns[i], CharClass::Space);
            &&& expanded(patterns).contains(p)
            &&& !p.contains('/') ==> expanded(patterns).contains("**/"@ + p)
            &&& p.last() == '/' ==> expanded(patterns).contains(p.drop_last() + "/**"@)
        }),
    decreases patterns.len(),
{
    let p = text::trimmed_of(patterns[i], CharClass::Space);
    let rest = expanded(patterns.drop_last());
    let own = globs_for(patterns.last());
    let all = expanded(patterns);
    assert forall|g: Seq<char>| rest.contains(g) || own.contains(g) implies #[trigger] all.contains(
        g,
    ) by {
        if rest.contains(g) {
            let k = choose|k: int| 0 <= k < rest.len() && rest[k] == g;
            assert(all[k] == g);
        } else {
            let k = choose|k: int| 0 <= k < own.len() && own[k] == g;
            assert(all[rest.len() + k] == g);
        }
    }
    if i < patterns.len() - 1 {
        assert(patterns.drop_last()[i] == patterns[i]);
        law_patterns_are_forgiving(patterns.drop_last(), i);
    } else {
        assert(own[0] == p);
        if p.last() == '/' {
            assert(p.contains('/'));
            assert(own[1] == p.drop_last() + "/**"@);
        } else if !p.contains('/') {
            assert(own[1] == "**/"@ + p);
        }
    }
}

// ---------------------------------------------------------------------------
// Sets of paths
// ---------------------------------------------------------------------------

/// A set of paths. Paths with the same parts are the same path.
#[derive(Debug)]
pub struct PathSet {
    paths: OrdMap<PathKey, ()>,
}

impl View for PathSet {
    type V = Set<Seq<PartModel>>;

    closed spec fn view(&self) -> Set<Seq<PartModel>> {
        self.paths@.dom()
    }
}

impl PathSet {
    #[verifier::type_invariant]
    spec fn ordered(self) -> bool {
        self.paths.wf()
    }

    /// No paths.
    pub fn new() -> (r: PathSet)
        ensures
            r@ == Set::<Seq<PartModel>>::empty(),
    {
        let r = PathSet { paths: OrdMap::new() };
        assert(r@ =~= Set::<Seq<PartModel>>::empty());
        r
    }

    /// The set with one more path.
    pub fn with(self, path: &str) -> (r: PathSet)
        ensures
            r@ == self@.insert(path::parts(path@)),
    {
        proof {
            use_type_invariant(&self);
        }
        let mut paths = self.paths;
        paths.insert(PathKey { text: path.to_owned() }, ());
        let r = PathSet { paths };
        assert(r@ =~= self@.insert(path::parts(path@)));
        r
    }

    /// The set of some paths.
    pub fn of(paths: &Vec<String>) -> (r: PathSet)
        ensures
            forall|p: Seq<PartModel>| #[trigger] r@.contains(p) <==> listed(paths@, p),
    {
        let mut out = PathSet::new();
        let mut i: usize = 0;
        while i < paths.len()
            invariant
                i <= paths.len(),
                forall|p: Seq<PartModel>| #[trigger]
                    out@.contains(p) <==> listed(paths@.take(i as int), p),
            decreases paths.len() - i,
        {
            let ghost done = out@;
            out = out.with(paths[i].as_str());
            proof {
                let before = paths@.take(i as int);
                let after = paths@.take(i + 1);
                assert forall|p: Seq<PartModel>| #[trigger] out@.contains(p) <==> listed(
                    after,
                    p,
                ) by {
                    assert(done.contains(p) <==> listed(before, p));
                    if listed(before, p) {
                        let k = choose|k: int|
                            0 <= k < before.len() && path::parts((#[trigger] before[k])@) == p;
                        assert(after[k] == before[k]);
                    }
                    assert(after[i as int] == paths@[i as int]);
                    if listed(after, p) && !listed(before, p) {
                        let k = choose|k: int|
                            0 <= k < after.len() && path::parts((#[trigger] after[k])@) == p;
                        if k < i {
                            assert(before[k] == after[k]);
                        }
                    }
                }
            }
            i = i + 1;
        }
        assert(paths@.take(i as int) =~= paths@);
        out
    }

    /// Whether a path is in the set.
    pub fn contains(&self, path: &str) -> (r: bool)
        ensures
            r == self@.contains(path::parts(path@)),
    {
        proof {
            use_type_invariant(self);
        }
        self.paths.contains(&PathKey { text: path.to_owned() })
    }

    /// Whether there are no paths in the set.
    pub fn is_empty(&self) -> (r: bool)
        ensures
            r == (self@ == Set::<Seq<PartModel>>::empty()),
    {
        proof {
            use_type_invariant(self);
            if self@ =~= Set::<Seq<PartModel>>::empty() {
                assert(self.paths@ =~= Map::empty());
            }
        }
        self.paths.is_empty()
    }

    /// The paths of the set, each once.
    pub fn paths(&self) -> (r: Vec<String>)
        ensures
            forall|p: Seq<PartModel>| #[trigger] self@.contains(p) <==> listed(r@, p),
            forall|i: int, j: int|
                0 <= i < j < r@.len() ==> path::parts((#[trigger] r@[i])@) != path::parts(
                    (#[trigger] r@[j])@,
                ),
    {
        proof {
            use_type_invariant(self);
            self.paths.lemma_entries();
        }
        let ghost entries = self.paths.entries();
        let n = self.paths.len();
        let mut out: Vec<String> = Vec::new();
        let mut i: usize = 0;
        while i < n
            invariant
                i <= n == entries.len(),
                entries == self.paths.entries(),
                out@.len() == i,
                forall|k: int| 0 <= k < i ==> (#[trigger] out@[k])@ == entries[k].0.text@,
            decreases n - i,
        {
            let entry = self.paths.at(i);
            out.push(entry.0.text.clone());
            i = i + 1;
        }
        proof {
            assert forall|p: Seq<PartModel>| #[trigger] self@.contains(p) <==> listed(out@, p) by {
                if self@.contains(p) {
                    assert(self.paths@.dom().contains(p));
                    let k = choose|k: int| ordmap::key_stands_at(entries, p, k);
                    assert(path::parts(out@[k]@) == p);
                }
                if listed(out@, p) {
                    let k = choose|k: int|
                        0 <= k < out@.len() && path::parts((#[trigger] out@[k])@) == p;
                    assert(entries[k].0@ == p);
                }
            }
            assert forall|a: int, b: int| 0 <= a < b < out@.len() implies path::parts(
                (#[trigger] out@[a])@,
            ) != path::parts((#[trigger] out@[b])@) by {
                assert(entries[a].0@ == path::parts(out@[a]@));
                assert(entries[b].0@ == path::parts(out@[b]@));
                order::lemma_before_irreflexive(PathKey::rank(entries[a].0@));
            }
        }
        out
    }

    /// How many paths there are in the set.
    pub fn len(&self) -> (r: usize)
        ensures
            r == self@.len(),
    {
        proof {
            use_type_invariant(self);
            self.lemma_len();
        }
        self.paths.len()
    }

    proof fn lemma_len(&self)
        requires
            self.paths.wf(),
        ensures
            self@.len() == self.paths.entries().len(),
    {
        self.paths.lemma_entries();
        let keys = self.paths.keys();
        let entries = self.paths.entries();
        assert forall|i: int, j: int| 0 <= i < j < keys.len() implies keys[i] != keys[j] by {
            assert(keys[i] == entries[i].0@);
            assert(keys[j] == entries[j].0@);
            order::lemma_before_irreflexive(PathKey::rank(keys[i]));
        }
        assert(keys.no_duplicates());
        keys.unique_seq_to_set();
        assert(keys.to_set() =~= self@) by {
            assert forall|p: Seq<PartModel>| keys.to_set().contains(p) <==> #[trigger]
                self@.contains(p) by {
                if self@.contains(p) {
                    assert(self.paths@.dom().contains(p));
                    let k = choose|k: int| ordmap::key_stands_at(entries, p, k);
                    assert(keys[k] == p);
                }
                if keys.to_set().contains(p) {
                    let k = choose|k: int| 0 <= k < keys.len() && keys[k] == p;
                    assert(entries[k].0@ == p);
                }
            }
        }
    }
}

impl Clone for PathSet {
    fn clone(&self) -> (r: PathSet)
        ensures
            r@ == self@,
    {
        let paths = self.paths();
        let r = PathSet::of(&paths);
        assert forall|p: Seq<PartModel>| r@.contains(p) <==> #[trigger] self@.contains(p) by {
            assert(r@.contains(p) <==> listed(paths@, p));
        }
        assert(r@ =~= self@);
        r
    }
}

/// One of the paths has these parts.
pub open spec fn listed(paths: Seq<String>, parts: Seq<PartModel>) -> bool {
    exists|i: int| 0 <= i < paths.len() && path::parts((#[trigger] paths[i])@) == parts
}

// ---------------------------------------------------------------------------
// What differs between two listings
// ---------------------------------------------------------------------------

/// What identifies the contents at each path of a listing. Where a path is
/// listed twice the last entry counts.
pub open spec fn identities(entries: Seq<EntryModel>) -> Map<Seq<PartModel>, Option<Seq<char>>>
    decreases entries.len(),
{
    if entries.len() == 0 {
        Map::empty()
    } else {
        identities(entries.drop_last()).insert(
            path::parts(entries.last().path),
            entries.last().content_id,
        )
    }
}

/// An entry has the same contents as before. Without an identity that is not
/// known, and counts as changed.
pub open spec fn unchanged(before: Seq<EntryModel>, entry: EntryModel) -> bool {
    let known = identities(before);
    let parts = path::parts(entry.path);
    entry.content_id is Some && known.dom().contains(parts) && known[parts] == entry.content_id
}

/// Some entry is at the path with these parts.
pub open spec fn lists(entries: Seq<EntryModel>, parts: Seq<PartModel>) -> bool {
    exists|i: int| 0 <= i < entries.len() && path::parts((#[trigger] entries[i]).path) == parts
}

/// Some entry at the path with these parts is new, or not what it was before.
pub open spec fn altered(
    before: Seq<EntryModel>,
    after: Seq<EntryModel>,
    parts: Seq<PartModel>,
) -> bool {
    exists|i: int|
        0 <= i < after.len() && path::parts((#[trigger] after[i]).path) == parts && !unchanged(
            before,
            after[i],
        )
}

/// The path with these parts differs between two listings: it was added,
/// changed or removed.
pub open spec fn differs(
    before: Seq<EntryModel>,
    after: Seq<EntryModel>,
    parts: Seq<PartModel>,
) -> bool {
    altered(before, after, parts) || (lists(before, parts) && !lists(after, parts))
}

/// The index holds what identifies the contents at each path.
spec fn indexes(
    index: Map<Seq<PartModel>, Option<String>>,
    known: Map<Seq<PartModel>, Option<Seq<char>>>,
) -> bool {
    &&& index.dom() == known.dom()
    &&& forall|p: Seq<PartModel>| #[trigger]
        known.dom().contains(p) ==> vfs::text_view(index[p]) == known[p]
}

fn index_of(entries: &Vec<Entry>) -> (r: OrdMap<PathKey, Option<String>>)
    ensures
        r.wf(),
        indexes(r@, identities(vfs::entry_views(entries@))),
{
    let ghost all = vfs::entry_views(entries@);
    let mut index: OrdMap<PathKey, Option<String>> = OrdMap::new();
    let mut i: usize = 0;
    assert(index@.dom() =~= identities(all.take(0)).dom());
    while i < entries.len()
        invariant
            i <= entries.len(),
            all == vfs::entry_views(entries@),
            index.wf(),
            indexes(index@, identities(all.take(i as int))),
        decreases entries.len() - i,
    {
        let ghost known = identities(all.take(i as int));
        let ghost done = index@;
        let entry = entries[i].copy();
        assert(all.take(i + 1).drop_last() =~= all.take(i as int));
        assert(all.take(i + 1).last() == entry@);
        let ghost key = path::parts(entry.path@);
        let ghost id = entry.content_id;
        index.insert(PathKey { text: entry.path }, entry.content_id);
        i = i + 1;
        proof {
            let next = identities(all.take(i as int));
            assert(index@.dom() =~= next.dom());
            assert forall|p: Seq<PartModel>| #[trigger]
                next.dom().contains(p) implies vfs::text_view(index@[p]) == next[p] by {
                if p != key {
                    assert(known.dom().contains(p));
                }
            }
        }
    }
    assert(all.take(i as int) =~= all);
    index
}

fn is_unchanged(index: &OrdMap<PathKey, Option<String>>, entry: &Entry, Ghost(before): Ghost<
    Seq<EntryModel>,
>) -> (r: bool)
    requires
        index.wf(),
        indexes(index@, identities(before)),
    ensures
        r == unchanged(before, entry@),
{
    let key = PathKey { text: entry.path.clone() };
    match (&entry.content_id, index.get(&key)) {
        (Some(id), Some(known)) => {
            assert(identities(before).dom().contains(key@));
            match known {
                Some(known) => text::same(id.as_str(), known.as_str()),
                None => false,
            }
        },
        _ => false,
    }
}

fn paths_of(entries: &Vec<Entry>) -> (r: PathSet)
    ensures
        forall|p: Seq<PartModel>| #[trigger]
            r@.contains(p) <==> lists(vfs::entry_views(entries@), p),
{
    let ghost all = vfs::entry_views(entries@);
    let mut out = PathSet::new();
    let mut i: usize = 0;
    while i < entries.len()
        invariant
            i <= entries.len(),
            all == vfs::entry_views(entries@),
            forall|p: Seq<PartModel>| #[trigger]
                out@.contains(p) <==> lists(all.take(i as int), p),
        decreases entries.len() - i,
    {
        let ghost done = out@;
        out = out.with(entries[i].path.as_str());
        proof {
            let before = all.take(i as int);
            let after = all.take(i + 1);
            assert(after =~= before.push(entries@[i as int]@));
            assert forall|p: Seq<PartModel>| #[trigger] out@.contains(p) <==> lists(after, p) by {
                assert(done.contains(p) <==> lists(before, p));
                lemma_lists_push(before, entries@[i as int]@, p);
            }
        }
        i = i + 1;
    }
    assert(all.take(i as int) =~= all);
    out
}

proof fn lemma_lists_push(entries: Seq<EntryModel>, entry: EntryModel, p: Seq<PartModel>)
    ensures
        lists(entries.push(entry), p) <==> lists(entries, p) || path::parts(entry.path) == p,
{
    let all = entries.push(entry);
    if lists(entries, p) {
        let k = choose|k: int|
            0 <= k < entries.len() && path::parts((#[trigger] entries[k]).path) == p;
        assert(all[k] == entries[k]);
    }
    assert(all[entries.len() as int] == entry);
    if lists(all, p) {
        let k = choose|k: int| 0 <= k < all.len() && path::parts((#[trigger] all[k]).path) == p;
        if k < entries.len() {
            assert(entries[k] == all[k]);
        }
    }
}

proof fn lemma_altered_push(
    before: Seq<EntryModel>,
    after: Seq<EntryModel>,
    entry: EntryModel,
    p: Seq<PartModel>,
)
    ensures
        altered(before, after.push(entry), p) <==> altered(before, after, p) || (path::parts(
            entry.path,
        ) == p && !unchanged(before, entry)),
{
    let all = after.push(entry);
    if altered(before, after, p) {
        let k = choose|k: int|
            0 <= k < after.len() && path::parts((#[trigger] after[k]).path) == p && !unchanged(
                before,
                after[k],
            );
        assert(all[k] == after[k]);
    }
    assert(all[after.len() as int] == entry);
    if altered(before, all, p) {
        let k = choose|k: int|
            0 <= k < all.len() && path::parts((#[trigger] all[k]).path) == p && !unchanged(
                before,
                all[k],
            );
        if k < after.len() {
            assert(after[k] == all[k]);
        }
    }
}

/// The paths that differ between two listings of a source. An entry counts as
/// unchanged only where both listings say that its contents are the same.
pub fn changed_paths(before: &Vec<Entry>, after: &Vec<Entry>) -> (r: PathSet)
    ensures
        forall|p: Seq<PartModel>| #[trigger]
            r@.contains(p) <==> differs(
                vfs::entry_views(before@),
                vfs::entry_views(after@),
                p,
            ),
{
    let ghost old_side = vfs::entry_views(before@);
    let ghost new_side = vfs::entry_views(after@);
    let index = index_of(before);
    let mut changed = PathSet::new();
    let mut i: usize = 0;
    while i < after.len()
        invariant
            i <= after.len(),
            old_side == vfs::entry_views(before@),
            new_side == vfs::entry_views(after@),
            index.wf(),
            indexes(index@, identities(old_side)),
            forall|p: Seq<PartModel>| #[trigger]
                changed@.contains(p) <==> altered(old_side, new_side.take(i as int), p),
        decreases after.len() - i,
    {
        let ghost done = changed@;
        let entry = &after[i];
        if !is_unchanged(&index, entry, Ghost(old_side)) {
            changed = changed.with(entry.path.as_str());
        }
        proof {
            let seen = new_side.take(i as int);
            assert(new_side.take(i + 1) =~= seen.push(entry@));
            assert forall|p: Seq<PartModel>| #[trigger] changed@.contains(p) <==> altered(
                old_side,
                new_side.take(i + 1),
                p,
            ) by {
                assert(done.contains(p) <==> altered(old_side, seen, p));
                lemma_altered_push(old_side, seen, entry@, p);
            }
        }
        i = i + 1;
    }
    assert(new_side.take(i as int) =~= new_side);
    let kept = paths_of(after);
    let mut k: usize = 0;
    while k < before.len()
        invariant
            k <= before.len(),
            old_side == vfs::entry_views(before@),
            forall|p: Seq<PartModel>| #[trigger] kept@.contains(p) <==> lists(new_side, p),
            forall|p: Seq<PartModel>| #[trigger]
                changed@.contains(p) <==> altered(old_side, new_side, p) || (lists(
                    old_side.take(k as int),
                    p,
                ) && !lists(new_side, p)),
        decreases before.len() - k,
    {
        let ghost done = changed@;
        let entry = &before[k];
        if !kept.contains(entry.path.as_str()) {
            changed = changed.with(entry.path.as_str());
        }
        proof {
            let seen = old_side.take(k as int);
            assert(old_side.take(k + 1) =~= seen.push(entry@));
            assert forall|p: Seq<PartModel>| #[trigger] changed@.contains(p) <==> altered(
                old_side,
                new_side,
                p,
            ) || (lists(old_side.take(k + 1), p) && !lists(new_side, p)) by {
                assert(done.contains(p) <==> altered(old_side, new_side, p) || (lists(seen, p)
                    && !lists(new_side, p)));
                assert(kept@.contains(path::parts(entry.path@)) <==> lists(
                    new_side,
                    path::parts(entry.path@),
                ));
                lemma_lists_push(seen, entry@, p);
            }
        }
        k = k + 1;
    }
    assert(old_side.take(k as int) =~= old_side);
    changed
}

/// No path is listed twice.
pub open spec fn each_once(entries: Seq<EntryModel>) -> bool {
    forall|i: int, j: int|
        0 <= i < j < entries.len() ==> path::parts((#[trigger] entries[i]).path) != path::parts(
            (#[trigger] entries[j]).path,
        )
}

/// Every entry says what identifies its contents.
pub open spec fn all_identified(entries: Seq<EntryModel>) -> bool {
    forall|i: int| 0 <= i < entries.len() ==> (#[trigger] entries[i]).content_id is Some
}

/// A listing that identifies its contents does not differ from itself.
pub proof fn law_a_listing_equals_itself(entries: Seq<EntryModel>, parts: Seq<PartModel>)
    requires
        each_once(entries),
        all_identified(entries),
    ensures
        !differs(entries, entries, parts),
{
    assert forall|i: int| 0 <= i < entries.len() implies unchanged(
        entries,
        #[trigger] entries[i],
    ) by {
        lemma_identity(entries, i);
    }
}

/// Where each path is listed once, the listing says what identifies it.
proof fn lemma_identity(entries: Seq<EntryModel>, i: int)
    requires
        each_once(entries),
        0 <= i < entries.len(),
    ensures
        identities(entries).dom().contains(path::parts(entries[i].path)),
        identities(entries)[path::parts(entries[i].path)] == entries[i].content_id,
    decreases entries.len(),
{
    if i < entries.len() - 1 {
        let rest = entries.drop_last();
        assert forall|a: int, b: int| 0 <= a < b < rest.len() implies path::parts(
            (#[trigger] rest[a]).path,
        ) != path::parts((#[trigger] rest[b]).path) by {
            assert(rest[a] == entries[a] && rest[b] == entries[b]);
        }
        lemma_identity(rest, i);
        assert(rest[i] == entries[i]);
        assert(path::parts(entries[i].path) != path::parts(entries[entries.len() - 1].path));
    }
}

/// A source that does not identify its contents reports every path that it
/// lists as different.
pub proof fn law_unidentified_contents_count_as_changed(
    before: Seq<EntryModel>,
    after: Seq<EntryModel>,
    i: int,
)
    requires
        0 <= i < after.len(),
        after[i].content_id is None,
    ensures
        differs(before, after, path::parts(after[i].path)),
{
}

/// A path that only one of two listings has differs.
pub proof fn law_additions_and_removals_differ(
    before: Seq<EntryModel>,
    after: Seq<EntryModel>,
    parts: Seq<PartModel>,
)
    requires
        lists(before, parts) != lists(after, parts),
    ensures
        differs(before, after, parts),
{
    if lists(after, parts) {
        let i = choose|i: int|
            0 <= i < after.len() && path::parts((#[trigger] after[i]).path) == parts;
        if unchanged(before, after[i]) {
            lemma_identities_listed(before, parts);
        }
    }
}

proof fn lemma_identities_listed(entries: Seq<EntryModel>, parts: Seq<PartModel>)
    ensures
        identities(entries).dom().contains(parts) <==> lists(entries, parts),
    decreases entries.len(),
{
    if entries.len() > 0 {
        lemma_identities_listed(entries.drop_last(), parts);
        lemma_lists_push(entries.drop_last(), entries.last(), parts);
        assert(entries.drop_last().push(entries.last()) =~= entries);
    }
}

/// The sum of what a measure says of each entry.
pub open spec fn measured(entries: Seq<EntryModel>, measure: spec_fn(EntryModel) -> int) -> int
    decreases entries.len(),
{
    if entries.len() == 0 {
        0
    } else {
        measured(entries.drop_last(), measure) + measure(entries.last())
    }
}

/// The entries at paths that differ between two listings.
pub open spec fn differing(
    entries: Seq<EntryModel>,
    before: Seq<EntryModel>,
    after: Seq<EntryModel>,
) -> Seq<EntryModel>
    decreases entries.len(),
{
    if entries.len() == 0 {
        Seq::empty()
    } else {
        let rest = differing(entries.drop_last(), before, after);
        if differs(before, after, path::parts(entries.last().path)) {
            rest.push(entries.last())
        } else {
            rest
        }
    }
}

/// The entries at paths that do not differ.
spec fn staying(
    entries: Seq<EntryModel>,
    before: Seq<EntryModel>,
    after: Seq<EntryModel>,
) -> Seq<EntryModel>
    decreases entries.len(),
{
    if entries.len() == 0 {
        Seq::empty()
    } else {
        let rest = staying(entries.drop_last(), before, after);
        if differs(before, after, path::parts(entries.last().path)) {
            rest
        } else {
            rest.push(entries.last())
        }
    }
}

proof fn lemma_measured_parts(
    entries: Seq<EntryModel>,
    before: Seq<EntryModel>,
    after: Seq<EntryModel>,
    measure: spec_fn(EntryModel) -> int,
)
    ensures
        measured(entries, measure) == measured(differing(entries, before, after), measure)
            + measured(staying(entries, before, after), measure),
    decreases entries.len(),
{
    if entries.len() > 0 {
        let rest = entries.drop_last();
        lemma_measured_parts(rest, before, after, measure);
        let a = differing(rest, before, after);
        let b = staying(rest, before, after);
        assert(a.push(entries.last()).drop_last() =~= a);
        assert(b.push(entries.last()).drop_last() =~= b);
    }
}

proof fn lemma_measured_remove(
    entries: Seq<EntryModel>,
    measure: spec_fn(EntryModel) -> int,
    i: int,
)
    requires
        0 <= i < entries.len(),
    ensures
        measured(entries, measure) == measured(entries.remove(i), measure) + measure(entries[i]),
    decreases entries.len(),
{
    let without = entries.remove(i);
    if i == entries.len() - 1 {
        assert(without =~= entries.drop_last());
    } else {
        let rest = entries.drop_last();
        lemma_measured_remove(rest, measure, i);
        assert(without.drop_last() =~= rest.remove(i));
        assert(without.last() == entries.last());
    }
}

/// Where two lists have the same paths, and a measure each that agree on them,
/// the measures of the lists agree.
proof fn lemma_measured_matched(
    s: Seq<EntryModel>,
    t: Seq<EntryModel>,
    of_s: spec_fn(EntryModel) -> int,
    of_t: spec_fn(EntryModel) -> int,
)
    requires
        each_once(s),
        each_once(t),
        forall|i: int| 0 <= i < s.len() ==> lists(t, path::parts((#[trigger] s[i]).path)),
        forall|j: int| 0 <= j < t.len() ==> lists(s, path::parts((#[trigger] t[j]).path)),
        forall|i: int, j: int|
            0 <= i < s.len() && 0 <= j < t.len() && path::parts((#[trigger] s[i]).path)
                == path::parts((#[trigger] t[j]).path) ==> of_s(s[i]) == of_t(t[j]),
    ensures
        measured(s, of_s) == measured(t, of_t),
    decreases t.len(),
{
    if t.len() == 0 {
        if s.len() > 0 {
            assert(lists(t, path::parts(s[0].path)));
        }
    } else {
        let last = t.last();
        let n = t.len() - 1;
        let rest = t.drop_last();
        assert(lists(s, path::parts(t[n].path)));
        let i = choose|i: int|
            0 <= i < s.len() && path::parts((#[trigger] s[i]).path) == path::parts(last.path);
        let fewer = s.remove(i);
        assert forall|a: int| 0 <= a < fewer.len() implies lists(
            rest,
            path::parts((#[trigger] fewer[a]).path),
        ) by {
            let b = if a < i {
                a
            } else {
                a + 1
            };
            assert(fewer[a] == s[b]);
            assert(path::parts(s[b].path) != path::parts(s[i].path));
            assert(lists(t, path::parts(s[b].path)));
            let k = choose|k: int|
                0 <= k < t.len() && path::parts((#[trigger] t[k]).path) == path::parts(s[b].path);
            assert(k != n);
            assert(rest[k] == t[k]);
        }
        assert forall|k: int| 0 <= k < rest.len() implies lists(
            fewer,
            path::parts((#[trigger] rest[k]).path),
        ) by {
            assert(rest[k] == t[k]);
            assert(path::parts(t[k].path) != path::parts(t[n].path));
            assert(lists(s, path::parts(t[k].path)));
            let b = choose|b: int|
                0 <= b < s.len() && path::parts((#[trigger] s[b]).path) == path::parts(t[k].path);
            assert(b != i);
            if b < i {
                assert(fewer[b] == s[b]);
            } else {
                assert(fewer[b - 1] == s[b]);
            }
        }
        assert forall|a: int, b: int| 0 <= a < b < fewer.len() implies path::parts(
            (#[trigger] fewer[a]).path,
        ) != path::parts((#[trigger] fewer[b]).path) by {
            let x = if a < i {
                a
            } else {
                a + 1
            };
            let y = if b < i {
                b
            } else {
                b + 1
            };
            assert(fewer[a] == s[x] && fewer[b] == s[y]);
        }
        assert forall|a: int, b: int| 0 <= a < b < rest.len() implies path::parts(
            (#[trigger] rest[a]).path,
        ) != path::parts((#[trigger] rest[b]).path) by {
            assert(rest[a] == t[a] && rest[b] == t[b]);
        }
        assert forall|a: int, k: int|
            0 <= a < fewer.len() && 0 <= k < rest.len() && path::parts((#[trigger] fewer[a]).path)
                == path::parts((#[trigger] rest[k]).path) implies of_s(fewer[a]) == of_t(
            rest[k],
        ) by {
            let b = if a < i {
                a
            } else {
                a + 1
            };
            assert(fewer[a] == s[b]);
            assert(rest[k] == t[k]);
        }
        lemma_measured_matched(fewer, rest, of_s, of_t);
        lemma_measured_remove(s, of_s, i);
        assert(of_s(s[i]) == of_t(t[n]));
    }
}

/// Each entry that stays is one of the entries, at a path that does not differ;
/// no path stays twice.
proof fn lemma_staying(entries: Seq<EntryModel>, before: Seq<EntryModel>, after: Seq<EntryModel>)
    requires
        each_once(entries),
    ensures
        each_once(staying(entries, before, after)),
        forall|i: int|
            0 <= i < staying(entries, before, after).len() ==> entries.contains(
                #[trigger] staying(entries, before, after)[i],
            ) && !differs(before, after, path::parts(staying(entries, before, after)[i].path)),
        forall|k: int|
            0 <= k < entries.len() && !differs(
                before,
                after,
                path::parts((#[trigger] entries[k]).path),
            ) ==> staying(entries, before, after).contains(entries[k]),
    decreases entries.len(),
{
    if entries.len() > 0 {
        let rest = entries.drop_last();
        let last = entries.last();
        let n = entries.len() - 1;
        assert forall|a: int, b: int| 0 <= a < b < rest.len() implies path::parts(
            (#[trigger] rest[a]).path,
        ) != path::parts((#[trigger] rest[b]).path) by {
            assert(rest[a] == entries[a] && rest[b] == entries[b]);
        }
        lemma_staying(rest, before, after);
        let kept = staying(rest, before, after);
        let all = staying(entries, before, after);
        assert forall|i: int| 0 <= i < all.len() implies entries.contains(#[trigger] all[i])
            && !differs(before, after, path::parts(all[i].path)) by {
            if i < kept.len() {
                assert(all[i] == kept[i]);
                assert(rest.contains(kept[i]));
                let k = choose|k: int| 0 <= k < rest.len() && rest[k] == kept[i];
                assert(entries[k] == kept[i]);
            } else {
                assert(all[i] == entries[n]);
            }
        }
        assert forall|a: int, b: int| 0 <= a < b < all.len() implies path::parts(
            (#[trigger] all[a]).path,
        ) != path::parts((#[trigger] all[b]).path) by {
            assert(all[a] == kept[a]);
            if b < kept.len() {
                assert(all[b] == kept[b]);
            } else {
                assert(rest.contains(kept[a]));
                let k = choose|k: int| 0 <= k < rest.len() && rest[k] == kept[a];
                assert(entries[k] == kept[a]);
                assert(all[b] == entries[n]);
            }
        }
        assert forall|k: int|
            0 <= k < entries.len() && !differs(
                before,
                after,
                path::parts((#[trigger] entries[k]).path),
            ) implies all.contains(entries[k]) by {
            if k < n {
                assert(rest[k] == entries[k]);
                assert(kept.contains(rest[k]));
                let i = choose|i: int| 0 <= i < kept.len() && kept[i] == rest[k];
                assert(all[i] == entries[k]);
            } else {
                assert(all[kept.len() as int] == entries[n]);
            }
        }
    }
}

/// Only paths that differ need to be counted to compare two sources: whatever
/// is counted of an entry by its path and its contents, the change is the same
/// without the others.
pub proof fn law_only_changes_need_counting(
    before: Seq<EntryModel>,
    after: Seq<EntryModel>,
    of_before: spec_fn(EntryModel) -> int,
    of_after: spec_fn(EntryModel) -> int,
)
    requires
        each_once(before),
        each_once(after),
        forall|i: int, j: int|
            0 <= i < before.len() && 0 <= j < after.len() && path::parts(
                (#[trigger] before[i]).path,
            ) == path::parts((#[trigger] after[j]).path) && after[j].content_id is Some
                && before[i].content_id == after[j].content_id ==> of_before(before[i])
                == of_after(after[j]),
    ensures
        measured(after, of_after) - measured(before, of_before) == measured(
            differing(after, before, after),
            of_after,
        ) - measured(differing(before, before, after), of_before),
{
    lemma_measured_parts(before, before, after, of_before);
    lemma_measured_parts(after, before, after, of_after);
    let s = staying(before, before, after);
    let t = staying(after, before, after);
    lemma_staying(before, before, after);
    lemma_staying(after, before, after);
    assert forall|i: int| 0 <= i < s.len() implies lists(
        t,
        path::parts((#[trigger] s[i]).path),
    ) by {
        let parts = path::parts(s[i].path);
        assert(before.contains(s[i]));
        let k = choose|k: int| 0 <= k < before.len() && before[k] == s[i];
        assert(path::parts(before[k].path) == parts);
        assert(lists(after, parts));
        let j = choose|j: int|
            0 <= j < after.len() && path::parts((#[trigger] after[j]).path) == parts;
        assert(t.contains(after[j]));
        let m = choose|m: int| 0 <= m < t.len() && t[m] == after[j];
        assert(path::parts(t[m].path) == parts);
    }
    assert forall|j: int| 0 <= j < t.len() implies lists(
        s,
        path::parts((#[trigger] t[j]).path),
    ) by {
        let parts = path::parts(t[j].path);
        assert(after.contains(t[j]));
        let k = choose|k: int| 0 <= k < after.len() && after[k] == t[j];
        assert(unchanged(before, after[k]));
        lemma_identities_listed(before, parts);
        let i = choose|i: int|
            0 <= i < before.len() && path::parts((#[trigger] before[i]).path) == parts;
        assert(s.contains(before[i]));
        let m = choose|m: int| 0 <= m < s.len() && s[m] == before[i];
        assert(path::parts(s[m].path) == parts);
    }
    assert forall|i: int, j: int|
        0 <= i < s.len() && 0 <= j < t.len() && path::parts((#[trigger] s[i]).path) == path::parts(
            (#[trigger] t[j]).path,
        ) implies of_before(s[i]) == of_after(t[j]) by {
        assert(before.contains(s[i]));
        let k = choose|k: int| 0 <= k < before.len() && before[k] == s[i];
        assert(after.contains(t[j]));
        let m = choose|m: int| 0 <= m < after.len() && after[m] == t[j];
        assert(unchanged(before, after[m]));
        lemma_identity(before, k);
    }
    lemma_measured_matched(s, t, of_before, of_after);
}

// ---------------------------------------------------------------------------
// What is counted
// ---------------------------------------------------------------------------

/// How to walk a source and what to count.
#[derive(Debug, Clone)]
pub struct WalkConfig {
    /// How lines are classified.
    pub count: CountConfig,
    /// Count only these languages, where set.
    pub languages: Option<Vec<LanguageId>>,
    /// Count files whose language is not known.
    pub include_unknown: bool,
    /// Read the first line of files without an extension to look for a shebang.
    pub use_shebangs: bool,
    /// Skip files that are larger than this, in bytes.
    pub max_file_size: Option<u64>,
    /// How many files to count at a time.
    pub concurrency: usize,
    /// Count only these paths, where set.
    pub only_paths: Option<PathSet>,
}

/// The size above which files are skipped unless something else is asked for.
pub const MAX_FILE_SIZE: u64 = 2097152;

/// How many files are counted at a time unless something else is asked for.
pub const CONCURRENCY: usize = 64;

impl Default for WalkConfig {
    fn default() -> (r: WalkConfig)
        ensures
            r.count.treat_doc_strings_as_comments,
            r.count.detect_test_blocks,
            r.count.skip_binary,
            r.languages is None,
            !r.include_unknown,
            r.use_shebangs,
            r.max_file_size == Some(MAX_FILE_SIZE),
            r.concurrency == CONCURRENCY,
            r.only_paths is None,
    {
        WalkConfig {
            count: CountConfig::default(),
            languages: None,
            include_unknown: false,
            use_shebangs: true,
            max_file_size: Some(MAX_FILE_SIZE),
            concurrency: CONCURRENCY,
            only_paths: None,
        }
    }
}

/// An entry passes every filter.
pub open spec fn candidate(globs: CompiledGlobs, config: WalkConfig, entry: EntryModel) -> bool {
    &&& globs.lets_through(entry.path)
    &&& config.only_paths matches Some(only) ==> only@.contains(path::parts(entry.path))
    &&& match (config.max_file_size, entry.size) {
        (Some(max), Some(size)) => size <= max,
        _ => true,
    }
}

/// The entries that pass every filter, in their order.
pub open spec fn passing(
    globs: CompiledGlobs,
    config: WalkConfig,
    entries: Seq<EntryModel>,
) -> Seq<EntryModel>
    decreases entries.len(),
{
    if entries.len() == 0 {
        Seq::empty()
    } else {
        let rest = passing(globs, config, entries.drop_last());
        if candidate(globs, config, entries.last()) {
            rest.push(entries.last())
        } else {
            rest
        }
    }
}

fn is_candidate(globs: &CompiledGlobs, config: &WalkConfig, entry: &Entry) -> (r: bool)
    ensures
        r == candidate(*globs, *config, entry@),
{
    let path = entry.path.as_str();
    let in_set = match &config.only_paths {
        Some(only) => only.contains(path),
        None => true,
    };
    let small = match (config.max_file_size, entry.size) {
        (Some(max), Some(size)) => size <= max,
        _ => true,
    };
    globs.allows(path) && in_set && small
}

/// The entries of a source that pass every filter, in their order.
pub fn candidates(entries: Vec<Entry>, globs: &CompiledGlobs, config: &WalkConfig) -> (r: Vec<
    Entry,
>)
    ensures
        vfs::entry_views(r@) == passing(*globs, *config, vfs::entry_views(entries@)),
{
    let ghost listed = entries@;
    let ghost all = vfs::entry_views(entries@);
    let mut out: Vec<Entry> = Vec::new();
    assert(vfs::entry_views(out@) =~= passing(*globs, *config, all.take(0)));
    for entry in it: entries.into_iter()
        invariant
            it.seq() == listed,
            all == vfs::entry_views(listed),
            vfs::entry_views(out@) == passing(*globs, *config, all.take(it.index())),
    {
        let ghost i = it.index();
        let ghost done = vfs::entry_views(out@);
        assert(all.take(i + 1).drop_last() =~= all.take(i));
        assert(all.take(i + 1).last() == entry@);
        if is_candidate(globs, config, &entry) {
            out.push(entry);
            assert(vfs::entry_views(out@) =~= done.push(entry@));
        }
    }
    assert(all.take(all.len() as int) =~= all);
    out
}

/// How many bytes of a file are read to look for a shebang.
pub const PEEK: usize = 128;

/// What precedes the first line feed.
pub open spec fn first_line(bytes: Seq<u8>) -> Seq<u8>
    decreases bytes.len(),
{
    if bytes.len() == 0 || bytes[0] == 0x0a {
        Seq::empty()
    } else {
        seq![bytes[0]] + first_line(bytes.skip(1))
    }
}

/// The part of a file that is read to look for a shebang.
pub open spec fn head(bytes: Seq<u8>) -> Seq<u8> {
    if bytes.len() > PEEK {
        bytes.take(PEEK as int)
    } else {
        bytes
    }
}

/// The language that the first line of a file names.
pub open spec fn shebang(languages: Seq<lang::LanguageDef>, bytes: Seq<u8>) -> Option<LanguageId> {
    let line = first_line(head(bytes));
    if vstd::utf8::valid_utf8(line) {
        lang::shebang_language(languages, vstd::utf8::decode_utf8(line))
    } else {
        None
    }
}

proof fn lemma_first_line(bytes: Seq<u8>, n: int)
    requires
        0 <= n <= bytes.len(),
        forall|k: int| 0 <= k < n ==> #[trigger] bytes[k] != 0x0a,
        n == bytes.len() || bytes[n] == 0x0a,
    ensures
        first_line(bytes) == bytes.take(n),
    decreases n,
{
    if n > 0 {
        let rest = bytes.skip(1);
        assert(bytes[0] != 0x0a);
        assert forall|k: int| 0 <= k < n - 1 implies #[trigger] rest[k] != 0x0a by {
            assert(rest[k] == bytes[k + 1]);
        }
        lemma_first_line(rest, n - 1);
        assert(seq![bytes[0]] + rest.take(n - 1) =~= bytes.take(n));
    } else {
        assert(bytes.take(0) =~= Seq::empty());
    }
}

/// The language that the first line of a file names. Only the start of the file
/// is needed.
pub fn shebang_of(registry: &Registry, bytes: &[u8]) -> (r: Option<LanguageId>)
    requires
        registry.wf(),
    ensures
        r == shebang(registry.langs(), bytes@),
        registry.knows(r),
{
    let limit = if bytes.len() > PEEK {
        PEEK
    } else {
        bytes.len()
    };
    let ghost start = head(bytes@);
    let mut n: usize = 0;
    while n < limit && bytes[n] != 0x0a
        invariant
            n <= limit <= bytes.len(),
            limit == start.len(),
            start == head(bytes@),
            forall|k: int| 0 <= k < n ==> #[trigger] start[k] != 0x0a,
        ensures
            n <= limit,
            forall|k: int| 0 <= k < n ==> #[trigger] start[k] != 0x0a,
            n == limit || start[n as int] == 0x0a,
        decreases limit - n,
    {
        n = n + 1;
    }
    proof {
        lemma_first_line(start, n as int);
    }
    let line = vstd::slice::slice_subrange(bytes, 0, n);
    assert(line@ =~= start.take(n as int));
    match text::decode(line) {
        Some(line) => registry.from_shebang(line),
        None => None,
    }
}

/// The name of a file does not tell its language, and its first line may.
pub open spec fn needs_shebang(
    languages: Seq<lang::LanguageDef>,
    config: WalkConfig,
    path: Seq<char>,
) -> bool {
    &&& lang::path_language(languages, path) is None
    &&& config.use_shebangs
    &&& path::extension(path) is None
}

/// Whether the first line of a file has to be read to tell its language.
pub fn wants_shebang(registry: &Registry, config: &WalkConfig, path: &str) -> (r: bool)
    requires
        registry.wf(),
    ensures
        r == needs_shebang(registry.langs(), *config, path@),
{
    registry.from_path(path).is_none() && config.use_shebangs && path::extension_of(path).is_none()
}

/// The language of a file, given what its first line names.
pub open spec fn language_of(
    languages: Seq<lang::LanguageDef>,
    config: WalkConfig,
    path: Seq<char>,
    named: Option<LanguageId>,
) -> Option<LanguageId> {
    if needs_shebang(languages, config, path) {
        named
    } else {
        lang::path_language(languages, path)
    }
}

/// Files of a language are counted.
pub open spec fn admitted(config: WalkConfig, language: Option<LanguageId>) -> bool {
    match language {
        Some(id) => config.languages matches Some(only) ==> only@.contains(id),
        None => config.include_unknown && config.languages is None,
    }
}

fn admits(config: &WalkConfig, language: Option<LanguageId>) -> (r: bool)
    ensures
        r == admitted(*config, language),
{
    match (&config.languages, language) {
        (Some(only), Some(id)) => {
            let mut i: usize = 0;
            while i < only.len()
                invariant
                    i <= only.len(),
                    config.languages == Some(*only),
                    language == Some(id),
                    forall|k: int| 0 <= k < i ==> #[trigger] only@[k] != id,
                decreases only.len() - i,
            {
                if only[i].0 == id.0 {
                    assert(only@[i as int] == id);
                    return true;
                }
                i = i + 1;
            }
            false
        },
        (Some(_), None) => false,
        (None, Some(_)) => true,
        (None, None) => config.include_unknown,
    }
}

/// What a file that is to be counted is counted as.
#[derive(Debug, Clone, Copy)]
pub struct Job {
    pub language: Option<LanguageId>,
    pub is_test_file: bool,
}

/// Decides whether the file at a path is counted, and as what. `named` is what
/// the first line names, which matters only where [`wants_shebang`] says so.
pub fn plan(
    registry: &Registry,
    config: &WalkConfig,
    path: &str,
    named: Option<LanguageId>,
) -> (r: Option<Job>)
    requires
        registry.wf(),
        registry.knows(named),
    ensures
        ({
            let language = language_of(registry.langs(), *config, path@, named);
            &&& r is Some <==> admitted(*config, language)
            &&& r matches Some(job) ==> job == (Job {
                language,
                is_test_file: registry.is_test_path(path@, language),
            }) && registry.knows(job.language)
        }),
{
    let mut language = registry.from_path(path);
    if wants_shebang(registry, config, path) {
        language = named;
    }
    if !admits(config, language) {
        return None;
    }
    let is_test_file = registry.path_is_test(path, language);
    Some(Job { language, is_test_file })
}

/// Counts a file as planned. `None` for a file that looks binary.
pub fn report_on(
    registry: &Registry,
    config: &WalkConfig,
    path: &str,
    job: Job,
    bytes: &[u8],
) -> (r: Option<FileReport>)
    requires
        registry.knows(job.language),
    ensures
        r is Some <==> !(config.count.skip_binary && count::looks_binary(bytes@)),
        r matches Some(file) ==> {
            &&& file.path@ == path@
            &&& file.language == job.language
            &&& file.is_test_file == job.is_test_file
            &&& file.stats@ == count::file_tally(
                Setup::of(
                    count::registry_syntax(*registry, job.language),
                    job.is_test_file,
                    config.count,
                ),
                bytes@,
            )
        },
{
    match count::count(registry, bytes, job.language, job.is_test_file, &config.count) {
        CountOutcome::Counted(stats) => Some(
            FileReport {
                path: path.to_owned(),
                language: job.language,
                is_test_file: job.is_test_file,
                stats,
            },
        ),
        CountOutcome::Binary => None,
    }
}

/// Counts the file at a path with these contents. `None` for a file that is not
/// counted: one of a language that is left out, or one that looks binary.
pub fn count_entry(registry: &Registry, config: &WalkConfig, path: &str, bytes: &[u8]) -> (r:
    Option<FileReport>)
    requires
        registry.wf(),
    ensures
        ({
            let named = shebang(registry.langs(), bytes@);
            let language = language_of(registry.langs(), *config, path@, named);
            let is_test_file = registry.is_test_path(path@, language);
            &&& r is Some <==> admitted(*config, language) && !(config.count.skip_binary
                && count::looks_binary(bytes@))
            &&& r matches Some(file) ==> {
                &&& file.path@ == path@
                &&& file.language == language
                &&& registry.knows(file.language)
                &&& file.is_test_file == is_test_file
                &&& file.stats@ == count::file_tally(
                    Setup::of(
                        count::registry_syntax(*registry, language),
                        is_test_file,
                        config.count,
                    ),
                    bytes@,
                )
            }
        }),
{
    let named = shebang_of(registry, bytes);
    match plan(registry, config, path, named) {
        Some(job) => report_on(registry, config, path, job, bytes),
        None => None,
    }
}

/// A language filter leaves out every file of another language, and every file
/// whose language is not known.
pub proof fn law_a_language_filter_is_strict(config: WalkConfig, language: Option<LanguageId>)
    requires
        config.languages is Some,
        language matches Some(id) ==> !config.languages->0@.contains(id),
    ensures
        !admitted(config, language),
{
}

// ---------------------------------------------------------------------------
// Bringing the counts together
// ---------------------------------------------------------------------------

/// A file that could not be counted.
#[derive(Debug)]
pub struct WalkError {
    pub path: String,
    /// What went wrong.
    pub error: String,
}

/// The files that were counted, in the order of the results.
pub open spec fn counted(results: Seq<Result<Option<FileReport>, WalkError>>) -> Seq<FileReport>
    decreases results.len(),
{
    if results.len() == 0 {
        Seq::empty()
    } else {
        let rest = counted(results.drop_last());
        match results.last() {
            Ok(Some(file)) => rest.push(file),
            _ => rest,
        }
    }
}

/// What went wrong, in the order of the results.
pub open spec fn failed(results: Seq<Result<Option<FileReport>, WalkError>>) -> Seq<WalkError>
    decreases results.len(),
{
    if results.len() == 0 {
        Seq::empty()
    } else {
        let rest = failed(results.drop_last());
        match results.last() {
            Err(error) => rest.push(error),
            _ => rest,
        }
    }
}

/// Splits the results of a walk into the files that were counted and those
/// that could not be. Files that were left out do not appear.
pub fn collect(results: Vec<Result<Option<FileReport>, WalkError>>) -> (r: (
    Report,
    Vec<WalkError>,
))
    ensures
        r.0@ == counted(results@),
        r.1@ == failed(results@),
{
    let ghost all = results@;
    let mut report = Report::new();
    let mut errors: Vec<WalkError> = Vec::new();
    for result in it: results.into_iter()
        invariant
            it.seq() == all,
            report@ == counted(all.take(it.index())),
            errors@ == failed(all.take(it.index())),
    {
        let ghost i = it.index();
        assert(all.take(i + 1).drop_last() =~= all.take(i));
        assert(all.take(i + 1).last() == result);
        match result {
            Ok(Some(file)) => {
                report.files.push(file);
            },
            Ok(None) => {},
            Err(error) => {
                errors.push(error);
            },
        }
    }
    assert(all.take(all.len() as int) =~= all);
    (report, errors)
}

// ---------------------------------------------------------------------------
// Laws of the walk
// ---------------------------------------------------------------------------

/// A glob is one of those that a pattern stands for: the pattern without the
/// white space around it, `dir/**` for the pattern `dir/`, and `**/name` for a
/// pattern `name` without a slash.
pub open spec fn is_form_of(glob: Seq<char>, pattern: Seq<char>) -> bool {
    let p = text::trimmed_of(pattern, CharClass::Space);
    &&& p.len() > 0
    &&& {
        ||| glob == p
        ||| p[p.len() - 1] == '/' && glob == p + "**"@
        ||| (forall|k: int| 0 <= k < p.len() ==> #[trigger] p[k] != '/') && glob == "**/"@ + p
    }
}

proof fn lemma_globs_for(pattern: Seq<char>, glob: Seq<char>)
    ensures
        globs_for(pattern).contains(glob) <==> is_form_of(glob, pattern),
{
    reveal_strlit("/**");
    reveal_strlit("**");
    reveal_strlit("**/");
    let p = text::trimmed_of(pattern, CharClass::Space);
    let own = globs_for(pattern);
    if p.len() > 0 {
        assert(own[0] == p);
        if p.last() == '/' {
            assert(p.contains('/'));
            assert(p.drop_last() + "/**"@ =~= p + "**"@);
            assert(own[1] == p + "**"@);
        } else if !p.contains('/') {
            assert forall|k: int| 0 <= k < p.len() implies #[trigger] p[k] != '/' by {
                assert(p.contains(p[k]));
            }
            assert(own[1] == "**/"@ + p);
        } else {
            let k = choose|k: int| 0 <= k < p.len() && p[k] == '/';
            assert(p[k] == '/');
        }
    }
}

/// Patterns stand for the forms of each of them, and for nothing more.
pub proof fn law_patterns_stand_for_their_forms_only(patterns: Seq<Seq<char>>, glob: Seq<char>)
    ensures
        expanded(patterns).contains(glob) <==> exists|i: int|
            0 <= i < patterns.len() && is_form_of(glob, #[trigger] patterns[i]),
    decreases patterns.len(),
{
    let all = expanded(patterns);
    if patterns.len() > 0 {
        let fewer = patterns.drop_last();
        let rest = expanded(fewer);
        let own = globs_for(patterns.last());
        law_patterns_stand_for_their_forms_only(fewer, glob);
        lemma_globs_for(patterns.last(), glob);
        if all.contains(glob) {
            let k = choose|k: int| 0 <= k < all.len() && all[k] == glob;
            if k < rest.len() {
                assert(rest[k] == glob);
                let i = choose|i: int|
                    0 <= i < fewer.len() && is_form_of(glob, #[trigger] fewer[i]);
                assert(is_form_of(glob, patterns[i]));
            } else {
                assert(own[k - rest.len()] == glob);
                assert(is_form_of(glob, patterns[patterns.len() - 1]));
            }
        }
        if exists|i: int| 0 <= i < patterns.len() && is_form_of(glob, #[trigger] patterns[i]) {
            let i = choose|i: int|
                0 <= i < patterns.len() && is_form_of(glob, #[trigger] patterns[i]);
            if i < fewer.len() {
                assert(is_form_of(glob, fewer[i]));
                let k = choose|k: int| 0 <= k < rest.len() && rest[k] == glob;
                assert(all[k] == glob);
            } else {
                let k = choose|k: int| 0 <= k < own.len() && own[k] == glob;
                assert(all[rest.len() + k] == glob);
            }
        }
    }
}

/// A pattern stands for one glob or for two, the pattern itself first, and a
/// blank one for none; more patterns stand for what each stands for, in turn.
pub proof fn law_patterns_are_taken_in_turn(patterns: Seq<Seq<char>>, pattern: Seq<char>)
    ensures
        ({
            let p = text::trimmed_of(pattern, CharClass::Space);
            let before = expanded(patterns);
            let after = expanded(patterns.push(pattern));
            let slashed = exists|k: int| 0 <= k < p.len() && #[trigger] p[k] == '/';
            &&& before.is_prefix_of(after)
            &&& p.len() == 0 ==> after.len() == before.len()
            &&& p.len() > 0 ==> after[before.len() as int] == p
            &&& p.len() > 0 && slashed && p[p.len() - 1] != '/' ==> after.len() == before.len() + 1
            &&& p.len() > 0 && (!slashed || p[p.len() - 1] == '/') ==> after.len() == before.len()
                + 2
        }),
{
    let p = text::trimmed_of(pattern, CharClass::Space);
    let all = patterns.push(pattern);
    assert(all.drop_last() =~= patterns);
    let before = expanded(patterns);
    let after = expanded(all);
    assert(after == before + globs_for(pattern));
    assert(after.take(before.len() as int) =~= before);
    if p.len() > 0 {
        if p.last() == '/' {
            assert(p[p.len() - 1] == '/');
        } else if p.contains('/') {
            let k = choose|k: int| 0 <= k < p.len() && p[k] == '/';
            assert(p[k] == '/');
        }
    }
}

/// A pattern matches a path: one of its forms does.
pub open spec fn pattern_matches(pattern: Seq<char>, path: Seq<char>) -> bool {
    exists|glob: Seq<char>| is_form_of(glob, pattern) && #[trigger] globs::glob_matches(glob, path)
}

/// A path is let through exactly if no pattern to exclude matches it and, where
/// there are patterns to keep, one of them does.
pub proof fn law_a_path_passes_by_its_patterns(
    compiled: CompiledGlobs,
    filters: Globs,
    path: Seq<char>,
)
    requires
        compiled.stands_for(filters),
    ensures
        compiled.lets_through(path) <==> {
            &&& forall|i: int|
                0 <= i < filters.excluded@.len() ==> !pattern_matches(
                    (#[trigger] filters.excluded@[i])@,
                    path,
                )
            &&& filters.included@.len() == 0 || exists|i: int|
                0 <= i < filters.included@.len() && pattern_matches(
                    (#[trigger] filters.included@[i])@,
                    path,
                )
        },
{
    lemma_any_matches(filters.excluded@, path);
    lemma_any_matches(filters.included@, path);
}

proof fn lemma_any_matches(patterns: Seq<String>, path: Seq<char>)
    ensures
        globs::any_matches(expanded(text::views(patterns)), path) <==> exists|i: int|
            0 <= i < patterns.len() && pattern_matches((#[trigger] patterns[i])@, path),
{
    let views = text::views(patterns);
    let all = expanded(views);
    if globs::any_matches(all, path) {
        let k = choose|k: int| 0 <= k < all.len() && globs::glob_matches(#[trigger] all[k], path);
        law_patterns_stand_for_their_forms_only(views, all[k]);
        let i = choose|i: int| 0 <= i < views.len() && is_form_of(all[k], #[trigger] views[i]);
        assert(views[i] == patterns[i]@);
        assert(pattern_matches(patterns[i]@, path));
    }
    if exists|i: int| 0 <= i < patterns.len() && pattern_matches((#[trigger] patterns[i])@, path) {
        let i = choose|i: int|
            0 <= i < patterns.len() && pattern_matches((#[trigger] patterns[i])@, path);
        let glob = choose|glob: Seq<char>|
            is_form_of(glob, patterns[i]@) && #[trigger] globs::glob_matches(glob, path);
        assert(views[i] == patterns[i]@);
        law_patterns_stand_for_their_forms_only(views, glob);
        assert(is_form_of(glob, views[i]));
        let k = choose|k: int| 0 <= k < all.len() && all[k] == glob;
        assert(globs::glob_matches(all[k], path));
    }
}

/// An entry is a candidate exactly if the filters let its path through, the
/// walk is not held to other paths, and it is not known to be too large.
pub proof fn law_each_filter_can_leave_an_entry_out(
    filters: CompiledGlobs,
    config: WalkConfig,
    entry: EntryModel,
)
    ensures
        passing(filters, config, seq![entry]) == if filters.lets_through(entry.path) && (
        config.only_paths is None || (config.only_paths->0)@.contains(path::parts(entry.path))) && (
        config.max_file_size is None || entry.size is None || entry.size->0
            <= config.max_file_size->0) {
            seq![entry]
        } else {
            Seq::empty()
        },
        MAX_FILE_SIZE == 2 * 1024 * 1024,
        PEEK == 128,
        CONCURRENCY == 64,
{
    reveal_with_fuel(passing, 2);
    let one = seq![entry];
    assert(one.drop_last() =~= Seq::empty());
    assert(passing(filters, config, Seq::empty()) =~= Seq::empty());
    assert(Seq::<EntryModel>::empty().push(entry) =~= one);
}

/// Each entry is judged on its own, and those that pass keep their order.
pub proof fn law_entries_are_judged_one_by_one(
    filters: CompiledGlobs,
    config: WalkConfig,
    a: Seq<EntryModel>,
    b: Seq<EntryModel>,
)
    ensures
        passing(filters, config, a + b) == passing(filters, config, a) + passing(
            filters,
            config,
            b,
        ),
    decreases b.len(),
{
    if b.len() == 0 {
        assert(a + b =~= a);
        assert(passing(filters, config, a) + passing(filters, config, b) =~= passing(
            filters,
            config,
            a,
        ));
    } else {
        assert((a + b).drop_last() =~= a + b.drop_last());
        assert((a + b).last() == b.last());
        law_entries_are_judged_one_by_one(filters, config, a, b.drop_last());
        assert(passing(filters, config, a + b) =~= passing(filters, config, a) + passing(
            filters,
            config,
            b,
        ));
    }
}

/// Entry `j` is the last of a listing at its path.
pub open spec fn is_last_at(entries: Seq<EntryModel>, parts: Seq<PartModel>, j: int) -> bool {
    &&& 0 <= j < entries.len()
    &&& path::parts(entries[j].path) == parts
    &&& forall|k: int| j < k < entries.len() ==> path::parts((#[trigger] entries[k]).path) != parts
}

proof fn lemma_last_identity(entries: Seq<EntryModel>, parts: Seq<PartModel>, j: int)
    requires
        is_last_at(entries, parts, j),
    ensures
        identities(entries).dom().contains(parts),
        identities(entries)[parts] == entries[j].content_id,
    decreases entries.len(),
{
    if j < entries.len() - 1 {
        let rest = entries.drop_last();
        assert(rest[j] == entries[j]);
        assert forall|k: int| j < k < rest.len() implies path::parts((#[trigger] rest[k]).path)
            != parts by {
            assert(rest[k] == entries[k]);
        }
        lemma_last_identity(rest, parts, j);
        assert(path::parts(entries[entries.len() - 1].path) != parts);
    }
}

proof fn lemma_last_exists(entries: Seq<EntryModel>, parts: Seq<PartModel>, i: int) -> (j: int)
    requires
        0 <= i < entries.len(),
        path::parts(entries[i].path) == parts,
    ensures
        is_last_at(entries, parts, j),
    decreases entries.len() - i,
{
    if exists|k: int| i < k < entries.len() && path::parts((#[trigger] entries[k]).path) == parts {
        let k = choose|k: int|
            i < k < entries.len() && path::parts((#[trigger] entries[k]).path) == parts;
        lemma_last_exists(entries, parts, k)
    } else {
        i
    }
}

/// A path differs exactly if it was removed, or if some entry there now is not
/// known to hold what the last entry there held before.
pub proof fn law_what_differs_is_what_is_not_known_to_be_the_same(
    before: Seq<EntryModel>,
    after: Seq<EntryModel>,
    parts: Seq<PartModel>,
)
    ensures
        differs(before, after, parts) <==> {
            ||| {
                &&& exists|j: int|
                    0 <= j < before.len() && path::parts((#[trigger] before[j]).path) == parts
                &&& forall|i: int|
                    0 <= i < after.len() ==> path::parts((#[trigger] after[i]).path) != parts
            }
            ||| exists|i: int|
                0 <= i < after.len() && path::parts((#[trigger] after[i]).path) == parts && !(
                after[i].content_id is Some && exists|j: int| #[trigger]
                    is_last_at(before, parts, j) && before[j].content_id == after[i].content_id)
        },
{
    assert forall|i: int|
        0 <= i < after.len() && path::parts((#[trigger] after[i]).path) == parts implies (unchanged(
        before,
        after[i],
    ) <==> after[i].content_id is Some && exists|j: int| #[trigger] is_last_at(before, parts, j)
        && before[j].content_id == after[i].content_id) by {
        lemma_identities_listed(before, parts);
        if lists(before, parts) {
            let k = choose|k: int|
                0 <= k < before.len() && path::parts((#[trigger] before[k]).path) == parts;
            let j = lemma_last_exists(before, parts, k);
            lemma_last_identity(before, parts, j);
            assert(is_last_at(before, parts, j));
        }
        if exists|j: int| #[trigger] is_last_at(before, parts, j) && before[j].content_id
            == after[i].content_id {
            let j = choose|j: int| #[trigger] is_last_at(before, parts, j) && before[j].content_id
                == after[i].content_id;
            lemma_last_identity(before, parts, j);
        }
    }
}

/// The first line is what stands before the first line feed, and all of the
/// bytes where there is none. Only the first 128 bytes are looked at.
pub proof fn law_the_first_line_names_the_language(
    languages: Seq<lang::LanguageDef>,
    line: Seq<u8>,
    rest: Seq<u8>,
)
    requires
        forall|k: int| 0 <= k < line.len() ==> #[trigger] line[k] != 0x0a,
    ensures
        ({
            let seen = if line.len() > 128 {
                line.take(128)
            } else {
                line
            };
            let named = if vstd::utf8::valid_utf8(seen) {
                lang::shebang_language(languages, vstd::utf8::decode_utf8(seen))
            } else {
                None
            };
            &&& shebang(languages, line) == named
            &&& shebang(languages, line.push(0x0au8) + rest) == named
        }),
{
    let seen = if line.len() > 128 {
        line.take(128)
    } else {
        line
    };
    lemma_first_line(head(line), head(line).len() as int);
    assert(head(line) =~= seen);
    assert(seen.take(seen.len() as int) =~= seen);
    let all = line.push(0x0au8) + rest;
    let top = head(all);
    let n = seen.len() as int;
    assert forall|k: int| 0 <= k < n implies #[trigger] top[k] != 0x0a by {
        assert(top[k] == line[k]);
    }
    if n < top.len() {
        assert(line.len() < 128);
        assert(top[n] == all[n]);
    }
    lemma_first_line(top, n);
    assert(top.take(n) =~= seen);
}

/// A language that the path tells is never overruled. What the first line names
/// counts exactly for a file without an extension, where that is asked for.
pub proof fn law_the_path_comes_before_the_first_line(
    languages: Seq<lang::LanguageDef>,
    config: WalkConfig,
    path: Seq<char>,
    named: Option<LanguageId>,
)
    ensures
        lang::path_language(languages, path) is Some ==> language_of(languages, config, path, named)
            == lang::path_language(languages, path),
        lang::path_language(languages, path) is None && config.use_shebangs && path::extension(
            path,
        ) is None ==> language_of(languages, config, path, named) == named,
        lang::path_language(languages, path) is None && (!config.use_shebangs || path::extension(
            path,
        ) is Some) ==> language_of(languages, config, path, named) is None,
        needs_shebang(languages, config, path) ==> language_of(languages, config, path, named)
            == named,
        !needs_shebang(languages, config, path) ==> language_of(languages, config, path, named)
            == language_of(languages, config, path, None),
{
}

/// Without a language filter every known language is counted, and what is not
/// known is counted where that is asked for. With one, exactly its languages
/// are.
pub proof fn law_languages_are_counted_as_asked_for(
    config: WalkConfig,
    language: Option<LanguageId>,
)
    ensures
        config.languages is None && language is Some ==> admitted(config, language),
        config.languages is None && language is None ==> admitted(config, language)
            == config.include_unknown,
        config.languages is Some && language is None ==> !admitted(config, language),
        config.languages is Some && language is Some ==> (admitted(config, language) <==> exists|
            i: int,
        |
            0 <= i < config.languages->0@.len() && #[trigger] config.languages->0@[i]
                == language->0),
{
    if config.languages is Some && language is Some {
        let only = config.languages->0@;
        if only.contains(language->0) {
            let i = choose|i: int| 0 <= i < only.len() && only[i] == language->0;
            assert(only[i] == language->0);
        }
    }
}

/// Every result ends up as one report or as one failure, or was left out, and
/// each keeps its place among its like.
pub proof fn law_each_result_is_reported_once(
    results: Seq<Result<Option<FileReport>, WalkError>>,
    result: Result<Option<FileReport>, WalkError>,
)
    ensures
        counted(Seq::empty()).len() == 0,
        failed(Seq::empty()).len() == 0,
        counted(results.push(result)) == match result {
            Ok(Some(file)) => counted(results).push(file),
            Ok(None) => counted(results),
            Err(_) => counted(results),
        },
        failed(results.push(result)) == match result {
            Err(error) => failed(results).push(error),
            Ok(_) => failed(results),
        },
{
    assert(results.push(result).drop_last() =~= results);
}

} // verus!
