//! Which sources are counted: what the arguments name, and what is compared
//! when they name nothing.

use vstd::prelude::*;

use crate::cli;
use crate::cli::Cli;
use crate::path;
use crate::path_ref;
use crate::path_ref::{PathRef, RefModel};
use crate::text;
use crate::vfs;
use crate::vfs::git;
use crate::vfs::EmptyVfs;

verus! {

// ---------------------------------------------------------------------------
// The default branch
// ---------------------------------------------------------------------------

/// The name of the branch behind a full reference to a remote branch.
pub open spec fn remote_branch(full: Seq<char>) -> Option<Seq<char>> {
    if "refs/remotes/"@.is_prefix_of(full) {
        Some(full.skip("refs/remotes/"@.len() as int))
    } else {
        None
    }
}

/// The branches that are tried, in this order, where the remote does not say
/// which is the default. A remote branch goes before a local one.
pub open spec fn conventional() -> Seq<Seq<char>> {
    seq!["origin/main"@, "origin/master"@, "main"@, "master"@]
}

/// The branches that are tried, in this order, where the remote does not say
/// which is the default.
pub fn fallbacks() -> (r: Vec<String>)
    ensures
        text::views(r@) == conventional(),
{
    let names = vec![
        "origin/main".to_owned(),
        "origin/master".to_owned(),
        "main".to_owned(),
        "master".to_owned(),
    ];
    assert(text::views(names@) =~= conventional());
    names
}

/// The first of some names that `known` says there is.
pub open spec fn first_known(names: Seq<Seq<char>>, known: Seq<bool>) -> Option<Seq<char>>
    decreases names.len(),
{
    if names.len() == 0 || known.len() == 0 {
        None
    } else if known[0] {
        Some(names[0])
    } else {
        first_known(names.skip(1), known.skip(1))
    }
}

/// The default branch: what the remote's own `HEAD` points at, else the first
/// conventional branch that there is.
pub open spec fn default_branch_of(
    origin_head: Option<Seq<char>>,
    known: Seq<bool>,
) -> Option<Seq<char>> {
    match origin_head {
        Some(full) => match remote_branch(full) {
            Some(branch) => Some(branch),
            None => first_known(conventional(), known),
        },
        None => first_known(conventional(), known),
    }
}

/// The default branch. `origin_head` is what `refs/remotes/origin/HEAD` points
/// at, if there is one, and `known` says of each of the [`fallbacks`] whether
/// there is such a branch.
pub fn default_branch(origin_head: Option<&str>, known: &Vec<bool>) -> (r: Option<String>)
    ensures
        r is Some <==> default_branch_of(str_view(origin_head), known@) is Some,
        r matches Some(branch) ==> default_branch_of(str_view(origin_head), known@) == Some(
            branch@,
        ),
{
    if let Some(full) = origin_head {
        if text::starts_with(full, "refs/remotes/") {
            proof {
                reveal_strlit("refs/remotes/");
            }
            let n = full.unicode_len();
            let branch = text::slice(full, 13, n);
            assert(branch@ =~= full@.skip(13));
            return Some(branch);
        }
    }
    let names = fallbacks();
    let ghost all = conventional();
    let mut i: usize = 0;
    assert(all.skip(0) =~= all);
    assert(known@.skip(0) =~= known@);
    while i < names.len() && i < known.len()
        invariant
            i <= names.len(),
            i <= known.len(),
            all == text::views(names@),
            default_branch_of(str_view(origin_head), known@) == first_known(
                all.skip(i as int),
                known@.skip(i as int),
            ),
        decreases names.len() - i,
    {
        assert(all.skip(i as int)[0] == names@[i as int]@);
        assert(known@.skip(i as int)[0] == known@[i as int]);
        if known[i] {
            return Some(names[i].clone());
        }
        assert(all.skip(i as int).skip(1) =~= all.skip(i + 1));
        assert(known@.skip(i as int).skip(1) =~= known@.skip(i + 1));
        i = i + 1;
    }
    None
}

/// A text that may be missing, as a sequence of characters.
pub open spec fn str_view(s: Option<&str>) -> Option<Seq<char>> {
    match s {
        Some(s) => Some(s@),
        None => None,
    }
}

/// The local branch behind a branch that may be a remote one.
pub open spec fn local_branch(branch: Seq<char>) -> Seq<char> {
    if "origin/"@.is_prefix_of(branch) {
        branch.skip("origin/"@.len() as int)
    } else {
        branch
    }
}

/// Whether the branch that is checked out, if any is, is `branch` or the local
/// branch behind it.
pub fn on_branch(head: Option<&str>, branch: &str) -> (r: bool)
    ensures
        r == (str_view(head) == Some(local_branch(branch@))),
{
    proof {
        reveal_strlit("origin/");
    }
    let local = if text::starts_with(branch, "origin/") {
        let n = branch.unicode_len();
        let rest = text::slice(branch, 7, n);
        assert(rest@ =~= branch@.skip(7));
        rest
    } else {
        branch.to_owned()
    };
    match head {
        Some(head) => text::same(head, local.as_str()),
        None => false,
    }
}

// ---------------------------------------------------------------------------
// What is counted
// ---------------------------------------------------------------------------

/// What the arguments ask for.
#[derive(Debug)]
pub enum Request {
    /// Whatever suits the current directory.
    Default,
    /// Count one source.
    Single(PathRef),
    /// The change from the first source to the second.
    Change(PathRef, PathRef),
}

/// What to do when no source is named.
#[derive(Debug, PartialEq, Eq)]
pub enum DefaultPlan {
    /// There is no working tree: count the current directory.
    Here,
    /// There is no default branch: count the working tree, and say so.
    NoBranch,
    /// There is no change to report: count the working tree.
    Tree,
    /// Compare the working tree with where it left this branch.
    Compare(String),
}

/// Decides what to do when no source is named. `has_tree` says whether there is
/// a working tree, `branch` is the default branch and `head` the branch that is
/// checked out. `dirty` says whether anything is uncommitted; it matters only
/// on the default branch.
pub fn default_plan(has_tree: bool, branch: Option<&str>, head: Option<&str>, dirty: bool) -> (r:
    DefaultPlan)
    ensures
        !has_tree ==> r is Here,
        has_tree && branch is None ==> r is NoBranch,
        has_tree && branch is Some ==> {
            let settled = str_view(head) == Some(local_branch(branch->0@)) && !dirty;
            &&& settled ==> r is Tree
            &&& !settled ==> r is Compare && r->Compare_0@ == branch->0@
        },
{
    if !has_tree {
        return DefaultPlan::Here;
    }
    match branch {
        None => DefaultPlan::NoBranch,
        Some(branch) => if on_branch(head, branch) && !dirty {
            DefaultPlan::Tree
        } else {
            DefaultPlan::Compare(branch.to_owned())
        },
    }
}

/// What the working tree is compared with: where it left the default branch or,
/// where the two have no commit in common, that branch itself.
pub open spec fn baseline_of(branch: Seq<char>, in_common: bool) -> RefModel {
    if in_common {
        RefModel::GitMergeBase(branch, "HEAD"@)
    } else {
        RefModel::GitCommitish(branch)
    }
}

/// What the working tree is compared with. `in_common` says whether the default
/// branch and what is checked out have a commit in common; an unborn `HEAD` and
/// an orphan branch have none.
pub fn baseline(branch: &str, in_common: bool) -> (r: PathRef)
    ensures
        r@ == baseline_of(branch@, in_common),
{
    if in_common {
        PathRef::GitMergeBase(branch.to_owned(), "HEAD".to_owned())
    } else {
        PathRef::GitCommitish(branch.to_owned())
    }
}

/// The path of a source on disk, before it is narrowed.
pub open spec fn fs_root_of(args: Cli, path: Seq<char>) -> Seq<char> {
    match args.repo {
        Some(base) => path::appended(base@, path),
        None => path,
    }
}

/// A path on disk, narrowed to the subdirectory that is asked for.
pub open spec fn narrowed(args: Cli, root: Seq<char>) -> Seq<char> {
    match cli::subdirectory(vfs::text_view(args.subdir)) {
        Some(subdir) => path::appended(root, subdir),
        None => root,
    }
}

/// What a source would be called if it were there.
pub open spec fn name_of(args: Cli, source: RefModel) -> Seq<char> {
    let subdir = cli::subdirectory(vfs::text_view(args.subdir));
    match source {
        RefModel::Fs(path) => narrowed(args, fs_root_of(args, path)),
        RefModel::GitCommitish(revision) => git::label_of(revision, subdir),
        RefModel::GitMergeBase(one, two) => git::label_of(
            "merge-base("@ + one + ", "@ + two + ")"@,
            subdir,
        ),
    }
}

/// The subdirectory that is asked for; empty where there is none.
pub open spec fn subdirectory_text(args: Cli) -> Seq<char> {
    match cli::subdirectory(vfs::text_view(args.subdir)) {
        Some(subdir) => subdir,
        None => Seq::empty(),
    }
}

impl Cli {
    /// What the arguments ask for.
    pub fn request(&self) -> (r: Request)
        requires
            self.refs@.len() <= 2,
        ensures
            self.refs@.len() == 0 ==> r is Default,
            self.refs@.len() == 1 ==> r is Single && r->Single_0@ == self.refs@[0]@,
            self.refs@.len() == 2 ==> r is Change && r->Change_0@ == self.refs@[0]@ && r->Change_1@
                == self.refs@[1]@,
    {
        if self.refs.len() == 0 {
            Request::Default
        } else if self.refs.len() == 1 {
            Request::Single(self.refs[0].copy())
        } else {
            Request::Change(self.refs[0].copy(), self.refs[1].copy())
        }
    }

    /// The path of a source on disk, before it is narrowed. A path that starts
    /// at the root stands for itself.
    pub fn fs_root(&self, path: &str) -> (r: String)
        ensures
            r@ == fs_root_of(*self, path@),
    {
        match &self.repo {
            Some(base) => path::join(base.as_str(), path),
            None => path.to_owned(),
        }
    }

    /// The directory that everything is resolved against.
    pub fn base_dir(&self) -> (r: String)
        ensures
            r@ == match self.repo {
                Some(base) => base@,
                None => "."@,
            },
    {
        match &self.repo {
            Some(base) => base.clone(),
            None => ".".to_owned(),
        }
    }

    /// A path on disk, narrowed to the subdirectory that is asked for.
    pub fn narrow(&self, root: &str) -> (r: String)
        ensures
            r@ == narrowed(*self, root@),
    {
        match self.subdir() {
            Some(subdir) => path::join(root, subdir.as_str()),
            None => root.to_owned(),
        }
    }

    /// A stand-in for a source that does not have the subdirectory that is
    /// asked for. It is called what the source would have been called.
    pub fn absent(&self, source: &PathRef) -> (r: EmptyVfs)
        ensures
            r.description() == name_of(*self, source@) + " (absent)"@,
    {
        let subdir = self.subdir();
        let inner = match &subdir {
            Some(subdir) => Some(subdir.as_str()),
            None => None,
        };
        let mut name = match source {
            PathRef::Fs(path) => {
                let root = self.fs_root(path.as_str());
                self.narrow(root.as_str())
            },
            PathRef::GitCommitish(revision) => git::describe(revision.as_str(), inner),
            PathRef::GitMergeBase(one, two) => {
                let label = git::merge_base_label(one.as_str(), two.as_str());
                git::describe(label.as_str(), inner)
            },
        };
        name.append(" (absent)");
        EmptyVfs::new(name.as_str())
    }

    fn subdir_text(&self) -> (r: String)
        ensures
            r@ == subdirectory_text(*self),
    {
        match self.subdir() {
            Some(subdir) => subdir,
            None => String::new(),
        }
    }

    /// Two sources to compare, of which `found` says whether they have the
    /// subdirectory that is asked for. One that does not is given a stand-in,
    /// since the directory may have been added or removed. Where neither has
    /// it, that is an error.
    pub fn pair(&self, before: &PathRef, after: &PathRef, found: (bool, bool)) -> (r: Result<
        (Option<EmptyVfs>, Option<EmptyVfs>),
        String,
    >)
        ensures
            r is Err <==> !found.0 && !found.1,
            r matches Ok(stand_ins) ==> {
                &&& stand_ins.0 is None <==> found.0
                &&& stand_ins.1 is None <==> found.1
                &&& stand_ins.0 matches Some(empty) ==> empty.description() == name_of(
                    *self,
                    before@,
                ) + " (absent)"@
                &&& stand_ins.1 matches Some(empty) ==> empty.description() == name_of(
                    *self,
                    after@,
                ) + " (absent)"@
            },
            r matches Err(message) ==> message@ == subdirectory_text(*self)
                + " does not exist in "@ + path_ref::written(before@) + " or in "@
                + path_ref::written(after@),
    {
        if !found.0 && !found.1 {
            let mut message = self.subdir_text();
            message.append(" does not exist in ");
            message.append(before.to_string().as_str());
            message.append(" or in ");
            message.append(after.to_string().as_str());
            return Err(message);
        }
        let first = if found.0 {
            None
        } else {
            Some(self.absent(before))
        };
        let second = if found.1 {
            None
        } else {
            Some(self.absent(after))
        };
        Ok((first, second))
    }

    /// A single source has to have the subdirectory that is asked for.
    pub fn require(&self, source: &PathRef, found: bool) -> (r: Result<(), String>)
        ensures
            r is Ok <==> found,
            r matches Err(message) ==> message@ == subdirectory_text(*self)
                + " does not exist in "@ + path_ref::written(source@),
    {
        if found {
            return Ok(());
        }
        let mut message = self.subdir_text();
        message.append(" does not exist in ");
        message.append(source.to_string().as_str());
        Err(message)
    }
}

/// A remote's own default branch is preferred over any conventional one.
pub proof fn law_the_remote_decides(branch: Seq<char>, known: Seq<bool>)
    ensures
        default_branch_of(Some("refs/remotes/"@ + branch), known) == Some(branch),
{
    reveal_strlit("refs/remotes/");
    let full = "refs/remotes/"@ + branch;
    assert("refs/remotes/"@ =~= full.subrange(0, 13));
    assert(full.skip(13) =~= branch);
}

/// Without a remote branch that it names, the first of the conventional branches
/// that there is is the default: the remote ones first, `main` before `master`.
/// Where there is none of them, there is no default.
pub proof fn law_conventional_branches_come_in_order(
    origin_head: Option<Seq<char>>,
    known: Seq<bool>,
)
    requires
        known.len() == 4,
        origin_head is None || !"refs/remotes/"@.is_prefix_of(origin_head->0),
    ensures
        default_branch_of(origin_head, known) == if known[0] {
            Some("origin/main"@)
        } else if known[1] {
            Some("origin/master"@)
        } else if known[2] {
            Some("main"@)
        } else if known[3] {
            Some("master"@)
        } else {
            None
        },
{
    reveal_with_fuel(first_known, 5);
}

/// The local branch behind a remote one is called the same without the remote;
/// any other branch is its own.
pub proof fn law_remote_branches_have_local_names(branch: Seq<char>)
    ensures
        local_branch("origin/"@ + branch) == branch,
        !"origin/"@.is_prefix_of(branch) ==> local_branch(branch) == branch,
{
    reveal_strlit("origin/");
    let full = "origin/"@ + branch;
    assert(full.subrange(0, 7) =~= "origin/"@);
    assert(full.skip(7) =~= branch);
}

/// The working tree is compared with where it left the branch; with the branch
/// itself where the two have nothing in common.
pub proof fn law_the_baseline_is_where_the_branch_was_left(branch: Seq<char>)
    ensures
        baseline_of(branch, true) == RefModel::GitMergeBase(branch, "HEAD"@),
        baseline_of(branch, false) == RefModel::GitCommitish(branch),
{
}

/// A source is called by its path, its revision or its merge base. The directory
/// to run in stands before a path that does not start at the root, and the
/// subdirectory behind.
pub proof fn law_sources_are_called_by_what_they_are(
    args: Cli,
    path: Seq<char>,
    one: Seq<char>,
    two: Seq<char>,
)
    ensures
        ({
            let sub = cli::subdirectory(vfs::text_view(args.subdir));
            let root = if args.repo is Some {
                path::appended((args.repo->0)@, path)
            } else {
                path
            };
            let base = "merge-base("@ + one + ", "@ + two + ")"@;
            &&& sub is None ==> {
                &&& name_of(args, RefModel::Fs(path)) == root
                &&& name_of(args, RefModel::GitCommitish(one)) == one
                &&& name_of(args, RefModel::GitMergeBase(one, two)) == base
                &&& subdirectory_text(args).len() == 0
            }
            &&& sub is Some ==> {
                &&& name_of(args, RefModel::Fs(path)) == path::appended(root, sub->0)
                &&& sub->0.len() > 0 ==> name_of(args, RefModel::GitCommitish(one)) == one + ":"@
                    + sub->0
                &&& sub->0.len() > 0 ==> name_of(args, RefModel::GitMergeBase(one, two)) == base
                    + ":"@ + sub->0
                &&& subdirectory_text(args) == sub->0
            }
        }),
{
}

} // verus!
