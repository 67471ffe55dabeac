//! A directory on disk as a source: which of its files are to be listed, and
//! how they appear.

use vstd::prelude::*;

use crate::path;
use crate::text;
use crate::vfs::ignore_vfs;
use crate::vfs::{Entry, EntryModel};

verus! {

/// Which ignore rules apply while a directory is walked.
#[derive(Debug, Clone)]
pub struct IgnoreConfig {
    /// Honour `.gitignore`, `.git/info/exclude` and the global gitignore.
    pub respect_gitignore: bool,
    /// Honour `.ignore` and `.slopcountignore`.
    pub respect_ignore_files: bool,
    /// Descend into dot-directories and count dotfiles.
    pub include_hidden: bool,
    /// Leave out `.git` and its like, at any depth, whatever the rest says.
    pub skip_vcs_dirs: bool,
    /// Follow symbolic links.
    pub follow_links: bool,
    /// Names of further ignore files to honour.
    pub custom_ignore_files: Vec<String>,
}

impl Default for IgnoreConfig {
    /// Honours every ignore file and skips what is hidden.
    fn default() -> (r: IgnoreConfig)
        ensures
            r.respect_gitignore,
            r.respect_ignore_files,
            !r.include_hidden,
            r.skip_vcs_dirs,
            !r.follow_links,
            text::views(r.custom_ignore_files@) == seq![".slopcountignore"@],
    {
        let custom_ignore_files = vec![".slopcountignore".to_owned()];
        assert(text::views(custom_ignore_files@) =~= seq![".slopcountignore"@]);
        IgnoreConfig {
            respect_gitignore: true,
            respect_ignore_files: true,
            include_hidden: false,
            skip_vcs_dirs: true,
            follow_links: false,
            custom_ignore_files,
        }
    }
}

impl IgnoreConfig {
    /// Counts everything but version control, whatever ignore files say.
    pub fn none() -> (r: IgnoreConfig)
        ensures
            !r.respect_gitignore,
            !r.respect_ignore_files,
            r.include_hidden,
            r.skip_vcs_dirs,
            !r.follow_links,
            r.custom_ignore_files@.len() == 0,
    {
        IgnoreConfig {
            respect_gitignore: false,
            respect_ignore_files: false,
            include_hidden: true,
            skip_vcs_dirs: true,
            follow_links: false,
            custom_ignore_files: Vec::new(),
        }
    }
}

/// How a directory is to be walked.
#[derive(Debug)]
pub struct WalkOptions {
    /// Skip hidden files.
    pub skip_hidden: bool,
    /// Follow symbolic links.
    pub follow_links: bool,
    /// Honour `.gitignore`, whether or not the directory is in a repository,
    /// and what git itself excludes.
    pub git_rules: bool,
    /// Honour `.ignore`.
    pub ignore_rules: bool,
    /// Names of further ignore files.
    pub custom_names: Vec<String>,
    /// Globs that are left out of the walk, each behind a `!`.
    pub overrides: Vec<String>,
}

/// What is left out of a walk that skips the directories of version control. A
/// pattern without a slash holds at any depth.
pub open spec fn vcs_overrides() -> Seq<Seq<char>> {
    seq!["!.git"@, "!.hg"@, "!.svn"@, "!.jj"@]
}

/// The options carry out a configuration.
pub open spec fn carries_out(options: WalkOptions, config: IgnoreConfig) -> bool {
    &&& options.skip_hidden == !config.include_hidden
    &&& options.follow_links == config.follow_links
    &&& options.git_rules == config.respect_gitignore
    &&& options.ignore_rules == config.respect_ignore_files
    &&& text::views(options.custom_names@) == if config.respect_ignore_files {
        text::views(config.custom_ignore_files@)
    } else {
        Seq::empty()
    }
    &&& text::views(options.overrides@) == if config.skip_vcs_dirs {
        vcs_overrides()
    } else {
        Seq::empty()
    }
}

fn copy_all(names: &Vec<String>) -> (r: Vec<String>)
    ensures
        text::views(r@) == text::views(names@),
{
    let mut out: Vec<String> = Vec::new();
    let mut i: usize = 0;
    while i < names.len()
        invariant
            i <= names.len(),
            text::views(out@) == text::views(names@).take(i as int),
        decreases names.len() - i,
    {
        let ghost done = text::views(out@);
        out.push(names[i].clone());
        assert(text::views(out@) =~= done.push(names@[i as int]@));
        i = i + 1;
        assert(text::views(out@) =~= text::views(names@).take(i as int));
    }
    assert(text::views(names@).take(i as int) =~= text::views(names@));
    out
}

/// A source that shows the files of a directory on disk.
#[derive(Debug, Clone)]
pub struct DirVfs {
    root: String,
    ignore: IgnoreConfig,
}

/// The entry that something found on the walk of a directory becomes, if it
/// becomes one.
pub open spec fn entry_model(
    vfs: DirVfs,
    found: Seq<char>,
    is_file: bool,
    size: Option<u64>,
) -> Option<EntryModel> {
    match path::below(found, vfs.root_path()) {
        Some(path) => if is_file && !(vfs.config().skip_vcs_dirs && ignore_vfs::in_vcs_dir(path)) {
            Some(EntryModel { path, size, content_id: None })
        } else {
            None
        },
        None => None,
    }
}

impl DirVfs {
    pub closed spec fn root_path(&self) -> Seq<char> {
        self.root@
    }

    pub closed spec fn config(&self) -> IgnoreConfig {
        self.ignore
    }

    /// The directory at `root`.
    pub fn new(root: &str, ignore: IgnoreConfig) -> (r: DirVfs)
        ensures
            r.root_path() == root@,
            r.config() == ignore,
    {
        DirVfs { root: root.to_owned(), ignore }
    }

    /// The directory.
    pub fn root(&self) -> (r: &str)
        ensures
            r@ == self.root_path(),
    {
        self.root.as_str()
    }

    /// What the source is called in headings and messages: the path of the
    /// directory.
    pub fn describe(&self) -> (r: String)
        ensures
            r@ == self.root_path(),
    {
        self.root.clone()
    }

    /// How the directory is to be walked.
    pub fn options(&self) -> (r: WalkOptions)
        ensures
            carries_out(r, self.config()),
    {
        let config = &self.ignore;
        let custom_names = if config.respect_ignore_files {
            copy_all(&config.custom_ignore_files)
        } else {
            Vec::new()
        };
        assert(!config.respect_ignore_files ==> text::views(custom_names@) =~= Seq::empty());
        let overrides = if config.skip_vcs_dirs {
            vec![
                "!.git".to_owned(),
                "!.hg".to_owned(),
                "!.svn".to_owned(),
                "!.jj".to_owned(),
            ]
        } else {
            Vec::new()
        };
        assert(config.skip_vcs_dirs ==> text::views(overrides@) =~= vcs_overrides());
        assert(!config.skip_vcs_dirs ==> text::views(overrides@) =~= Seq::empty());
        WalkOptions {
            skip_hidden: !config.include_hidden,
            follow_links: config.follow_links,
            git_rules: config.respect_gitignore,
            ignore_rules: config.respect_ignore_files,
            custom_names,
            overrides,
        }
    }

    /// How something found on the walk appears: a regular file below the
    /// directory is an entry, unless it belongs to version control and that is
    /// left out. Anything else is no entry.
    pub fn entry(&self, found: &str, is_file: bool, size: Option<u64>) -> (r: Option<Entry>)
        ensures
            r is Some <==> is_file && path::below(found@, self.root_path()) is Some && !(
            self.config().skip_vcs_dirs && ignore_vfs::in_vcs_dir(
                path::below(found@, self.root_path())->0,
            )),
            match r {
                Some(entry) => entry_model(*self, found@, is_file, size) == Some(entry@),
                None => entry_model(*self, found@, is_file, size) is None,
            },
    {
        if !is_file {
            return None;
        }
        match path::strip_prefix(found, self.root.as_str()) {
            Some(path) => {
                if self.ignore.skip_vcs_dirs && ignore_vfs::any_vcs_part(path.as_str()) {
                    None
                } else {
                    Some(Entry { path, size, content_id: None })
                }
            },
            None => None,
        }
    }

    /// Where the file at a path of this source is on disk.
    pub fn location(&self, path: &str) -> (r: String)
        ensures
            r@ == path::appended(self.root_path(), path@),
    {
        path::join(self.root.as_str(), path)
    }
}

// ---------------------------------------------------------------------------
// Laws
// ---------------------------------------------------------------------------

/// Where the directories of version control are left out, no entry has one
/// among its parts, at any depth and whatever else is configured.
pub proof fn law_version_control_is_never_listed(
    vfs: DirVfs,
    found: Seq<char>,
    is_file: bool,
    size: Option<u64>,
)
    requires
        vfs.config().skip_vcs_dirs,
        entry_model(vfs, found, is_file, size) is Some,
    ensures
        ({
            let parts = path::parts(entry_model(vfs, found, is_file, size)->0.path);
            forall|i: int| 0 <= i < parts.len() ==> !ignore_vfs::vcs_part(#[trigger] parts[i])
        }),
{
}

/// What a walk finds becomes an entry exactly if it is a file below the root and
/// not in a directory of version control that is skipped. It is called as seen
/// from the root, and has its size.
pub proof fn law_files_below_the_root_are_entries(
    vfs: DirVfs,
    found: Seq<char>,
    is_file: bool,
    size: Option<u64>,
)
    ensures
        ({
            let rest = path::below(found, vfs.root_path());
            let r = entry_model(vfs, found, is_file, size);
            &&& r is Some <==> is_file && rest is Some && !(vfs.config().skip_vcs_dirs
                && exists|i: int|
                0 <= i < path::parts(rest->0).len() && ignore_vfs::vcs_part(
                    #[trigger] path::parts(rest->0)[i],
                ))
            &&& r is Some ==> r->0.path == rest->0 && r->0.size == size && r->0.content_id is None
        }),
{
}

/// A walk that skips version control leaves out its four directories, each named
/// without a slash; further ignore files count only where ignore files do.
pub proof fn law_a_walk_follows_its_configuration(
    options: crate::vfs::dir::WalkOptions,
    config: IgnoreConfig,
)
    requires
        carries_out(options, config),
    ensures
        options.skip_hidden != config.include_hidden,
        options.git_rules == config.respect_gitignore,
        options.ignore_rules == config.respect_ignore_files,
        options.follow_links == config.follow_links,
        !config.respect_ignore_files ==> options.custom_names@.len() == 0,
        config.respect_ignore_files ==> options.custom_names@.len()
            == config.custom_ignore_files@.len() && forall|i: int|
            0 <= i < options.custom_names@.len() ==> (#[trigger] options.custom_names@[i])@
                == config.custom_ignore_files@[i]@,
        !config.skip_vcs_dirs ==> options.overrides@.len() == 0,
        config.skip_vcs_dirs ==> options.overrides@.len() == 4 && options.overrides@[0]@
            == "!.git"@ && options.overrides@[1]@ == "!.hg"@ && options.overrides@[2]@ == "!.svn"@
            && options.overrides@[3]@ == "!.jj"@,
{
    let names = text::views(options.custom_names@);
    let all = text::views(options.overrides@);
    assert(names.len() == options.custom_names@.len());
    assert(all.len() == options.overrides@.len());
    if config.respect_ignore_files {
        let given = text::views(config.custom_ignore_files@);
        assert(given.len() == config.custom_ignore_files@.len());
        assert forall|i: int| 0 <= i < options.custom_names@.len() implies (
        #[trigger] options.custom_names@[i])@ == config.custom_ignore_files@[i]@ by {
            assert(names[i] == given[i]);
        }
    }
    if config.skip_vcs_dirs {
        assert(all[0] == options.overrides@[0]@);
        assert(all[1] == options.overrides@[1]@);
        assert(all[2] == options.overrides@[2]@);
        assert(all[3] == options.overrides@[3]@);
    }
}

} // verus!
