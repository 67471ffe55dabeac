//! What the command line asks for.

use vstd::prelude::*;

use crate::count::CountConfig;
use crate::lang;
use crate::lang::{LanguageId, Registry};
use crate::path_ref::PathRef;
use crate::text;
use crate::text::CharClass;
use crate::vfs;
use crate::vfs::{IgnoreConfig, IgnoreRules};
use crate::walk;
use crate::walk::WalkConfig;

verus! {

/// What to break the report down by.
#[derive(Debug, Clone, Copy, PartialEq, Eq, Structural)]
pub enum Dimension {
    /// One row per language, grouped into families.
    Language,
    /// One row per family, with the languages in it rolled up.
    Family,
    /// One row per file extension.
    Extension,
    /// One row per file.
    File,
    /// One row per directory, rolled up to a depth.
    Directory,
}

/// What to sort rows by.
#[derive(Debug, Clone, Copy, PartialEq, Eq, Structural)]
pub enum Sort {
    /// Total code lines, descending.
    Code,
    /// Comment lines, descending.
    Comments,
    /// Blank lines, descending.
    Blanks,
    /// Test code lines, descending.
    Test,
    /// All lines, descending.
    Lines,
    /// Row label, ascending.
    Name,
}

/// When the table is coloured.
#[derive(Debug, Clone, Copy, PartialEq, Eq, Structural)]
pub enum Color {
    /// Where the output is a terminal.
    Auto,
    Always,
    Never,
}

/// How the report is written.
#[derive(Debug, Clone, Copy, PartialEq, Eq, Structural)]
pub enum Format {
    /// A table to read.
    Table,
    /// One JSON object.
    Json,
    /// Comma-separated values, with a header row.
    Csv,
}

/// What was asked for on the command line.
#[derive(Debug)]
pub struct Cli {
    /// What to count: nothing, one source, or two to compare.
    pub refs: Vec<PathRef>,
    /// The directory to run in.
    pub repo: Option<String>,
    /// Narrow every source to this subdirectory.
    pub subdir: Option<String>,
    /// Count only paths that match one of these globs.
    pub included: Vec<String>,
    /// Never count paths that match one of these globs.
    pub excluded: Vec<String>,
    /// Count only these languages, by name or extension.
    pub language: Vec<String>,
    /// Count files whose language is not known.
    pub include_unknown: bool,
    /// Skip files larger than this many bytes. 0 lifts the limit.
    pub max_file_size: u64,
    /// Do not honour ignore files.
    pub no_ignore: bool,
    /// Count hidden files.
    pub hidden: bool,
    /// Do not look for test blocks inside files.
    pub no_test_blocks: bool,
    /// Count doc strings as code.
    pub doc_strings_as_code: bool,
    /// Count this many files at a time.
    pub jobs: usize,
    /// What the report is broken down by.
    pub by: Dimension,
    /// Do not group languages into families.
    pub no_families: bool,
    /// The same as breaking the report down by file.
    pub files: bool,
    /// How many directories deep to roll up.
    pub depth: usize,
    /// Sort rows by this column.
    pub sort: Sort,
    /// Show only the first so many rows.
    pub top: Option<usize>,
    /// How the report is written.
    pub format: Format,
    /// When the table is coloured.
    pub color: Color,
    /// List every language, and exit.
    pub list_languages: bool,
    /// List every family, and exit.
    pub list_families: bool,
}

/// A path without the slashes at its ends, and then without one `./` before it.
pub open spec fn shaved(s: Seq<char>) -> Seq<char> {
    let bare = text::trimmed_end(
        text::trimmed_start(s, CharClass::Only('/')),
        CharClass::Only('/'),
    );
    if "./"@.is_prefix_of(bare) {
        bare.skip(2)
    } else {
        bare
    }
}

/// A path that has been shaved until nothing more comes off.
pub open spec fn settled(s: Seq<char>) -> Seq<char>
    decreases s.len(),
{
    if shaved(s).len() < s.len() {
        settled(shaved(s))
    } else {
        s
    }
}

/// The path of a subdirectory in the form in which both a directory and a git
/// tree take it.
pub open spec fn tidied(raw: Seq<char>) -> Seq<char> {
    settled(text::trimmed_of(text::replaced(raw, '\\', '/'), CharClass::Space))
}

/// The subdirectory that is asked for. None is where it is the root itself.
pub open spec fn subdirectory(raw: Option<Seq<char>>) -> Option<Seq<char>> {
    match raw {
        Some(raw) => if tidied(raw).len() == 0 || tidied(raw) == "."@ {
            None
        } else {
            Some(tidied(raw))
        },
        None => None,
    }
}

proof fn lemma_trimmed_start(s: Seq<char>, class: CharClass)
    ensures
        text::trimmed_start(s, class).len() <= s.len(),
        text::trimmed_start(s, class).len() == s.len() ==> text::trimmed_start(s, class) == s && (
        s.len() > 0 ==> !text::belongs(class, s[0])),
    decreases s.len(),
{
    if s.len() > 0 && text::belongs(class, s[0]) {
        lemma_trimmed_start(s.skip(1), class);
    }
}

proof fn lemma_trimmed_end(s: Seq<char>, class: CharClass)
    ensures
        text::trimmed_end(s, class).len() <= s.len(),
        text::trimmed_end(s, class).len() == s.len() ==> text::trimmed_end(s, class) == s && (
        s.len() > 0 ==> !text::belongs(class, s.last())),
    decreases s.len(),
{
    if s.len() > 0 && text::belongs(class, s.last()) {
        lemma_trimmed_end(s.drop_last(), class);
    }
}

/// Shaving shortens a path or leaves it as it is.
proof fn lemma_shaved(s: Seq<char>)
    ensures
        shaved(s).len() <= s.len(),
        shaved(s).len() == s.len() ==> shaved(s) == s && !"./"@.is_prefix_of(s) && (s.len() > 0
            ==> s[0] != '/' && s.last() != '/'),
{
    reveal_strlit("./");
    let class = CharClass::Only('/');
    lemma_trimmed_start(s, class);
    lemma_trimmed_end(text::trimmed_start(s, class), class);
}

fn shave(s: &str) -> (r: String)
    ensures
        r@ == shaved(s@),
{
    let class = CharClass::Only('/');
    let start = text::trim_start_of(s, class);
    let bare = text::trim_end_of(start.as_str(), class);
    proof {
        reveal_strlit("./");
    }
    if text::starts_with(bare.as_str(), "./") {
        let n = bare.as_str().unicode_len();
        let rest = text::slice(bare.as_str(), 2, n);
        assert(rest@ =~= bare@.skip(2));
        rest
    } else {
        bare
    }
}

fn settle(s: String) -> (r: String)
    ensures
        r@ == settled(s@),
{
    let mut path = s;
    let mut next = shave(path.as_str());
    while next.as_str().unicode_len() < path.as_str().unicode_len()
        invariant
            next@ == shaved(path@),
            settled(path@) == settled(s@),
        decreases path@.len(),
    {
        path = next;
        next = shave(path.as_str());
    }
    path
}

/// What heads the column of labels.
pub open spec fn heading_of(dimension: Dimension) -> Seq<char> {
    match dimension {
        Dimension::Language => "LANGUAGE"@,
        Dimension::Family => "FAMILY"@,
        Dimension::Extension => "EXTENSION"@,
        Dimension::File => "FILE"@,
        Dimension::Directory => "DIRECTORY"@,
    }
}

impl Dimension {
    /// What heads the column of labels.
    pub fn heading(self) -> (r: &'static str)
        ensures
            r@ == heading_of(self),
    {
        match self {
            Dimension::Language => "LANGUAGE",
            Dimension::Family => "FAMILY",
            Dimension::Extension => "EXTENSION",
            Dimension::File => "FILE",
            Dimension::Directory => "DIRECTORY",
        }
    }
}

impl Default for Cli {
    /// What is asked for without any arguments.
    fn default() -> (r: Cli)
        ensures
            r.refs@.len() == 0,
            r.repo is None,
            r.subdir is None,
            r.included@.len() == 0,
            r.excluded@.len() == 0,
            r.language@.len() == 0,
            !r.include_unknown,
            r.max_file_size == walk::MAX_FILE_SIZE,
            !r.no_ignore,
            !r.hidden,
            !r.no_test_blocks,
            !r.doc_strings_as_code,
            r.jobs == walk::CONCURRENCY,
            r.by == Dimension::Language,
            !r.no_families,
            !r.files,
            r.depth == 1,
            r.sort == Sort::Code,
            r.top is None,
            r.format == Format::Table,
            r.color == Color::Auto,
            !r.list_languages,
            !r.list_families,
    {
        Cli {
            refs: Vec::new(),
            repo: None,
            subdir: None,
            included: Vec::new(),
            excluded: Vec::new(),
            language: Vec::new(),
            include_unknown: false,
            max_file_size: walk::MAX_FILE_SIZE,
            no_ignore: false,
            hidden: false,
            no_test_blocks: false,
            doc_strings_as_code: false,
            jobs: walk::CONCURRENCY,
            by: Dimension::Language,
            no_families: false,
            files: false,
            depth: 1,
            sort: Sort::Code,
            top: None,
            format: Format::Table,
            color: Color::Auto,
            list_languages: false,
            list_families: false,
        }
    }
}

/// The walk does what was asked for, with the languages that the names stand
/// for.
pub open spec fn configures(config: WalkConfig, args: Cli, languages: Seq<lang::LanguageDef>) -> bool {
    &&& config.count.treat_doc_strings_as_comments == !args.doc_strings_as_code
    &&& config.count.detect_test_blocks == !args.no_test_blocks
    &&& config.count.skip_binary
    &&& config.include_unknown == args.include_unknown
    &&& config.use_shebangs
    &&& config.max_file_size == if args.max_file_size > 0 {
        Some(args.max_file_size)
    } else {
        None
    }
    &&& config.concurrency == if args.jobs > 0 {
        args.jobs
    } else {
        1
    }
    &&& config.only_paths is None
    &&& match config.languages {
        Some(ids) => args.language@.len() > 0 && ids@.len() == args.language@.len() && forall|i: int|
            0 <= i < ids@.len() ==> Some(#[trigger] ids@[i]) == lang::resolved(
                languages,
                args.language@[i]@,
            ),
        None => args.language@.len() == 0,
    }
}

/// Every name stands for a language.
pub open spec fn all_resolve(names: Seq<Seq<char>>, languages: Seq<lang::LanguageDef>) -> bool {
    forall|i: int| 0 <= i < names.len() ==> lang::resolved(languages, #[trigger] names[i]) is Some
}

/// `name` is the first that stands for no language.
pub open spec fn first_unresolved(
    names: Seq<Seq<char>>,
    languages: Seq<lang::LanguageDef>,
    name: Seq<char>,
) -> bool {
    exists|i: int|
        #![trigger names[i]]
        0 <= i < names.len() && names[i] == name && lang::resolved(languages, name) is None
            && all_resolve(names.take(i), languages)
}

impl Cli {
    /// What the report is broken down by.
    pub open spec fn breakdown(&self) -> Dimension {
        if self.files {
            Dimension::File
        } else {
            self.by
        }
    }

    /// What the report is broken down by.
    pub fn dimension(&self) -> (r: Dimension)
        ensures
            r == self.breakdown(),
    {
        if self.files {
            Dimension::File
        } else {
            self.by
        }
    }

    /// Whether languages are grouped into families. Nothing else has families.
    pub fn group_families(&self) -> (r: bool)
        ensures
            r == (!self.no_families && self.breakdown() == Dimension::Language),
    {
        !self.no_families && self.dimension() == Dimension::Language
    }

    /// Whether the output is coloured. Left to itself, it is on a terminal, and
    /// unless `NO_COLOR` is set to something.
    pub fn color(&self, terminal: bool, no_color: Option<&str>) -> (r: bool)
        ensures
            r == match self.color {
                Color::Always => true,
                Color::Never => false,
                Color::Auto => terminal && (no_color matches Some(value) ==> value@.len() == 0),
            },
    {
        match self.color {
            Color::Always => true,
            Color::Never => false,
            Color::Auto => terminal && match no_color {
                Some(value) => value.unicode_len() == 0,
                None => true,
            },
        }
    }

    /// The subdirectory to narrow every source to, in the form in which both a
    /// directory and a git tree take it.
    pub fn subdir(&self) -> (r: Option<String>)
        ensures
            r is Some <==> subdirectory(vfs::text_view(self.subdir)) is Some,
            r matches Some(path) ==> subdirectory(vfs::text_view(self.subdir)) == Some(path@),
    {
        let raw = match &self.subdir {
            Some(raw) => raw,
            None => {
                return None;
            },
        };
        let slashed = text::replace(raw.as_str(), '\\', '/');
        let path = settle(text::trim_of(slashed.as_str(), CharClass::Space));
        if path.as_str().unicode_len() == 0 || text::same(path.as_str(), ".") {
            None
        } else {
            Some(path)
        }
    }

    /// How to walk a source. The first name that stands for no language is an
    /// error.
    pub fn walk_config(&self, registry: &Registry) -> (r: Result<WalkConfig, String>)
        requires
            registry.wf(),
        ensures
            r is Ok <==> all_resolve(text::views(self.language@), registry.langs()),
            r matches Ok(config) ==> configures(config, *self, registry.langs()),
            r matches Err(name) ==> first_unresolved(
                text::views(self.language@),
                registry.langs(),
                name@,
            ),
    {
        let ghost names = text::views(self.language@);
        let ghost known = registry.langs();
        let mut ids: Vec<LanguageId> = Vec::new();
        let mut i: usize = 0;
        while i < self.language.len()
            invariant
                registry.wf(),
                i <= self.language.len(),
                names == text::views(self.language@),
                known == registry.langs(),
                ids@.len() == i,
                all_resolve(names.take(i as int), known),
                forall|k: int|
                    0 <= k < i ==> Some(#[trigger] ids@[k]) == lang::resolved(
                        known,
                        self.language@[k]@,
                    ),
            decreases self.language.len() - i,
        {
            assert(names[i as int] == self.language@[i as int]@);
            match registry.resolve(self.language[i].as_str()) {
                Some(id) => {
                    ids.push(id);
                    assert(names.take(i + 1) =~= names.take(i as int).push(names[i as int]));
                },
                None => {
                    return Err(self.language[i].clone());
                },
            }
            i = i + 1;
        }
        assert(names.take(i as int) =~= names);
        let languages = if self.language.len() == 0 {
            None
        } else {
            Some(ids)
        };
        let max_file_size = if self.max_file_size > 0 {
            Some(self.max_file_size)
        } else {
            None
        };
        let concurrency = if self.jobs > 0 {
            self.jobs
        } else {
            1
        };
        Ok(
            WalkConfig {
                count: CountConfig {
                    treat_doc_strings_as_comments: !self.doc_strings_as_code,
                    detect_test_blocks: !self.no_test_blocks,
                    skip_binary: true,
                },
                languages,
                include_unknown: self.include_unknown,
                use_shebangs: true,
                max_file_size,
                concurrency,
                only_paths: None,
            },
        )
    }

    /// Which ignore rules apply while a directory is walked.
    pub fn ignore_config(&self) -> (r: IgnoreConfig)
        ensures
            r.respect_gitignore == !self.no_ignore,
            r.respect_ignore_files == !self.no_ignore,
            r.include_hidden == self.hidden,
            r.skip_vcs_dirs,
            !r.follow_links,
            text::views(r.custom_ignore_files@) == seq![".slopcountignore"@],
    {
        let defaults = IgnoreConfig::default();
        IgnoreConfig {
            respect_gitignore: !self.no_ignore,
            respect_ignore_files: !self.no_ignore,
            include_hidden: self.hidden,
            skip_vcs_dirs: defaults.skip_vcs_dirs,
            follow_links: defaults.follow_links,
            custom_ignore_files: defaults.custom_ignore_files,
        }
    }

    /// Which files of a git tree are hidden. A tree carries its ignore files
    /// inside it.
    pub fn git_rules(&self) -> (r: IgnoreRules)
        ensures
            text::views(r.ignore_files@) == if self.no_ignore {
                Seq::empty()
            } else {
                seq![".ignore"@, ".slopcountignore"@]
            },
            r.include_hidden == self.hidden,
            r.skip_vcs_dirs,
    {
        let tree = IgnoreRules::for_git_tree();
        let ignore_files = if self.no_ignore {
            Vec::new()
        } else {
            tree.ignore_files
        };
        assert(self.no_ignore ==> text::views(ignore_files@) =~= Seq::empty());
        IgnoreRules {
            ignore_files,
            include_hidden: self.hidden,
            skip_vcs_dirs: tree.skip_vcs_dirs,
        }
    }
}

// ---------------------------------------------------------------------------
// Laws
// ---------------------------------------------------------------------------

proof fn lemma_settled(s: Seq<char>)
    ensures
        !"./"@.is_prefix_of(settled(s)),
        settled(s).len() > 0 ==> settled(s)[0] != '/' && settled(s).last() != '/',
        shaved(settled(s)) == settled(s),
    decreases s.len(),
{
    lemma_shaved(s);
    if shaved(s).len() < s.len() {
        lemma_settled(shaved(s));
    }
}

proof fn lemma_trimming_adds_nothing(s: Seq<char>, class: CharClass, c: char)
    requires
        !s.contains(c),
    ensures
        !text::trimmed_start(s, class).contains(c),
        !text::trimmed_end(s, class).contains(c),
        !text::trimmed_of(s, class).contains(c),
{
    lemma_trimming_start_adds_nothing(s, class, c);
    lemma_trimming_end_adds_nothing(s, class, c);
    lemma_trimming_end_adds_nothing(text::trimmed_start(s, class), class, c);
}

proof fn lemma_trimming_start_adds_nothing(s: Seq<char>, class: CharClass, c: char)
    requires
        !s.contains(c),
    ensures
        !text::trimmed_start(s, class).contains(c),
    decreases s.len(),
{
    if s.len() > 0 && text::belongs(class, s[0]) {
        assert forall|i: int| 0 <= i < s.skip(1).len() implies #[trigger] s.skip(1)[i] != c by {
            assert(s.contains(s[i + 1]));
        }
        lemma_trimming_start_adds_nothing(s.skip(1), class, c);
    }
}

proof fn lemma_trimming_end_adds_nothing(s: Seq<char>, class: CharClass, c: char)
    requires
        !s.contains(c),
    ensures
        !text::trimmed_end(s, class).contains(c),
    decreases s.len(),
{
    if s.len() > 0 && text::belongs(class, s.last()) {
        assert forall|i: int| 0 <= i < s.drop_last().len() implies #[trigger] s.drop_last()[i]
            != c by {
            assert(s.contains(s[i]));
        }
        lemma_trimming_end_adds_nothing(s.drop_last(), class, c);
    }
}

proof fn lemma_settling_adds_nothing(s: Seq<char>, c: char)
    requires
        !s.contains(c),
    ensures
        !settled(s).contains(c),
    decreases s.len(),
{
    if shaved(s).len() < s.len() {
        reveal_strlit("./");
        let bare = text::trimmed_of(s, CharClass::Only('/'));
        lemma_trimming_adds_nothing(s, CharClass::Only('/'), c);
        assert forall|i: int| 0 <= i < shaved(s).len() implies #[trigger] shaved(s)[i] != c by {
            if "./"@.is_prefix_of(bare) {
                assert(bare.contains(bare[i + 2]));
            } else {
                assert(bare.contains(bare[i]));
            }
        }
        lemma_settling_adds_nothing(shaved(s), c);
    }
}

/// A subdirectory is not empty and not the root, has no slash at either end,
/// does not start with `./` and has no backslash in it.
pub proof fn law_a_subdirectory_is_tidy(raw: Seq<char>)
    requires
        subdirectory(Some(raw)) is Some,
    ensures
        ({
            let path = subdirectory(Some(raw))->0;
            &&& path.len() > 0
            &&& path != "."@
            &&& path[0] != '/'
            &&& path.last() != '/'
            &&& !"./"@.is_prefix_of(path)
            &&& !path.contains('\\')
        }),
{
    let slashed = text::replaced(raw, '\\', '/');
    assert(!slashed.contains('\\'));
    let trimmed = text::trimmed_of(slashed, CharClass::Space);
    lemma_trimming_adds_nothing(slashed, CharClass::Space, '\\');
    lemma_settled(trimmed);
    lemma_settling_adds_nothing(trimmed, '\\');
}

/// A subdirectory with slashes only, and none to tidy away, is used as it is
/// written.
pub proof fn law_a_plain_subdirectory_is_used_as_written(path: Seq<char>)
    requires
        path.len() > 0,
        path != "."@,
        !path.contains('\\'),
        path[0] != '/',
        path.last() != '/',
        !"./"@.is_prefix_of(path),
        !text::is_space_char(path[0]),
        !text::is_space_char(path.last()),
    ensures
        subdirectory(Some(path)) == Some(path),
{
    assert forall|i: int| 0 <= i < path.len() implies #[trigger] text::replaced(
        path,
        '\\',
        '/',
    )[i] == path[i] by {
        assert(path.contains(path[i]));
    }
    assert(text::replaced(path, '\\', '/') =~= path);
}

/// What comes off the front of a path when it is tidied: slashes, and dots that
/// a slash follows.
pub open spec fn comes_off(s: Seq<char>, a: int) -> bool {
    forall|i: int|
        0 <= i < a ==> #[trigger] s[i] == '/' || (s[i] == '.' && i + 1 < a && s[i + 1] == '/')
}

proof fn lemma_shaved_range(s: Seq<char>) -> (r: (int, int))
    ensures
        0 <= r.0 <= r.1 <= s.len(),
        shaved(s) == s.subrange(r.0, r.1),
        comes_off(s, r.0),
        forall|i: int| r.1 <= i < s.len() ==> #[trigger] s[i] == '/',
{
    reveal_strlit("./");
    let class = CharClass::Only('/');
    let bare = text::trimmed_of(s, class);
    text::law_trimming_a_text_takes_off_the_class_only(s, class);
    let at = choose|at: int|
        {
            &&& 0 <= at <= at + bare.len() <= s.len()
            &&& bare == #[trigger] s.subrange(at, at + bare.len())
            &&& forall|i: int|
                (0 <= i < at || at + bare.len() <= i < s.len()) ==> text::belongs(
                    class,
                    #[trigger] s[i],
                )
        };
    let end = at + bare.len();
    assert forall|i: int| end <= i < s.len() implies #[trigger] s[i] == '/' by {
        assert(text::belongs(class, s[i]));
    }
    assert forall|i: int| 0 <= i < at implies #[trigger] s[i] == '/' by {
        assert(text::belongs(class, s[i]));
    }
    if "./"@.is_prefix_of(bare) {
        assert(bare.subrange(0, 2) == "./"@);
        assert(bare.subrange(0, 2)[0] == s[at]);
        assert(bare.subrange(0, 2)[1] == s[at + 1]);
        assert(bare.skip(2) =~= s.subrange(at + 2, end));
        (at + 2, end)
    } else {
        (at, end)
    }
}

proof fn lemma_settled_range(s: Seq<char>) -> (r: (int, int))
    ensures
        0 <= r.0 <= r.1 <= s.len(),
        settled(s) == s.subrange(r.0, r.1),
        comes_off(s, r.0),
        forall|i: int| r.1 <= i < s.len() ==> #[trigger] s[i] == '/',
    decreases s.len(),
{
    if shaved(s).len() < s.len() {
        let (a, b) = lemma_shaved_range(s);
        let t = shaved(s);
        let (c, d) = lemma_settled_range(t);
        assert(settled(s) =~= s.subrange(a + c, a + d));
        assert forall|i: int| 0 <= i < a + c implies #[trigger] s[i] == '/' || (s[i] == '.' && i + 1
            < a + c && s[i + 1] == '/') by {
            if i >= a {
                assert(t[i - a] == s[i]);
                if t[i - a] == '.' {
                    assert(t[i - a + 1] == s[i + 1]);
                }
            }
        }
        assert forall|i: int| a + d <= i < s.len() implies #[trigger] s[i] == '/' by {
            if i < b {
                assert(t[i - a] == s[i]);
            }
        }
        (a + c, a + d)
    } else {
        assert(s.subrange(0, s.len() as int) =~= s);
        (0, s.len() as int)
    }
}

/// Tidying a path takes nothing else off it than white space around it, slashes
/// at its ends, and `./` in front; what is left is as it was written, with
/// slashes for backslashes. None is left exactly where that is nothing, or the
/// directory itself.
pub proof fn law_tidying_takes_off_what_says_nothing(raw: Seq<char>) -> (r: (int, int))
    ensures
        ({
            let s = text::trimmed_of(text::replaced(raw, '\\', '/'), CharClass::Space);
            let path = s.subrange(r.0, r.1);
            &&& 0 <= r.0 <= r.1 <= s.len()
            &&& comes_off(s, r.0)
            &&& forall|i: int| r.1 <= i < s.len() ==> #[trigger] s[i] == '/'
            &&& path.len() > 0 ==> path[0] != '/' && path[path.len() - 1] != '/'
            &&& !(path.len() >= 2 && path[0] == '.' && path[1] == '/')
            &&& subdirectory(Some(raw)) == if path.len() == 0 || path == seq!['.'] {
                None
            } else {
                Some(path)
            }
        }),
        subdirectory(None) is None,
{
    reveal_strlit(".");
    reveal_strlit("./");
    let s = text::trimmed_of(text::replaced(raw, '\\', '/'), CharClass::Space);
    let (a, b) = lemma_settled_range(s);
    lemma_settled(s);
    let path = s.subrange(a, b);
    if path.len() >= 2 && path[0] == '.' && path[1] == '/' {
        assert(path.subrange(0, 2) =~= "./"@);
    }
    assert(seq!['.'] =~= "."@);
    (a, b)
}

/// The column of labels is headed by what the report is broken down by.
pub proof fn law_headings_name_the_dimension(args: Cli)
    ensures
        args.files ==> args.breakdown() is File,
        !args.files ==> args.breakdown() == args.by,
        heading_of(Dimension::Language) == "LANGUAGE"@,
        heading_of(Dimension::Family) == "FAMILY"@,
        heading_of(Dimension::Extension) == "EXTENSION"@,
        heading_of(Dimension::File) == "FILE"@,
        heading_of(Dimension::Directory) == "DIRECTORY"@,
{
}

/// Only files of the languages that were named are counted, where any were; and
/// what is not known is counted only where that was asked for and none were.
pub proof fn law_named_languages_are_counted(
    config: WalkConfig,
    args: Cli,
    languages: Seq<lang::LanguageDef>,
    language: Option<LanguageId>,
)
    requires
        configures(config, args, languages),
    ensures
        walk::admitted(config, language) <==> match language {
            Some(id) => args.language@.len() == 0 || exists|i: int|
                0 <= i < args.language@.len() && lang::resolved(
                    languages,
                    (#[trigger] args.language@[i])@,
                ) == Some(id),
            None => args.include_unknown && args.language@.len() == 0,
        },
{
    if language is Some && config.languages is Some {
        let id = language->0;
        let ids = config.languages->0@;
        if ids.contains(id) {
            let i = choose|i: int| 0 <= i < ids.len() && ids[i] == id;
            assert(Some(ids[i]) == lang::resolved(languages, args.language@[i]@));
        }
        if exists|i: int|
            0 <= i < args.language@.len() && lang::resolved(
                languages,
                (#[trigger] args.language@[i])@,
            ) == Some(id) {
            let i = choose|i: int|
                0 <= i < args.language@.len() && lang::resolved(
                    languages,
                    (#[trigger] args.language@[i])@,
                ) == Some(id);
            assert(Some(ids[i]) == lang::resolved(languages, args.language@[i]@));
            assert(ids.contains(id));
        }
    }
}

/// A file is left out for its size exactly if it is larger than what was asked
/// for; a limit of nothing is none.
pub proof fn law_large_files_are_left_out(
    config: WalkConfig,
    args: Cli,
    languages: Seq<lang::LanguageDef>,
    filters: walk::CompiledGlobs,
    entry: vfs::EntryModel,
)
    requires
        configures(config, args, languages),
    ensures
        walk::candidate(filters, config, entry) <==> filters.lets_through(entry.path) && (
        args.max_file_size == 0 || entry.size is None || entry.size->0 <= args.max_file_size),
{
}

/// A walk counts as it was asked to: doc strings and test blocks each by their
/// own switch, nothing binary, and at least one file at a time.
pub proof fn law_switches_are_independent(
    config: WalkConfig,
    args: Cli,
    languages: Seq<lang::LanguageDef>,
)
    requires
        configures(config, args, languages),
    ensures
        config.count.treat_doc_strings_as_comments != args.doc_strings_as_code,
        config.count.detect_test_blocks != args.no_test_blocks,
        config.count.skip_binary,
        config.use_shebangs,
        config.only_paths is None,
        args.jobs == 0 ==> config.concurrency == 1,
        args.jobs > 0 ==> config.concurrency == args.jobs,
{
}

} // verus!
