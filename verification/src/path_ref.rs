//! How a source is named on the command line.

use std::str::FromStr;

use vstd::prelude::*;

use crate::text;

verus! {

/// Something that can be counted: a place on disk, or a commit in git.
///
/// A bare path is a place on disk. `git:` stands before anything that git can
/// resolve to a commit, and `git-merge:` before two such revisions with a colon
/// between them.
#[derive(Debug, Clone, PartialEq, Eq)]
pub enum PathRef {
    /// A directory.
    Fs(String),
    /// A commit.
    GitCommitish(String),
    /// The commit that two revisions last had in common.
    GitMergeBase(String, String),
}

/// A [`PathRef`], with its texts as sequences of characters.
#[verifier::ext_equal]
pub enum RefModel {
    Fs(Seq<char>),
    GitCommitish(Seq<char>),
    GitMergeBase(Seq<char>, Seq<char>),
}

impl View for PathRef {
    type V = RefModel;

    open spec fn view(&self) -> RefModel {
        match self {
            PathRef::Fs(path) => RefModel::Fs(path@),
            PathRef::GitCommitish(revision) => RefModel::GitCommitish(revision@),
            PathRef::GitMergeBase(one, two) => RefModel::GitMergeBase(one@, two@),
        }
    }
}

/// How a source is written.
pub open spec fn written(source: RefModel) -> Seq<char> {
    match source {
        RefModel::Fs(path) => path,
        RefModel::GitCommitish(revision) => "git:"@ + revision,
        RefModel::GitMergeBase(one, two) => "git-merge:"@ + one + ":"@ + two,
    }
}

/// The two revisions of a merge base: what stands on either side of the first
/// colon. Neither may be empty.
pub open spec fn revisions(pair: Seq<char>) -> Option<(Seq<char>, Seq<char>)> {
    let one = text::up_to(pair, ":"@);
    if one.len() == 0 || one.len() + 1 >= pair.len() {
        None
    } else {
        Some((one, pair.skip(1 + one.len() as int)))
    }
}

/// What a text names.
pub open spec fn named(s: Seq<char>) -> Option<RefModel> {
    if "git-merge:"@.is_prefix_of(s) {
        match revisions(s.skip("git-merge:"@.len() as int)) {
            Some((one, two)) => Some(RefModel::GitMergeBase(one, two)),
            None => None,
        }
    } else if "git:"@.is_prefix_of(s) {
        if s.len() == "git:"@.len() {
            None
        } else {
            Some(RefModel::GitCommitish(s.skip("git:"@.len() as int)))
        }
    } else if s.len() == 0 {
        None
    } else {
        Some(RefModel::Fs(s))
    }
}

/// Why a text names nothing.
pub open spec fn complaint(s: Seq<char>) -> Seq<char> {
    if "git-merge:"@.is_prefix_of(s) {
        "`git-merge:` needs two revisions separated by `:`, such as `git-merge:origin/main:HEAD`"@
    } else if "git:"@.is_prefix_of(s) {
        "`git:` needs a revision after it, such as `git:origin/main`"@
    } else {
        "expected a path or a `git:` revision"@
    }
}

impl PathRef {
    /// The source that a text names, or why it names none.
    pub fn parse(s: &str) -> (r: Result<PathRef, String>)
        ensures
            r is Ok <==> named(s@) is Some,
            r matches Ok(source) ==> named(s@) == Some(source@),
            r matches Err(why) ==> why@ == complaint(s@),
    {
        proof {
            reveal_strlit("git-merge:");
            reveal_strlit("git:");
        }
        let n = s.unicode_len();
        if text::starts_with(s, "git-merge:") {
            let pair = text::slice(s, 10, n);
            assert(pair@ =~= s@.skip(10));
            let one = text::cut_before(pair.as_str(), ":");
            let m = one.as_str().unicode_len();
            let len = pair.as_str().unicode_len();
            if m == 0 || m >= len || m + 1 >= len {
                return Err(
                    "`git-merge:` needs two revisions separated by `:`, such as `git-merge:origin/main:HEAD`".to_owned(),
                );
            }
            let two = text::slice(pair.as_str(), m + 1, len);
            assert(two@ =~= pair@.skip(m + 1));
            return Ok(PathRef::GitMergeBase(one, two));
        }
        if text::starts_with(s, "git:") {
            if n == 4 {
                return Err("`git:` needs a revision after it, such as `git:origin/main`".to_owned());
            }
            let revision = text::slice(s, 4, n);
            assert(revision@ =~= s@.skip(4));
            return Ok(PathRef::GitCommitish(revision));
        }
        if n == 0 {
            return Err("expected a path or a `git:` revision".to_owned());
        }
        Ok(PathRef::Fs(s.to_owned()))
    }

    /// How the source is written.
    pub fn to_string(&self) -> (r: String)
        ensures
            r@ == written(self@),
    {
        match self {
            PathRef::Fs(path) => path.clone(),
            PathRef::GitCommitish(revision) => {
                let mut out = "git:".to_owned();
                out.append(revision.as_str());
                out
            },
            PathRef::GitMergeBase(one, two) => {
                let mut out = "git-merge:".to_owned();
                out.append(one.as_str());
                out.append(":");
                out.append(two.as_str());
                out
            },
        }
    }

    /// The current directory.
    pub fn here() -> (r: PathRef)
        ensures
            r@ == RefModel::Fs("."@),
    {
        PathRef::Fs(".".to_owned())
    }

    /// The same source again.
    pub fn copy(&self) -> (r: PathRef)
        ensures
            r@ == self@,
    {
        match self {
            PathRef::Fs(path) => PathRef::Fs(path.clone()),
            PathRef::GitCommitish(revision) => PathRef::GitCommitish(revision.clone()),
            PathRef::GitMergeBase(one, two) => PathRef::GitMergeBase(one.clone(), two.clone()),
        }
    }
}

impl FromStr for PathRef {
    type Err = String;

    fn from_str(s: &str) -> (r: Result<PathRef, String>)
        ensures
            r is Ok <==> named(s@) is Some,
            r matches Ok(source) ==> named(s@) == Some(source@),
            r matches Err(why) ==> why@ == complaint(s@),
    {
        PathRef::parse(s)
    }
}

// ---------------------------------------------------------------------------
// Laws
// ---------------------------------------------------------------------------

proof fn lemma_up_to_colon(s: Seq<char>)
    ensures
        text::up_to(s, ":"@).len() <= s.len(),
        s.take(text::up_to(s, ":"@).len() as int) == text::up_to(s, ":"@),
        !text::up_to(s, ":"@).contains(':'),
        text::up_to(s, ":"@).len() < s.len() ==> s[text::up_to(s, ":"@).len() as int] == ':',
    decreases s.len(),
{
    reveal_strlit(":");
    let cut = text::up_to(s, ":"@);
    if ":"@.is_prefix_of(s) {
        assert(":"@[0] == s.subrange(0, 1)[0]);
        assert(s.take(0) =~= Seq::empty());
    } else if s.len() == 0 {
        assert(s.take(0) =~= Seq::empty());
    } else {
        if s[0] == ':' {
            assert(":"@ =~= s.subrange(0, 1));
        }
        let rest = s.skip(1);
        lemma_up_to_colon(rest);
        let tail = text::up_to(rest, ":"@);
        assert(cut =~= seq![s[0]] + tail);
        assert(s.take(cut.len() as int) =~= seq![s[0]] + rest.take(tail.len() as int));
        if cut.contains(':') {
            let k = choose|k: int| 0 <= k < cut.len() && cut[k] == ':';
            assert(k > 0);
            assert(tail[k - 1] == ':');
        }
    }
}

/// What a text names is written like that text.
pub proof fn law_what_is_named_is_written_the_same(s: Seq<char>)
    requires
        named(s) is Some,
    ensures
        written(named(s)->0) == s,
{
    reveal_strlit("git-merge:");
    reveal_strlit("git:");
    reveal_strlit(":");
    if "git-merge:"@.is_prefix_of(s) {
        let pair = s.skip(10);
        lemma_up_to_colon(pair);
        let one = text::up_to(pair, ":"@);
        let two = pair.skip(1 + one.len() as int);
        assert(pair =~= one + ":"@ + two);
        assert(s =~= "git-merge:"@ + pair);
        assert(s =~= "git-merge:"@ + one + ":"@ + two);
    } else if "git:"@.is_prefix_of(s) {
        assert(s =~= "git:"@ + s.skip(4));
    }
}

/// A source can be named: revisions are not empty, the first of two has no
/// colon in it, and a path does not look like a revision.
pub open spec fn nameable(source: RefModel) -> bool {
    match source {
        RefModel::Fs(path) => path.len() > 0 && !"git:"@.is_prefix_of(path)
            && !"git-merge:"@.is_prefix_of(path),
        RefModel::GitCommitish(revision) => revision.len() > 0,
        RefModel::GitMergeBase(one, two) => one.len() > 0 && two.len() > 0 && !one.contains(':'),
    }
}

proof fn lemma_up_to_first_colon(one: Seq<char>, rest: Seq<char>)
    requires
        !one.contains(':'),
    ensures
        text::up_to(one + ":"@ + rest, ":"@) == one,
    decreases one.len(),
{
    reveal_strlit(":");
    let all = one + ":"@ + rest;
    if one.len() == 0 {
        assert(":"@ =~= all.subrange(0, 1));
        assert(text::up_to(all, ":"@) =~= one);
    } else {
        assert(all[0] == one[0]);
        assert(one.contains(one[0]));
        if ":"@.is_prefix_of(all) {
            assert(all[0] == ":"@[0]);
        }
        let tail = one.skip(1);
        if tail.contains(':') {
            let k = choose|k: int| 0 <= k < tail.len() && tail[k] == ':';
            assert(one[k + 1] == ':');
        }
        lemma_up_to_first_colon(tail, rest);
        assert(all.skip(1) =~= tail + ":"@ + rest);
        assert(seq![one[0]] + tail =~= one);
    }
}

/// A source that can be named is what its own text names.
pub proof fn law_what_is_written_names_the_same(source: RefModel)
    requires
        nameable(source),
    ensures
        named(written(source)) == Some(source),
{
    reveal_strlit("git-merge:");
    reveal_strlit("git:");
    reveal_strlit(":");
    let s = written(source);
    match source {
        RefModel::Fs(path) => {},
        RefModel::GitCommitish(revision) => {
            assert("git:"@ =~= s.subrange(0, 4));
            if "git-merge:"@.is_prefix_of(s) {
                assert(s[3] == "git-merge:"@[3]);
            }
            assert(s.skip(4) =~= revision);
        },
        RefModel::GitMergeBase(one, two) => {
            assert("git-merge:"@ =~= s.subrange(0, 10));
            let pair = s.skip(10);
            assert(pair =~= one + ":"@ + two);
            lemma_up_to_first_colon(one, two);
            assert(pair.skip(1 + one.len() as int) =~= two);
        },
    }
}

/// A text names nothing exactly if it is empty, if no revision follows `git:`,
/// or if `git-merge:` is not followed by two revisions with a colon between
/// them.
pub proof fn law_some_texts_name_nothing(rest: Seq<char>)
    ensures
        named(Seq::empty()) is None,
        named("git:"@) is None,
        rest.len() > 0 ==> named("git:"@ + rest) == Some(RefModel::GitCommitish(rest)),
        named("git-merge:"@ + rest) is Some <==> exists|i: int|
            0 < i < rest.len() - 1 && #[trigger] rest[i] == ':' && forall|k: int|
                0 <= k < i ==> #[trigger] rest[k] != ':',
        rest.len() > 0 && !"git:"@.is_prefix_of(rest) && !"git-merge:"@.is_prefix_of(rest)
            ==> named(rest) == Some(RefModel::Fs(rest)),
{
    reveal_strlit("git-merge:");
    reveal_strlit("git:");
    reveal_strlit(":");
    let empty = Seq::<char>::empty();
    assert(!"git:"@.is_prefix_of(empty));
    assert(!"git-merge:"@.is_prefix_of(empty));
    let plain = "git:"@ + rest;
    assert(plain.subrange(0, 4) =~= "git:"@);
    assert(!"git-merge:"@.is_prefix_of(plain)) by {
        if "git-merge:"@.is_prefix_of(plain) {
            assert(plain[3] == "git-merge:"@[3]);
        }
    }
    assert(plain.skip(4) =~= rest);
    let bare = "git:"@;
    assert(bare.subrange(0, 4) =~= bare);
    assert(!"git-merge:"@.is_prefix_of(bare));
    let merge = "git-merge:"@ + rest;
    assert(merge.subrange(0, 10) =~= "git-merge:"@);
    assert(merge.skip(10) =~= rest);
    lemma_up_to_colon(rest);
    let one = text::up_to(rest, ":"@);
    let n = one.len() as int;
    assert forall|k: int| 0 <= k < n implies #[trigger] rest[k] != ':' by {
        assert(one[k] == rest.take(n)[k]);
        assert(one.contains(one[k]));
    }
    if n > 0 && n + 1 < rest.len() {
        assert(rest[n] == ':');
    }
    if exists|i: int|
        0 < i < rest.len() - 1 && #[trigger] rest[i] == ':' && forall|k: int|
            0 <= k < i ==> #[trigger] rest[k] != ':' {
        let i = choose|i: int|
            0 < i < rest.len() - 1 && #[trigger] rest[i] == ':' && forall|k: int|
                0 <= k < i ==> #[trigger] rest[k] != ':';
        if n < i {
            assert(rest[n] != ':');
        }
        if n > i {
            assert(rest[i] != ':');
        }
    }
}

/// Of two revisions the first has no colon in it, so that the first colon parts
/// them.
pub proof fn law_the_first_colon_parts_two_revisions(one: Seq<char>, two: Seq<char>)
    requires
        one.len() > 0,
        two.len() > 0,
        forall|k: int| 0 <= k < one.len() ==> #[trigger] one[k] != ':',
    ensures
        named("git-merge:"@ + one + ":"@ + two) == Some(RefModel::GitMergeBase(one, two)),
{
    assert(!one.contains(':'));
    law_what_is_written_names_the_same(RefModel::GitMergeBase(one, two));
}

/// The complaint says what is missing.
pub proof fn law_complaints_fit_the_text(rest: Seq<char>)
    ensures
        complaint(Seq::empty()) == "expected a path or a `git:` revision"@,
        complaint("git:"@ + rest)
            == "`git:` needs a revision after it, such as `git:origin/main`"@,
        complaint("git-merge:"@ + rest)
            == "`git-merge:` needs two revisions separated by `:`, such as `git-merge:origin/main:HEAD`"@,
{
    reveal_strlit("git-merge:");
    reveal_strlit("git:");
    let plain = "git:"@ + rest;
    assert(plain.subrange(0, 4) =~= "git:"@);
    assert(!"git-merge:"@.is_prefix_of(plain)) by {
        if "git-merge:"@.is_prefix_of(plain) {
            assert(plain[3] == "git-merge:"@[3]);
        }
    }
    let merge = "git-merge:"@ + rest;
    assert(merge.subrange(0, 10) =~= "git-merge:"@);
}

} // verus!
