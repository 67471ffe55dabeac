//! Sets of path globs.

use globset::{Glob, GlobSet, GlobSetBuilder};

use vstd::prelude::*;

use crate::text;

verus! {

/// One glob.
#[verifier::external_type_specification]
#[verifier::external_body]
pub struct ExGlob(Glob);

/// A set of globs.
#[verifier::external_type_specification]
#[verifier::external_body]
pub struct ExGlobSet(GlobSet);

/// A set of globs in the making.
#[verifier::external_type_specification]
#[verifier::external_body]
pub struct ExGlobSetBuilder(GlobSetBuilder);

/// The message with which `Glob::new` refuses a pattern, if it does.
pub uninterp spec fn glob_complaint(pattern: Seq<char>) -> Option<Seq<char>>;

/// Whether a glob matches a path.
pub uninterp spec fn glob_matches(pattern: Seq<char>, path: Seq<char>) -> bool;

/// The message with which `GlobSetBuilder::build` refuses these globs together,
/// if it does.
pub uninterp spec fn set_complaint(patterns: Seq<Seq<char>>) -> Option<Seq<char>>;

/// The pattern that a glob was made from.
pub uninterp spec fn glob_text(glob: Glob) -> Seq<char>;

/// The patterns added to a builder so far.
pub uninterp spec fn builder_globs(builder: GlobSetBuilder) -> Seq<Seq<char>>;

/// The patterns of a set.
pub uninterp spec fn set_globs(set: GlobSet) -> Seq<Seq<char>>;

/// `Glob::new`: accepts or refuses a pattern by its text alone, and keeps the
/// text.
#[verifier::external_body]
fn new_glob(pattern: &str) -> (r: Result<Glob, String>)
    ensures
        r is Ok <==> glob_complaint(pattern@) is None,
        r matches Ok(glob) ==> glob_text(glob) == pattern@,
        r matches Err(complaint) ==> glob_complaint(pattern@) == Some(complaint@),
{
    Glob::new(pattern).map_err(|error| error.to_string())
}

/// `GlobSetBuilder::new`: a builder without globs.
#[verifier::external_body]
fn new_builder() -> (r: GlobSetBuilder)
    ensures
        builder_globs(r) == Seq::<Seq<char>>::empty(),
{
    GlobSetBuilder::new()
}

/// `GlobSetBuilder::add`: adds one glob behind the others.
#[verifier::external_body]
fn add_glob(builder: &mut GlobSetBuilder, glob: Glob)
    ensures
        builder_globs(*final(builder)) == builder_globs(*old(builder)).push(glob_text(glob)),
{
    builder.add(glob);
}

/// `GlobSetBuilder::build`: a set of exactly the globs that were added.
#[verifier::external_body]
fn build_set(builder: &GlobSetBuilder) -> (r: Result<GlobSet, String>)
    ensures
        r is Ok <==> set_complaint(builder_globs(*builder)) is None,
        r matches Ok(set) ==> set_globs(set) == builder_globs(*builder),
        r matches Err(complaint) ==> set_complaint(builder_globs(*builder)) == Some(complaint@),
{
    builder.build().map_err(|error| error.to_string())
}

/// One of `patterns` matches the path.
pub open spec fn any_matches(patterns: Seq<Seq<char>>, path: Seq<char>) -> bool {
    exists|i: int| 0 <= i < patterns.len() && glob_matches(#[trigger] patterns[i], path)
}

/// `GlobSet::is_match`: whether any glob of the set matches the path.
#[verifier::external_body]
pub(crate) fn set_matches(set: &GlobSet, path: &str) -> (r: bool)
    ensures
        r == (exists|i: int|
            0 <= i < set_globs(*set).len() && glob_matches(#[trigger] set_globs(*set)[i], path@)),
{
    set.is_match(path)
}

/// `GlobSet::is_empty`: whether the set has no globs.
#[verifier::external_body]
pub(crate) fn set_is_empty(set: &GlobSet) -> (r: bool)
    ensures
        r == (set_globs(*set).len() == 0),
{
    set.is_empty()
}

/// Why a list of patterns could not be compiled, in the words of `globset`.
#[derive(Debug)]
pub enum GlobFault {
    /// The first pattern that is not a glob, and what is wrong with it.
    Pattern { pattern: String, complaint: String },
    /// The patterns are globs, but cannot be made into a set.
    Union(String),
}

/// What a [`GlobFault`] says.
pub open spec fn fault_text(fault: GlobFault) -> Seq<char> {
    match fault {
        GlobFault::Pattern { pattern, complaint } => complaint@,
        GlobFault::Union(complaint) => complaint@,
    }
}

impl GlobFault {
    /// What is wrong, in words.
    pub fn message(&self) -> (r: String)
        ensures
            r@ == fault_text(*self),
    {
        match self {
            GlobFault::Pattern { complaint, .. } => complaint.clone(),
            GlobFault::Union(complaint) => complaint.clone(),
        }
    }
}

/// Every pattern is a glob.
pub open spec fn all_valid(patterns: Seq<Seq<char>>) -> bool {
    forall|i: int| 0 <= i < patterns.len() ==> glob_complaint(#[trigger] patterns[i]) is None
}

/// The globs can be made into a set.
pub open spec fn set_builds(patterns: Seq<Seq<char>>) -> bool {
    set_complaint(patterns) is None
}

/// `pattern` is the first that is not a glob, and `complaint` says why.
pub open spec fn first_invalid(
    patterns: Seq<Seq<char>>,
    pattern: Seq<char>,
    complaint: Seq<char>,
) -> bool {
    exists|i: int|
        #![trigger patterns[i]]
        0 <= i < patterns.len() && patterns[i] == pattern && glob_complaint(pattern) == Some(
            complaint,
        ) && all_valid(patterns.take(i))
}

/// The fault is what these patterns deserve.
pub open spec fn is_fault(fault: GlobFault, patterns: Seq<Seq<char>>) -> bool {
    match fault {
        GlobFault::Pattern { pattern, complaint } => first_invalid(
            patterns,
            pattern@,
            complaint@,
        ),
        GlobFault::Union(complaint) => all_valid(patterns) && set_complaint(patterns) == Some(
            complaint@,
        ),
    }
}

/// Makes a set of globs out of patterns.
pub fn compile(patterns: &Vec<String>) -> (r: Result<GlobSet, GlobFault>)
    ensures
        r is Ok <==> all_valid(text::views(patterns@)) && set_builds(text::views(patterns@)),
        r matches Ok(set) ==> set_globs(set) == text::views(patterns@),
        r matches Err(fault) ==> is_fault(fault, text::views(patterns@)),
{
    let ghost all = text::views(patterns@);
    let mut builder = new_builder();
    let mut i: usize = 0;
    while i < patterns.len()
        invariant
            i <= patterns.len(),
            all == text::views(patterns@),
            builder_globs(builder) == all.take(i as int),
            all_valid(all.take(i as int)),
        decreases patterns.len() - i,
    {
        assert(all[i as int] == patterns@[i as int]@);
        match new_glob(patterns[i].as_str()) {
            Ok(glob) => {
                add_glob(&mut builder, glob);
                assert(all.take(i + 1) =~= all.take(i as int).push(all[i as int]));
            },
            Err(complaint) => {
                return Err(GlobFault::Pattern { pattern: patterns[i].clone(), complaint });
            },
        }
        i = i + 1;
    }
    assert(all.take(i as int) =~= all);
    match build_set(&builder) {
        Ok(set) => Ok(set),
        Err(complaint) => Err(GlobFault::Union(complaint)),
    }
}

} // verus!
