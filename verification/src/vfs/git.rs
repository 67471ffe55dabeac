//! A tree of a git repository as a source: how it is named, and which of its
//! records are files.

use vstd::prelude::*;

use crate::text;
use crate::text::CharClass;
use crate::vfs::{Entry, EntryModel};

verus! {

/// An error message without the place in some source file that may end it,
/// `, at /…`.
pub fn tidy(message: &str) -> (r: String)
    ensures
        r@ == text::up_to(message@, ", at /"@),
{
    text::cut_before(message, ", at /")
}

/// How the merge base of two revisions is called.
pub fn merge_base_label(one: &str, two: &str) -> (r: String)
    ensures
        r@ == "merge-base("@ + one@ + ", "@ + two@ + ")"@,
{
    let mut out = "merge-base(".to_owned();
    out.append(one);
    out.append(", ");
    out.append(two);
    out.append(")");
    out
}

/// How a tree is called that was found under `label`, narrowed to a
/// subdirectory where there is one.
pub open spec fn label_of(label: Seq<char>, subpath: Option<Seq<char>>) -> Seq<char> {
    match subpath {
        Some(sub) => if sub.len() == 0 {
            label
        } else {
            label + ":"@ + sub
        },
        None => label,
    }
}

/// How a tree is called.
pub fn describe(label: &str, subpath: Option<&str>) -> (r: String)
    ensures
        r@ == label_of(
            label@,
            match subpath {
                Some(sub) => Some(sub@),
                None => None,
            },
        ),
{
    let mut out = label.to_owned();
    if let Some(sub) = subpath {
        if sub.unicode_len() > 0 {
            out.append(":");
            out.append(sub);
        }
    }
    out
}

/// The path of a subdirectory inside of a tree: with `/` between its parts and
/// none at either end.
pub open spec fn inner(subpath: Seq<char>) -> Seq<char> {
    text::trimmed_of(text::replaced(subpath, '\\', '/'), CharClass::Only('/'))
}

/// The path of a subdirectory inside of a tree; `None` where that is the whole
/// tree.
pub fn inner_path(subpath: &str) -> (r: Option<String>)
    ensures
        r is Some <==> inner(subpath@).len() > 0,
        r matches Some(path) ==> path@ == inner(subpath@),
{
    let slashed = text::replace(subpath, '\\', '/');
    let path = text::trim_of(slashed.as_str(), CharClass::Only('/'));
    if path.as_str().unicode_len() == 0 {
        None
    } else {
        Some(path)
    }
}

/// How a record of a tree appears: a blob is an entry that its hash
/// identifies; directories, submodules and links are not entries.
pub fn entry(is_blob: bool, path: &str, id: &str) -> (r: Option<Entry>)
    ensures
        r is Some <==> is_blob,
        r matches Some(entry) ==> entry@ == (EntryModel {
            path: path@,
            size: None,
            content_id: Some(id@),
        }),
{
    if is_blob {
        Some(Entry { path: path.to_owned(), size: None, content_id: Some(id.to_owned()) })
    } else {
        None
    }
}

/// A tree is called by its label, and with a subdirectory behind a colon where
/// it is narrowed to one.
pub proof fn law_a_subdirectory_stands_behind_a_colon(label: Seq<char>, sub: Seq<char>)
    ensures
        label_of(label, None) == label,
        sub.len() == 0 ==> label_of(label, Some(sub)) == label,
        sub.len() > 0 ==> {
            let r = label_of(label, Some(sub));
            &&& r.len() == label.len() + 1 + sub.len()
            &&& r.take(label.len() as int) == label
            &&& r[label.len() as int] == ':'
            &&& r.skip(label.len() as int + 1) == sub
        },
{
    reveal_strlit(":");
    if sub.len() > 0 {
        let r = label_of(label, Some(sub));
        assert(r.take(label.len() as int) =~= label);
        assert(r.skip(label.len() as int + 1) =~= sub);
    }
}

/// Inside of a tree a path has slashes only, and none at either end; what stands
/// between them is as it was.
pub proof fn law_inner_paths_have_slashes_inside_only(subpath: Seq<char>) -> (at: int)
    ensures
        ({
            let path = inner(subpath);
            let is_slash = |c: char| c == '/' || c == '\\';
            &&& path.len() > 0 ==> path[0] != '/' && path[path.len() - 1] != '/'
            &&& 0 <= at <= at + path.len() <= subpath.len()
            &&& forall|i: int|
                0 <= i < path.len() ==> #[trigger] path[i] == if is_slash(subpath[at + i]) {
                    '/'
                } else {
                    subpath[at + i]
                }
            &&& forall|i: int|
                0 <= i < at || at + path.len() <= i < subpath.len() ==> is_slash(
                    #[trigger] subpath[i],
                )
        }),
{
    let s = text::replaced(subpath, '\\', '/');
    let class = CharClass::Only('/');
    let path = inner(subpath);
    let is_slash = |c: char| c == '/' || c == '\\';
    text::law_trimming_a_text_takes_off_the_class_only(s, class);
    let at = choose|at: int|
        {
            &&& 0 <= at <= at + path.len() <= s.len()
            &&& path == #[trigger] s.subrange(at, at + path.len())
            &&& forall|i: int|
                (0 <= i < at || at + path.len() <= i < s.len()) ==> text::belongs(
                    class,
                    #[trigger] s[i],
                )
        };
    assert forall|i: int| 0 <= i < path.len() implies #[trigger] path[i] == if is_slash(
        subpath[at + i],
    ) {
        '/'
    } else {
        subpath[at + i]
    } by {
        assert(path[i] == s[at + i]);
    }
    assert forall|i: int| 0 <= i < at || at + path.len() <= i < subpath.len() implies is_slash(
        #[trigger] subpath[i],
    ) by {
        assert(text::belongs(class, s[i]));
    }
    at
}

} // verus!
