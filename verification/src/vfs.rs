//! What a source of files shows: a flat list of entries.

use vstd::prelude::*;

pub mod dir;
pub mod empty;
pub mod git;
pub mod ignore_vfs;

pub use dir::{DirVfs, IgnoreConfig};
pub use empty::EmptyVfs;
pub use ignore_vfs::{IgnoreRules, IgnoreState, Mask};

verus! {

/// One file that a source shows.
#[derive(Debug, Clone, PartialEq, Eq, PartialOrd, Ord)]
pub struct Entry {
    /// The path below the root of the source, with `/` between its parts.
    pub path: String,
    /// The size in bytes, where the source knows it without reading the file.
    pub size: Option<u64>,
    /// What identifies the contents, where the source has such a thing. Two
    /// entries with the same identity have the same contents.
    pub content_id: Option<String>,
}

/// An [`Entry`], with its texts as sequences of characters.
#[verifier::ext_equal]
pub struct EntryModel {
    pub path: Seq<char>,
    pub size: Option<u64>,
    pub content_id: Option<Seq<char>>,
}

/// A text that may be missing, as a sequence of characters.
pub open spec fn text_view(text: Option<String>) -> Option<Seq<char>> {
    match text {
        Some(text) => Some(text@),
        None => None,
    }
}

impl View for Entry {
    type V = EntryModel;

    open spec fn view(&self) -> EntryModel {
        EntryModel { path: self.path@, size: self.size, content_id: text_view(self.content_id) }
    }
}

/// What some entries are.
pub open spec fn entry_views(entries: Seq<Entry>) -> Seq<EntryModel> {
    entries.map_values(|e: Entry| e@)
}

impl Entry {
    /// An entry of which only the path is known.
    pub fn new(path: &str) -> (r: Entry)
        ensures
            r@ == (EntryModel { path: path@, size: None, content_id: None }),
    {
        Entry { path: path.to_owned(), size: None, content_id: None }
    }

    /// The same entry again.
    pub fn copy(&self) -> (r: Entry)
        ensures
            r@ == self@,
    {
        let content_id = match &self.content_id {
            Some(id) => Some(id.clone()),
            None => None,
        };
        Entry { path: self.path.clone(), size: self.size, content_id }
    }
}

} // verus!
