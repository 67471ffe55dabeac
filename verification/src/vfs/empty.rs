//! A source with nothing in it.

use vstd::prelude::*;

use crate::vfs::Entry;

verus! {

/// A source that shows no files. It stands in for a side of a comparison that
/// does not exist.
#[derive(Debug, Clone)]
pub struct EmptyVfs {
    description: String,
}

impl EmptyVfs {
    pub closed spec fn description(&self) -> Seq<char> {
        self.description@
    }

    /// An empty source; `description` says what was looked for.
    pub fn new(description: &str) -> (r: EmptyVfs)
        ensures
            r.description() == description@,
    {
        EmptyVfs { description: description.to_owned() }
    }

    /// What was looked for.
    pub fn describe(&self) -> (r: String)
        ensures
            r@ == self.description(),
    {
        self.description.clone()
    }

    /// No entries.
    pub fn entries(&self) -> (r: Vec<Entry>)
        ensures
            r@.len() == 0,
    {
        Vec::new()
    }

    /// Why a file of this source cannot be read.
    pub fn refusal(&self, path: &str) -> (r: String)
        ensures
            r@ == self.description() + " is empty, so "@ + path@ + " cannot be read"@,
    {
        let mut out = self.description.clone();
        out.append(" is empty, so ");
        out.append(path);
        out.append(" cannot be read");
        out
    }
}

} // verus!
