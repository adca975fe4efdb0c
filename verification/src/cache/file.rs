//! Files below the root of the cache, by key.

use vstd::prelude::*;

use super::{join_path, joined};

verus! {

/// A directory that holds files by relative path.
#[derive(Debug)]
pub struct FileCache {
    root: String,
}

impl FileCache {
    /// The directory.
    pub closed spec fn root_text(self) -> Seq<char> {
        self.root@
    }

    /// A cache in `root`. Nothing is created or checked.
    pub fn open(root: String) -> (c: FileCache)
        ensures
            c.root_text() == root@,
    {
        FileCache { root }
    }

    /// Where the file with the given key is.
    pub fn path(&self, key: &str) -> (out: String)
        ensures
            out@ == joined(self.root_text(), key@),
    {
        join_path(self.root.as_str(), key)
    }
}

} // verus!
