//! A file known by its full path and its name.
use vstd::prelude::*;

verus! {

/// Represents a file entry in the index
#[derive(Debug, Clone)]
pub struct FileEntry {
    /// Full path to the file
    pub path: String,
    /// Filename only (for quick lookup)
    pub filename: String,
}

impl FileEntry {
    pub fn new(path: String, filename: String) -> (r: Self)
        ensures
            r.path == path,
            r.filename == filename,
    {
        Self { path, filename }
    }

    /// A field-by-field copy.
    pub fn copied(&self) -> (r: Self)
        ensures
            r == *self,
    {
        Self { path: self.path.clone(), filename: self.filename.clone() }
    }
}

} // verus!
