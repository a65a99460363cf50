//! What a search shows for one file.
use vstd::prelude::*;

verus! {

/// A search hit: the file's name, its full path, its size and attributes.
#[derive(Debug, Clone)]
pub struct SearchResult {
    pub filename: String,
    pub path: String,
    pub size: u64,
    pub attributes: u32,
}

impl SearchResult {
    /// The fields as plain values: name, path, size, attributes.
    pub open spec fn fields(&self) -> (Seq<char>, Seq<char>, u64, u32) {
        (self.filename@, self.path@, self.size, self.attributes)
    }
}

} // verus!
