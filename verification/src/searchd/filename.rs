//! File-name search over the path index.
use vstd::prelude::*;
use crate::searchd::file_entry::FileEntry;
use crate::searchd::memory::{search_result, MemoryIndex};
use crate::text::lowercase_of;

verus! {

/// Search for files by filename (case-insensitive substring match)
pub fn search_filename(index: &MemoryIndex, keyword: &str, limit: usize) -> (r: Vec<FileEntry>)
    requires
        index.wf(),
    ensures
        r@ == search_result(index@, lowercase_of(keyword@), limit),
{
    index.search(keyword, limit)
}

} // verus!
