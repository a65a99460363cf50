//! File-name search over the drive index.
use vstd::prelude::*;
use crate::desktop::file_entry::FileEntry;
use crate::desktop::memory_index::{search_result, MemoryIndex};
use crate::text::lowercase_of;

verus! {

/// Search for files by filename (case-insensitive substring match)
pub fn search_filename(index: &MemoryIndex, keyword: &str, limit: usize) -> (r: Vec<FileEntry>)
    ensures
        r@ == search_result(index@, lowercase_of(keyword@), limit),
{
    index.search(keyword, limit)
}

} // verus!
