//! The desktop application's model: file records of several drives in one
//! index, keyed by drive letter and file reference, and the search that
//! turns matching records into results with full paths.
pub mod file_entry;
pub mod memory_index;
pub mod search_result;
pub mod filename;
pub mod commands;
pub mod mft;
pub mod content;
pub mod journal;
