//! The search daemon's model: a path-keyed index of file names and a
//! reference-keyed index of NTFS file records.
pub mod file_entry;
pub mod memory;
pub mod file_entry_v2;
pub mod filename;
pub mod mft;
pub mod journal;
