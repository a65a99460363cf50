//! A file record of one drive.
use vstd::prelude::*;
use std::sync::Arc;
use crate::text::{
    arc_str_clone, arc_str_from, ascii_upper, hash_str, lowercase_of, str_hash, to_ascii_uppercase,
    to_lowercase,
};

verus! {

broadcast use vstd::string::group_string_axioms;

/// The attribute bit that marks a directory.
pub const FILE_ATTRIBUTE_DIRECTORY: u32 = 0x10;

/// Compact file entry: one record of a drive's master file table.
#[derive(Debug, Clone)]
pub struct FileEntry {
    /// Drive letter (e.g., 'C')
    pub drive_letter: char,
    /// MFT File Reference Number (unique identifier within volume)
    pub file_ref: u64,
    /// Parent directory MFT Reference
    pub parent_ref: u64,
    /// File name only (not full path)
    pub name: Arc<str>,
    /// File size in bytes
    pub size: u64,
    /// File attributes (directory, hidden, system, etc.)
    pub attributes: u32,
}

/// The reference number that a path is given when it has none of its own:
/// the `DefaultHasher` hash of the path string, i.e. of its UTF-8 bytes
/// followed by the byte `0xff`.
pub open spec fn path_hash(path: Seq<char>) -> u64 {
    str_hash(path)
}

/// The drive letter taken from a path: its first character in ASCII upper
/// case, or `C` for an empty path.
pub open spec fn path_drive_letter(path: Seq<char>) -> char {
    ascii_upper(if path.len() > 0 { path[0] } else { 'C' })
}

impl FileEntry {
    /// The characters of the name.
    pub open spec fn name_view(&self) -> Seq<char> {
        (*self.name)@
    }

    pub fn new(
        drive_letter: char,
        file_ref: u64,
        parent_ref: u64,
        name: String,
        size: u64,
        attributes: u32,
    ) -> (r: Self)
        ensures
            r.drive_letter == drive_letter,
            r.file_ref == file_ref,
            r.parent_ref == parent_ref,
            r.name_view() == name@,
            r.size == size,
            r.attributes == attributes,
    {
        Self { drive_letter, file_ref, parent_ref, name: arc_str_from(name), size, attributes }
    }

    /// Create from a path and a file name, for files that have no MFT
    /// record: the reference is the hash of the path, the drive letter is the
    /// path's first character in upper case, and there is no parent.
    pub fn from_path_filename(path: String, filename: String) -> (r: Self)
        ensures
            r.drive_letter == path_drive_letter(path@),
            r.file_ref == path_hash(path@),
            r.parent_ref == 0,
            r.name_view() == filename@,
            r.size == 0,
            r.attributes == 0,
    {
        let file_ref = hash_str(path.as_str());
        let mut chars = path.as_str().chars();
        let first = match chars.next() {
            Some(c) => c,
            None => 'C',
        };
        let drive_letter = to_ascii_uppercase(first);
        Self {
            drive_letter,
            file_ref,
            parent_ref: 0,
            name: arc_str_from(filename),
            size: 0,
            attributes: 0,
        }
    }

    /// Check if this entry is a directory
    pub fn is_directory(&self) -> (r: bool)
        ensures
            r == (self.attributes & FILE_ATTRIBUTE_DIRECTORY != 0),
    {
        (self.attributes & FILE_ATTRIBUTE_DIRECTORY) != 0
    }

    /// Get lowercase name for case-insensitive search
    pub fn name_lowercase(&self) -> (r: String)
        ensures
            r@ == lowercase_of(self.name_view()),
    {
        to_lowercase(&self.name)
    }

    /// Get the filename as a string
    pub fn filename(&self) -> (r: &str)
        ensures
            r@ == self.name_view(),
    {
        &self.name
    }

    /// A field-by-field copy sharing the name.
    pub fn copied(&self) -> (r: Self)
        ensures
            r == *self,
    {
        Self {
            drive_letter: self.drive_letter,
            file_ref: self.file_ref,
            parent_ref: self.parent_ref,
            name: arc_str_clone(&self.name),
            size: self.size,
            attributes: self.attributes,
        }
    }
}

} // verus!
