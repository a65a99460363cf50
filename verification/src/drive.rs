//! Recognising drive roots such as `C:\` and extracting their letter.
use vstd::prelude::*;
use vstd::string::StringExecFns;
use crate::text::{ascii_upper, chars_of, is_ascii_alphabetic, is_ascii_letter, to_ascii_uppercase};

verus! {

/// `path` names the root of a drive: a letter and a colon, optionally
/// followed by one `\` or `/` and nothing else.
pub open spec fn is_root_drive(path: Seq<char>) -> bool {
    if path.len() == 3 && path[1] == ':' && (path[2] == '\\' || path[2] == '/') {
        is_ascii_letter(path[0])
    } else if path.len() == 2 && path[1] == ':' {
        is_ascii_letter(path[0])
    } else {
        false
    }
}

/// Check if a path is the root of a drive (`C:\`, `D:/`, `C:`).
pub fn is_root_drive_path(path: &str) -> (r: bool)
    ensures
        r == is_root_drive(path@),
{
    let chars = chars_of(path);
    if chars.len() == 3 && chars[1] == ':' && (chars[2] == '\\' || chars[2] == '/') {
        return is_ascii_alphabetic(chars[0]);
    }
    if chars.len() == 2 && chars[1] == ':' {
        return is_ascii_alphabetic(chars[0]);
    }
    false
}

/// A path that does not start with a drive letter and a colon.
#[derive(Debug, Clone, Copy, PartialEq, Eq)]
pub enum DriveError {
    InvalidPathFormat,
}

impl DriveError {
    /// The text of the error.
    pub fn message(&self) -> (r: String)
        ensures
            r@ == "Invalid path format, expected drive letter (e.g., C:\\)"@,
    {
        String::from_str("Invalid path format, expected drive letter (e.g., C:\\)")
    }
}

/// The upper-case drive letter that `path` starts with, if it starts with
/// an ASCII letter and a colon.
pub open spec fn drive_letter_of(path: Seq<char>) -> Option<char> {
    if path.len() >= 2 && path[1] == ':' && is_ascii_letter(ascii_upper(path[0])) {
        Some(ascii_upper(path[0]))
    } else {
        None
    }
}

/// Extract the (upper-case) drive letter from a path such as `d:\folder`.
pub fn extract_drive_letter(path: &str) -> (r: Result<char, DriveError>)
    ensures
        match drive_letter_of(path@) {
            Some(c) => r == Ok::<char, DriveError>(c),
            None => r == Err::<char, DriveError>(DriveError::InvalidPathFormat),
        },
{
    let chars = chars_of(path);
    if chars.len() >= 2 && chars[1] == ':' {
        let drive = to_ascii_uppercase(chars[0]);
        if is_ascii_alphabetic(drive) {
            return Ok(drive);
        }
    }
    Err(DriveError::InvalidPathFormat)
}

/// How a root is indexed: a drive root through its master file table (with
/// a directory walk when that fails), anything else by walking directories.
#[derive(Debug, Clone, Copy, PartialEq, Eq)]
pub enum BuildStrategy {
    MftScan(char),
    DirectoryWalk,
}

/// The strategy for a root path.
pub open spec fn strategy_for(root: Seq<char>) -> Result<BuildStrategy, DriveError> {
    if is_root_drive(root) {
        match drive_letter_of(root) {
            Some(d) => Ok(BuildStrategy::MftScan(d)),
            None => Err(DriveError::InvalidPathFormat),
        }
    } else {
        Ok(BuildStrategy::DirectoryWalk)
    }
}

/// Choose how to index `root`: drive roots are read through the master
/// file table, since that covers the whole drive; other paths are walked.
pub fn build_strategy(root: &str) -> (r: Result<BuildStrategy, DriveError>)
    ensures
        r == strategy_for(root@),
{
    if is_root_drive_path(root) {
        match extract_drive_letter(root) {
            Ok(d) => Ok(BuildStrategy::MftScan(d)),
            Err(e) => Err(e),
        }
    } else {
        Ok(BuildStrategy::DirectoryWalk)
    }
}

/// A drive root always yields a drive letter, so the strategy for a root
/// never fails.
pub proof fn law_root_has_drive_letter(root: Seq<char>)
    ensures
        strategy_for(root) is Ok,
        is_root_drive(root) ==> strategy_for(root) == Ok::<BuildStrategy, DriveError>(
            BuildStrategy::MftScan(ascii_upper(root[0])),
        ),
{
}

/// The device path of a drive's volume, `\\.\D:`.
pub fn volume_path(drive_letter: char) -> (r: String)
    ensures
        r@ == seq!['\\', '\\', '.', '\\', drive_letter, ':'],
{
    let mut out = String::from_str("\\\\.\\");
    crate::text::push_char(&mut out, drive_letter);
    crate::text::push_char(&mut out, ':');
    proof {
        reveal_strlit("\\\\.\\");
    }
    assert(out@ =~= seq!['\\', '\\', '.', '\\', drive_letter, ':']);
    out
}

/// The roots of drives are exactly a letter and a colon, followed by at
/// most one `\` or `/`: a longer path, a path without the colon in second
/// place, or one whose first character is not a letter is no root.  The
/// letter of any path that starts with a letter and a colon is that letter
/// in upper case.
pub proof fn law_drive_roots(path: Seq<char>)
    ensures
        is_root_drive(path) ==> 2 <= path.len() <= 3 && path[1] == ':' && is_ascii_letter(path[0]),
        path.len() == 2 && path[1] == ':' && is_ascii_letter(path[0]) ==> is_root_drive(path),
        path.len() == 3 && path[1] == ':' && is_ascii_letter(path[0]) && (path[2] == '\\' || path[2]
            == '/') ==> is_root_drive(path),
        path.len() == 3 && path[2] != '\\' && path[2] != '/' ==> !is_root_drive(path),
        path.len() >= 2 && path[1] == ':' && 'a' <= path[0] <= 'z' ==> drive_letter_of(path) == Some(
            ((path[0] as u32) - 32) as char,
        ),
        path.len() >= 2 && path[1] == ':' && 'A' <= path[0] <= 'Z' ==> drive_letter_of(path) == Some(
            path[0],
        ),
        (path.len() < 2 || path[1] != ':') ==> drive_letter_of(path) is None,
{
}

} // verus!
