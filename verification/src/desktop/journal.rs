//! Keeping the desktop index current from a drive's change journal: a
//! created file is added, a deleted one removed, and a renamed one replaced
//! by its new name and parent, all on the drive being followed.
use vstd::prelude::*;
use crate::desktop::file_entry::FileEntry;
use crate::desktop::memory_index::{added, removed, updated, MemoryIndex};
use crate::usn::{ChangeKind, UsnChange};

verus! {

/// `e` is the index entry, on drive `drive`, for the file that change `c`
/// reports: its reference, parent, name and attributes, with no size (the
/// journal does not report one).
pub open spec fn change_entry(
    e: FileEntry,
    drive: char,
    c: (ChangeKind, Seq<char>, u64, u64, u32),
) -> bool {
    &&& e.drive_letter == drive
    &&& e.file_ref == c.2
    &&& e.parent_ref == c.3
    &&& e.name_view() == c.1
    &&& e.size == 0
    &&& e.attributes == c.4
}

/// Apply one journal change of drive `drive_letter` to the index: a
/// creation adds the file, a deletion removes its record, a rename replaces
/// the entry of its record by the new name and parent.
pub fn apply_change(index: &mut MemoryIndex, drive_letter: char, change: UsnChange)
    requires
        old(index).wf(),
    ensures
        final(index).wf(),
        change.kind == ChangeKind::Created ==> exists|e: FileEntry|
            change_entry(e, drive_letter, change.fields()) && final(index)@ == added(
                old(index)@,
                e,
            ),
        change.kind == ChangeKind::Deleted ==> final(index)@ == removed(
            old(index)@,
            drive_letter,
            change.file_ref,
        ),
        change.kind == ChangeKind::Renamed ==> exists|e: FileEntry|
            change_entry(e, drive_letter, change.fields()) && final(index)@ == updated(
                old(index)@,
                drive_letter,
                change.file_ref,
                e,
            ),
{
    let ghost fields = change.fields();
    let r = change.file_ref;
    match change.kind {
        ChangeKind::Created => {
            let e = FileEntry::new(
                drive_letter,
                r,
                change.parent_ref,
                change.name,
                0,
                change.attributes,
            );
            let ghost eg = e;
            index.add_entry(e);
            assert(change_entry(eg, drive_letter, fields));
        },
        ChangeKind::Deleted => {
            index.remove_entry(drive_letter, r);
        },
        ChangeKind::Renamed => {
            let e = FileEntry::new(
                drive_letter,
                r,
                change.parent_ref,
                change.name,
                0,
                change.attributes,
            );
            let ghost eg = e;
            index.update_entry(drive_letter, r, e);
            assert(change_entry(eg, drive_letter, fields));
        },
    }
}

} // verus!
