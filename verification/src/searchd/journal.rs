//! Keeping the reference index current from the change journal: a created
//! file is added, a deleted one removed, and a renamed one replaced by its
//! new name and parent.
use vstd::prelude::*;
use crate::searchd::file_entry_v2::{
    added, entry_for, removed, state_wf, updated, FileEntry, MemoryIndex,
};
use crate::usn::{ChangeKind, UsnChange};

verus! {

/// `e` is the index entry for the file that change `c` reports: its
/// reference, parent, name and attributes, with no size (the journal does
/// not report one).
pub open spec fn change_entry(e: FileEntry, c: (ChangeKind, Seq<char>, u64, u64, u32)) -> bool {
    &&& e.file_ref == c.2
    &&& e.parent_ref == c.3
    &&& e.name_view() == c.1
    &&& e.size == 0
    &&& e.attributes == c.4
}

/// Apply one journal change to the index: a creation adds the file, a
/// deletion removes its reference, a rename replaces the entry of its
/// reference by the new name and parent.
pub fn apply_change(index: &mut MemoryIndex, change: UsnChange)
    requires
        old(index).wf(),
    ensures
        final(index).wf(),
        change.kind == ChangeKind::Created ==> exists|e: FileEntry|
            change_entry(e, change.fields()) && final(index)@ == added(old(index)@, e),
        change.kind == ChangeKind::Deleted ==> final(index)@ == removed(
            old(index)@,
            change.file_ref,
        ),
        change.kind == ChangeKind::Renamed ==> exists|e: FileEntry|
            change_entry(e, change.fields()) && final(index)@ == updated(
                old(index)@,
                change.file_ref,
                e,
            ),
{
    let ghost fields = change.fields();
    match change.kind {
        ChangeKind::Created => {
            let e = FileEntry::new(change.file_ref, change.parent_ref, change.name, 0, change.attributes);
            let ghost eg = e;
            index.add_entry(e);
            assert(change_entry(eg, fields));
        },
        ChangeKind::Deleted => {
            index.remove_entry(change.file_ref);
        },
        ChangeKind::Renamed => {
            let r = change.file_ref;
            let e = FileEntry::new(r, change.parent_ref, change.name, 0, change.attributes);
            let ghost eg = e;
            index.update_entry(r, e);
            assert(change_entry(eg, fields));
        },
    }
}

/// After a journal change is applied, the file's reference shows it: a
/// created file is found with its new entry, a deleted one is not found,
/// and a renamed one that was indexed is found with its new name and parent.
pub proof fn law_change_is_visible(
    s: crate::searchd::file_entry_v2::IndexState,
    c: (ChangeKind, Seq<char>, u64, u64, u32),
    e: FileEntry,
)
    requires
        state_wf(s),
        change_entry(e, c),
    ensures
        entry_for(added(s, e), c.2) == Some(e),
        entry_for(removed(s, c.2), c.2) is None,
        s.refs.contains_key(c.2) ==> entry_for(updated(s, c.2, e), c.2) == Some(e),
{
    assert(added(s, e).entries[s.entries.len() as int] == e);
}

} // verus!
