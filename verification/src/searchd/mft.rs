//! Filling the reference index from master-file-table enumeration buffers.
use vstd::prelude::*;
use crate::searchd::file_entry_v2::{added, FileEntry, IndexState, MemoryIndex};
use crate::usn::{MftBatch, MftRecord};

verus! {

/// The state after adding the entries `es` in order.
pub open spec fn added_all(s: IndexState, es: Seq<FileEntry>) -> IndexState
    decreases es.len(),
{
    if es.len() == 0 {
        s
    } else {
        added(added_all(s, es.drop_last()), es.last())
    }
}

/// The entry made for an enumerated record: size unknown (0).
pub open spec fn entry_matches_record(e: FileEntry, r: (u64, u64, Seq<char>, u32)) -> bool {
    &&& e.file_ref == r.0
    &&& e.parent_ref == r.1
    &&& e.name_view() == r.2
    &&& e.size == 0
    &&& e.attributes == r.3
}

/// Add the files of one enumeration buffer to the index, in order; returns
/// how many were added.
pub fn index_mft_batch(index: &mut MemoryIndex, batch: MftBatch) -> (count: u64)
    requires
        old(index).wf(),
    ensures
        final(index).wf(),
        count == batch.records@.len(),
        exists|es: Seq<FileEntry>|
            {
                &&& es.len() == batch.records@.len()
                &&& forall|k: int|
                    0 <= k < es.len() ==> entry_matches_record(
                        #[trigger] es[k],
                        batch.records@[k].fields(),
                    )
                &&& final(index)@ == added_all(old(index)@, es)
            },
{
    let ghost mut es: Seq<FileEntry> = Seq::empty();
    let mut count: u64 = 0;
    let ghost all = batch.records@;
    let total: usize = batch.records.len();
    for record in it: batch.records.into_iter()
        invariant
            index.wf(),
            it.seq() == all,
            all.len() == total,
            es.len() == it.index(),
            count == it.index(),
            forall|j: int| 0 <= j < es.len() ==> entry_matches_record(#[trigger] es[j], all[j].fields()),
            index@ == added_all(old(index)@, es),
    {
        let ghost k = it.index();
        assert(record == all[k]);
        let entry = FileEntry::new(record.file_ref, record.parent_ref, record.name, 0, record.attributes);
        let ghost prev = es;
        proof {
            es = es.push(entry);
        }
        index.add_entry(entry);
        assert(es.drop_last() =~= prev);
        assert(k < total);
        count = count + 1;
    }
    count
}

} // verus!
