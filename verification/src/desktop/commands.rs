//! The decisions behind the application's commands: turning search hits
//! into results with full paths, and adding up the counts of an indexing
//! run over several roots.
use vstd::prelude::*;
use vstd::string::StringExecFns;
use crate::desktop::file_entry::FileEntry;
use crate::desktop::memory_index::{full_path, path_names, search_result, IndexState, MemoryIndex};
use crate::desktop::search_result::SearchResult;
use crate::text::lowercase_of;

verus! {

/// The result shown for entry `e`, if its path can be reconstructed.
pub open spec fn result_for(s: IndexState, e: FileEntry) -> Option<(Seq<char>, Seq<char>, u64, u32)> {
    let names = path_names(s, e.drive_letter, e.file_ref);
    if names.len() > 0 {
        Some((e.name_view(), full_path(e.drive_letter, names), e.size, e.attributes))
    } else {
        None
    }
}

/// The results shown for a sequence of hits, dropping hits without a path.
pub open spec fn results_for(s: IndexState, hits: Seq<FileEntry>) -> Seq<(Seq<char>, Seq<char>, u64, u32)>
    decreases hits.len(),
{
    if hits.len() == 0 {
        Seq::empty()
    } else {
        results_for(s, hits.drop_last()) + match result_for(s, hits.last()) {
            Some(x) => seq![x],
            None => Seq::empty(),
        }
    }
}

/// Search the index and describe each hit whose full path can be
/// reconstructed.
pub fn search(index: &MemoryIndex, keyword: &str, limit: usize) -> (r: Vec<SearchResult>)
    requires
        index.wf(),
    ensures
        r@.map_values(|x: SearchResult| x.fields()) == results_for(
            index@,
            search_result(index@, lowercase_of(keyword@), limit),
        ),
{
    let hits = index.search(keyword, limit);
    let ghost s = index@;
    let mut out: Vec<SearchResult> = Vec::new();
    let mut i: usize = 0;
    while i < hits.len()
        invariant
            s == index@,
            index.wf(),
            i <= hits@.len(),
            out@.map_values(|x: SearchResult| x.fields()) == results_for(s, hits@.take(i as int)),
        decreases hits@.len() - i,
    {
        let entry = &hits[i];
        assert(hits@.take(i + 1).drop_last() == hits@.take(i as int));
        let ghost before = out@;
        match index.get_full_path(entry.drive_letter, entry.file_ref) {
            Some(path) => {
                let filename = String::from_str(&entry.name);
                out.push(SearchResult { filename, path, size: entry.size, attributes: entry.attributes });
                assert(out@.map_values(|x: SearchResult| x.fields()) =~= before.map_values(
                    |x: SearchResult| x.fields(),
                ).push(out@[out@.len() - 1].fields()));
            },
            None => {},
        }
        assert(out@.map_values(|x: SearchResult| x.fields()) =~= results_for(s, hits@.take(i + 1)));
        i = i + 1;
    }
    assert(hits@.take(i as int) == hits@);
    out
}

/// The outcome of indexing several roots in turn: the first failure, or
/// the sum of the counts.
pub open spec fn indexing_outcome(results: Seq<Result<u64, String>>) -> Result<int, Seq<char>>
    decreases results.len(),
{
    if results.len() == 0 {
        Ok(0)
    } else {
        match indexing_outcome(results.drop_last()) {
            Err(e) => Err(e),
            Ok(sum) => match results.last() {
                Ok(n) => Ok(sum + n),
                Err(e) => Err(e@),
            },
        }
    }
}

/// Combine the per-root results of an indexing run: the first error is
/// returned as it is; otherwise the counts are added up.
pub fn total_indexed(results: &Vec<Result<u64, String>>) -> (r: Result<u64, String>)
    requires
        forall|k: int|
            0 <= k <= results@.len() ==> (#[trigger] indexing_outcome(results@.take(k)) matches Ok(
                sum,
            ) ==> sum <= u64::MAX),
    ensures
        match (r, indexing_outcome(results@)) {
            (Ok(n), Ok(sum)) => n == sum,
            (Err(e), Err(msg)) => e@ == msg,
            _ => false,
        },
{
    let mut total: u64 = 0;
    let mut i: usize = 0;
    while i < results.len()
        invariant
            i <= results@.len(),
            indexing_outcome(results@.take(i as int)) == Ok::<int, Seq<char>>(total as int),
            forall|k: int|
                0 <= k <= results@.len() ==> (#[trigger] indexing_outcome(results@.take(k)) matches Ok(
                    sum,
                ) ==> sum <= u64::MAX),
        decreases results@.len() - i,
    {
        assert(results@.take(i + 1).drop_last() == results@.take(i as int));
        match &results[i] {
            Ok(count) => {
                assert(indexing_outcome(results@.take(i + 1)) matches Ok(sum) && sum <= u64::MAX);
                total = total + *count;
            },
            Err(e) => {
                proof {
                    lemma_outcome_error_sticks(results@, i + 1);
                }
                return Err(e.clone());
            },
        }
        i = i + 1;
    }
    assert(results@.take(i as int) == results@);
    Ok(total)
}

/// An error in a prefix is the outcome of the whole sequence.
proof fn lemma_outcome_error_sticks(results: Seq<Result<u64, String>>, k: int)
    requires
        0 <= k <= results.len(),
        indexing_outcome(results.take(k)) is Err,
    ensures
        indexing_outcome(results) == indexing_outcome(results.take(k)),
    decreases results.len() - k,
{
    if k < results.len() {
        assert(results.take(k + 1).drop_last() == results.take(k));
        lemma_outcome_error_sticks(results, k + 1);
    } else {
        assert(results.take(k) == results);
    }
}

} // verus!
