//! The decisions of the daemon's request handlers that do not touch the
//! volume: how an indexing run is summed up, which drive a monitoring
//! request names, and what the monitoring requests answer.
use vstd::prelude::*;
use vstd::string::StringExecFns;

verus! {

broadcast use vstd::string::group_string_axioms;

/// The sum of the counts of the roots that were indexed; roots that failed
/// count nothing.
pub open spec fn indexed_sum(results: Seq<Result<u64, String>>) -> int
    decreases results.len(),
{
    if results.len() == 0 {
        0
    } else {
        indexed_sum(results.drop_last()) + match results.last() {
            Ok(n) => n as int,
            Err(_) => 0int,
        }
    }
}

/// The answer to an indexing request.
#[derive(Debug, Clone, Copy, PartialEq, Eq)]
pub struct BuildSummary {
    pub success: bool,
    pub indexed_files: u64,
}

/// Sum up an indexing run over several roots: the files of the roots that
/// were indexed are added up, failed roots are skipped, and the run
/// succeeded when at least one file was indexed.
pub fn summarize_build(results: &Vec<Result<u64, String>>) -> (r: BuildSummary)
    requires
        indexed_sum(results@) <= u64::MAX,
    ensures
        r.indexed_files == indexed_sum(results@),
        r.success == (indexed_sum(results@) > 0),
{
    let mut total: u64 = 0;
    let mut i: usize = 0;
    while i < results.len()
        invariant
            i <= results@.len(),
            total == indexed_sum(results@.take(i as int)),
            indexed_sum(results@) <= u64::MAX,
        decreases results@.len() - i,
    {
        assert(results@.take(i + 1).drop_last() == results@.take(i as int));
        proof {
            lemma_indexed_sum_prefix(results@, i + 1);
        }
        match &results[i] {
            Ok(count) => {
                total = total + *count;
            },
            Err(_) => {},
        }
        i = i + 1;
    }
    assert(results@.take(i as int) == results@);
    BuildSummary { success: total > 0, indexed_files: total }
}

/// The sum over a prefix is at most the sum over the whole sequence.
proof fn lemma_indexed_sum_prefix(results: Seq<Result<u64, String>>, k: int)
    requires
        0 <= k <= results.len(),
    ensures
        0 <= indexed_sum(results.take(k)) <= indexed_sum(results),
    decreases results.len() - k,
{
    if k < results.len() {
        lemma_indexed_sum_prefix(results, k + 1);
        assert(results.take(k + 1).drop_last() == results.take(k));
    } else {
        assert(results.take(k) == results);
    }
    lemma_indexed_sum_nonneg(results.take(k));
}

proof fn lemma_indexed_sum_nonneg(results: Seq<Result<u64, String>>)
    ensures
        indexed_sum(results) >= 0,
    decreases results.len(),
{
    if results.len() > 0 {
        lemma_indexed_sum_nonneg(results.drop_last());
    }
}

/// The drive a monitoring request names: the first character of its text,
/// or `C` when the text is empty.
pub open spec fn requested_drive(text: Seq<char>) -> char {
    if text.len() > 0 {
        text[0]
    } else {
        'C'
    }
}

pub fn requested_drive_letter(text: &str) -> (r: char)
    ensures
        r == requested_drive(text@),
{
    let mut chars = text.chars();
    match chars.next() {
        Some(c) => c,
        None => 'C',
    }
}

/// What a request to start monitoring leads to.
#[derive(Debug, Clone, Copy, PartialEq, Eq)]
pub enum StartDecision {
    /// Monitoring runs already; the request is refused.
    AlreadyRunning,
    /// Open the volume of this drive and start monitoring it.
    Start(char),
}

/// Decide a request to start monitoring.
pub fn start_monitoring_decision(running: bool, requested: &str) -> (r: StartDecision)
    ensures
        running ==> r == StartDecision::AlreadyRunning,
        !running ==> r == StartDecision::Start(requested_drive(requested@)),
{
    if running {
        StartDecision::AlreadyRunning
    } else {
        StartDecision::Start(requested_drive_letter(requested))
    }
}

/// The answer to a refused start request.
pub fn already_running_message() -> (r: String)
    ensures
        r@ == "USN monitoring is already running"@,
{
    String::from_str("USN monitoring is already running")
}

/// The answer to a stop request: whether monitoring was running, and the
/// message, which tells whether the monitoring thread could be joined.
pub fn stop_monitoring_answer(was_running: bool, joined: bool) -> (r: (bool, String))
    ensures
        r.0 == was_running,
        !was_running ==> r.1@ == "USN monitoring is not running"@,
        was_running && joined ==> r.1@ == "USN monitoring stopped successfully"@,
        was_running && !joined ==> r.1@
            == "USN monitoring stop signal sent (thread may still be finishing)"@,
{
    if !was_running {
        (false, String::from_str("USN monitoring is not running"))
    } else if joined {
        (true, String::from_str("USN monitoring stopped successfully"))
    } else {
        (true, String::from_str("USN monitoring stop signal sent (thread may still be finishing)"))
    }
}

} // verus!
