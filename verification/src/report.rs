//! Counting the results of a run.

use vstd::prelude::*;

use crate::test_case::TestCase;
use crate::test_result::{TestResult, TestResultPassStatus};

verus! {

/// The counts of a run's report: how long the run took and how many tests ended in each
/// status.
#[derive(Debug, Clone, Copy, PartialEq, Eq)]
pub struct ReportCounts {
    pub duration_ms: u128,
    pub total: usize,
    pub passed: usize,
    pub failed: usize,
    pub ignored: usize,
    pub skipped: usize,
}

/// How many of `results` ended with `status`.
pub open spec fn count_status(results: Seq<(TestCase, TestResult)>, status: TestResultPassStatus) -> nat
    decreases results.len(),
{
    if results.len() == 0 {
        0
    } else {
        count_status(results.drop_last(), status) + if results.last().1.passed == status {
            1nat
        } else {
            0nat
        }
    }
}

/// Counts `results`, which the run took `duration_ms` milliseconds to give.
pub fn report_counts(results: &Vec<(TestCase, TestResult)>, duration_ms: u128) -> (r: ReportCounts)
    ensures
        r.duration_ms == duration_ms,
        r.total == results@.len(),
        r.passed == count_status(results@, TestResultPassStatus::Passed),
        r.failed == count_status(results@, TestResultPassStatus::Failed),
        r.ignored == count_status(results@, TestResultPassStatus::Ignored),
        r.skipped == count_status(results@, TestResultPassStatus::Skip),
{
    let mut passed: usize = 0;
    let mut failed: usize = 0;
    let mut ignored: usize = 0;
    let mut skipped: usize = 0;
    let mut i: usize = 0;
    while i < results.len()
        invariant
            i <= results@.len(),
            passed == count_status(results@.take(i as int), TestResultPassStatus::Passed),
            failed == count_status(results@.take(i as int), TestResultPassStatus::Failed),
            ignored == count_status(results@.take(i as int), TestResultPassStatus::Ignored),
            skipped == count_status(results@.take(i as int), TestResultPassStatus::Skip),
            passed + failed + ignored + skipped == i,
        decreases results@.len() - i,
    {
        assert(results@.take(i + 1).drop_last() =~= results@.take(i as int));
        match results[i].1.passed {
            TestResultPassStatus::Passed => passed += 1,
            TestResultPassStatus::Failed => failed += 1,
            TestResultPassStatus::Ignored => ignored += 1,
            TestResultPassStatus::Skip => skipped += 1,
        }
        i = i + 1;
    }
    assert(results@.take(i as int) =~= results@);
    ReportCounts { duration_ms, total: results.len(), passed, failed, ignored, skipped }
}

/// Law: every result is counted under exactly one status, so the four counts add up to
/// the number of results.
pub proof fn law_counts_add_up(results: Seq<(TestCase, TestResult)>)
    ensures
        count_status(results, TestResultPassStatus::Passed) + count_status(
            results,
            TestResultPassStatus::Failed,
        ) + count_status(results, TestResultPassStatus::Ignored) + count_status(
            results,
            TestResultPassStatus::Skip,
        ) == results.len(),
    decreases results.len(),
{
    if results.len() > 0 {
        law_counts_add_up(results.drop_last());
    }
}

} // verus!
