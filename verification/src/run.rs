//! Turning the outcome of a test script into its test result.

use vstd::prelude::*;

use crate::process::{ProcessError, ProcessErrorView};
use crate::process;
use crate::report::{report_counts, ReportCounts};
use crate::test_case::{TestCase, TestCaseView};
use crate::test_result::{TestResult, TestResultPassStatus};

verus! {

/// `text` followed by a section headed `title` holding `body`, where `body` is not empty.
pub open spec fn with_section(text: Seq<char>, title: Seq<char>, body: Seq<char>) -> Seq<char> {
    if body.len() == 0 {
        text
    } else {
        text + "\n\n"@ + title + ":\n"@ + body
    }
}

/// The details reported for a script that failed with `e`: the error's text, and for an
/// exit or a timeout the script's standard output and standard error where not empty.
pub open spec fn error_details(e: ProcessErrorView) -> Seq<char> {
    match e {
        ProcessErrorView::NonZeroExit { stdout, stderr, .. } | ProcessErrorView::Timeout {
            stdout,
            stderr,
            ..
        } => with_section(
            with_section(process::error_message(e), "stdout"@, stdout),
            "stderr"@,
            stderr,
        ),
        _ => process::error_message(e),
    }
}

/// The details reported for a script that failed with `error`.
pub fn process_error_details(error: &ProcessError) -> (details: String)
    ensures
        details@ == error_details(error@),
{
    match error {
        ProcessError::NonZeroExit { stdout, stderr, .. } | ProcessError::Timeout {
            stdout,
            stderr,
            ..
        } => {
            let mut details = error.message();
            if !stdout.as_str().is_empty() {
                details.push_str("\n\nstdout:\n");
                details.push_str(stdout.as_str());
            }
            if !stderr.as_str().is_empty() {
                details.push_str("\n\nstderr:\n");
                details.push_str(stderr.as_str());
            }
            proof {
                reveal_strlit("\n\nstdout:\n");
                reveal_strlit("\n\nstderr:\n");
                reveal_strlit("\n\n");
                reveal_strlit("stdout");
                reveal_strlit("stderr");
                reveal_strlit(":\n");
            }
            details
        },
        _ => error.message(),
    }
}

/// The test result of a script whose run gave `outcome`: passed with what it printed,
/// or failed with the error's details.
pub open spec fn result_of(outcome: Result<Seq<char>, ProcessErrorView>) -> (TestResultPassStatus, Seq<char>) {
    match outcome {
        Ok(stdout) => (TestResultPassStatus::Passed, stdout),
        Err(e) => (TestResultPassStatus::Failed, error_details(e)),
    }
}

/// Pairs the test case `case` with the result of its run, whose outcome was `outcome`.
pub fn run_test(case: TestCase, outcome: Result<String, ProcessError>) -> (r: (TestCase, TestResult))
    ensures
        r.0 == case,
        (r.1.passed, r.1.details@) == result_of(process::outcome_view(outcome)),
{
    let result = match outcome {
        Ok(stdout) => TestResult { passed: TestResultPassStatus::Passed, details: stdout },
        Err(error) => TestResult {
            passed: TestResultPassStatus::Failed,
            details: process_error_details(&error),
        },
    };
    (case, result)
}

/// Law: a failed script is always reported with some details, whatever error it
/// failed with.
pub proof fn law_failure_details_not_empty(e: ProcessErrorView)
    ensures
        error_details(e).len() > 0,
        result_of(Err(e)).0 == TestResultPassStatus::Failed,
{
    reveal_strlit("failed to spawn bash for ");
    reveal_strlit("failed to wait for bash script ");
    reveal_strlit("bash script ");
    let m = process::error_message(e);
    assert(m.len() > 0);
    match e {
        ProcessErrorView::NonZeroExit { stdout, stderr, .. } | ProcessErrorView::Timeout {
            stdout,
            stderr,
            ..
        } => {
            let a = with_section(m, "stdout"@, stdout);
            assert(a.len() >= m.len());
            assert(with_section(a, "stderr"@, stderr).len() >= a.len());
        },
        _ => {},
    }
}

/// A copy of the test case `c`.
pub fn copy_case(c: &TestCase) -> (r: TestCase)
    ensures
        r@ == c@,
{
    TestCase {
        group: c.group.clone(),
        path: c.path.clone(),
        name: c.name.clone(),
        desc: c.desc.clone(),
    }
}

/// How far a run has got: the test cases it runs, in order, and the results of those
/// that have run, one per case, in the same order.
pub struct RunProgress {
    cases: Vec<TestCase>,
    results: Vec<(TestCase, TestResult)>,
}

impl RunProgress {
    /// The test cases the run runs.
    pub closed spec fn planned(&self) -> Seq<TestCaseView> {
        Seq::new(self.cases@.len(), |i: int| self.cases@[i]@)
    }

    /// The results so far.
    pub closed spec fn done(&self) -> Seq<(TestCase, TestResult)> {
        self.results@
    }

    #[verifier::type_invariant]
    spec fn results_follow_cases(&self) -> bool {
        &&& self.results@.len() <= self.cases@.len()
        &&& forall|i: int| 0 <= i < self.results@.len() ==> (#[trigger] self.results@[i]).0@
            == self.cases@[i]@
    }

    /// A run of `cases` that has not started.
    pub fn new(cases: Vec<TestCase>) -> (p: RunProgress)
        ensures
            p.planned() == Seq::new(cases@.len(), |i: int| cases@[i]@),
            p.done().len() == 0,
    {
        RunProgress { cases, results: Vec::new() }
    }

    /// The next case to run, or `None` when every case has run.
    pub fn next_case(&self) -> (c: Option<TestCase>)
        ensures
            c is None <==> self.done().len() == self.planned().len(),
            c matches Some(c) ==> c@ == self.planned()[self.done().len() as int],
    {
        proof {
            use_type_invariant(self);
        }
        if self.results.len() < self.cases.len() {
            Some(copy_case(&self.cases[self.results.len()]))
        } else {
            None
        }
    }

    /// Records the result of the next case.
    pub fn record(&mut self, test: TestCase, result: TestResult)
        requires
            old(self).done().len() < old(self).planned().len(),
            test@ == old(self).planned()[old(self).done().len() as int],
        ensures
            final(self).planned() == old(self).planned(),
            final(self).done() == old(self).done().push((test, result)),
    {
        proof {
            use_type_invariant(&*self);
        }
        let mut results: Vec<(TestCase, TestResult)> = Vec::new();
        std::mem::swap(&mut results, &mut self.results);
        results.push((test, result));
        std::mem::swap(&mut results, &mut self.results);
    }

    /// The counts of the results so far, for a run that took `duration_ms` milliseconds.
    pub fn counts(&self, duration_ms: u128) -> (r: ReportCounts)
        ensures
            r.duration_ms == duration_ms,
            r.total == self.done().len(),
            r.passed == crate::report::count_status(self.done(), TestResultPassStatus::Passed),
            r.failed == crate::report::count_status(self.done(), TestResultPassStatus::Failed),
            r.ignored == crate::report::count_status(self.done(), TestResultPassStatus::Ignored),
            r.skipped == crate::report::count_status(self.done(), TestResultPassStatus::Skip),
    {
        report_counts(&self.results, duration_ms)
    }

    /// The results so far.
    pub fn results(&self) -> (r: &Vec<(TestCase, TestResult)>)
        ensures
            r@ == self.done(),
    {
        &self.results
    }
}

} // verus!
