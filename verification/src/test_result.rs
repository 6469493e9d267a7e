//! The outcome of running one test script.

use vstd::prelude::*;

verus! {

/// Whether a test passed.
#[derive(Debug, Clone, Copy, PartialEq, Eq, Structural)]
pub enum TestResultPassStatus {
    Passed,
    Failed,
    Ignored,
    Skip,
}

/// The outcome of one test script: its status and what it printed or why it failed.
#[derive(Debug, Clone, PartialEq, Eq)]
pub struct TestResult {
    pub passed: TestResultPassStatus,
    pub details: String,
}

} // verus!
