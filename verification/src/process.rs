//! Running a test script: the errors it can end in and the decisions taken
//! while waiting for the script's process.

use vstd::prelude::*;

use crate::text;

verus! {

/// How long a test script may run, in nanoseconds, unless told otherwise.
pub const DEFAULT_TIMEOUT_NS: u128 = 5_000_000_000;

/// How long to sleep between two checks on a running script, in milliseconds.
pub const POLL_INTERVAL_MS: u64 = 10;

/// How running a test script can fail. Paths, I/O errors and exit statuses are held
/// as the text that they display as.
#[derive(Debug, Clone, PartialEq, Eq)]
pub enum ProcessError {
    /// `bash` could not be started.
    Spawn { path: String, source: String },
    /// Waiting for the script failed.
    Wait { path: String, source: String },
    /// The script ended with a failing exit status.
    NonZeroExit { path: String, status: String, stdout: String, stderr: String },
    /// The script ran past its time limit and was killed.
    Timeout { path: String, timeout_ms: u128, stdout: String, stderr: String },
}

/// A process error as plain values.
pub enum ProcessErrorView {
    Spawn { path: Seq<char>, source: Seq<char> },
    Wait { path: Seq<char>, source: Seq<char> },
    NonZeroExit { path: Seq<char>, status: Seq<char>, stdout: Seq<char>, stderr: Seq<char> },
    Timeout { path: Seq<char>, timeout_ms: nat, stdout: Seq<char>, stderr: Seq<char> },
}

impl View for ProcessError {
    type V = ProcessErrorView;

    open spec fn view(&self) -> ProcessErrorView {
        match self {
            ProcessError::Spawn { path, source } => ProcessErrorView::Spawn {
                path: path@,
                source: source@,
            },
            ProcessError::Wait { path, source } => ProcessErrorView::Wait {
                path: path@,
                source: source@,
            },
            ProcessError::NonZeroExit { path, status, stdout, stderr } =>
                ProcessErrorView::NonZeroExit {
                path: path@,
                status: status@,
                stdout: stdout@,
                stderr: stderr@,
            },
            ProcessError::Timeout { path, timeout_ms, stdout, stderr } =>
                ProcessErrorView::Timeout {
                path: path@,
                timeout_ms: *timeout_ms as nat,
                stdout: stdout@,
                stderr: stderr@,
            },
        }
    }
}

/// The text that a process error displays as.
pub open spec fn error_message(e: ProcessErrorView) -> Seq<char> {
    match e {
        ProcessErrorView::Spawn { path, source } => "failed to spawn bash for "@ + path + ": "@
            + source,
        ProcessErrorView::Wait { path, source } => "failed to wait for bash script "@ + path
            + ": "@ + source,
        ProcessErrorView::NonZeroExit { path, status, .. } => "bash script "@ + path
            + " exited with "@ + status,
        ProcessErrorView::Timeout { path, timeout_ms, .. } => "bash script "@ + path
            + " timed out after "@ + text::decimal(timeout_ms) + "ms"@,
    }
}

impl ProcessError {
    /// The text this error displays as.
    pub fn message(&self) -> (s: String)
        ensures
            s@ == error_message(self@),
    {
        let mut s = String::new();
        match self {
            ProcessError::Spawn { path, source } => {
                s.push_str("failed to spawn bash for ");
                s.push_str(path.as_str());
                s.push_str(": ");
                s.push_str(source.as_str());
            },
            ProcessError::Wait { path, source } => {
                s.push_str("failed to wait for bash script ");
                s.push_str(path.as_str());
                s.push_str(": ");
                s.push_str(source.as_str());
            },
            ProcessError::NonZeroExit { path, status, .. } => {
                s.push_str("bash script ");
                s.push_str(path.as_str());
                s.push_str(" exited with ");
                s.push_str(status.as_str());
            },
            ProcessError::Timeout { path, timeout_ms, .. } => {
                s.push_str("bash script ");
                s.push_str(path.as_str());
                s.push_str(" timed out after ");
                text::push_decimal(&mut s, *timeout_ms);
                s.push_str("ms");
            },
        }
        s
    }
}

/// What checking on a running script found.
pub enum ChildPoll {
    /// The script has ended; `success` tells whether its exit status is a success, and
    /// the rest is what it printed and how its exit status displays.
    Exited { success: bool, status: String, stdout: String, stderr: String },
    /// The script is still running, and has been for `elapsed_ns` nanoseconds.
    Running { elapsed_ns: u128 },
    /// Checking on the script failed with an error that displays as `source`.
    Failed { source: String },
}

/// What to do next while waiting for a script.
pub enum WaitStep {
    /// Stop waiting: the script is done, with this outcome.
    Finish(Result<String, ProcessError>),
    /// Kill the script, then stop waiting with this outcome.
    KillAndFinish(Result<String, ProcessError>),
    /// Sleep for `POLL_INTERVAL_MS` milliseconds and check again.
    SleepAndPoll,
}

/// A wait step as plain values.
pub enum WaitStepView {
    Finish(Result<Seq<char>, ProcessErrorView>),
    KillAndFinish(Result<Seq<char>, ProcessErrorView>),
    SleepAndPoll,
}

/// An outcome of running a script, as plain values.
pub open spec fn outcome_view(r: Result<String, ProcessError>) -> Result<Seq<char>, ProcessErrorView> {
    match r {
        Ok(out) => Ok(out@),
        Err(e) => Err(e@),
    }
}

impl View for WaitStep {
    type V = WaitStepView;

    open spec fn view(&self) -> WaitStepView {
        match self {
            WaitStep::Finish(r) => WaitStepView::Finish(outcome_view(*r)),
            WaitStep::KillAndFinish(r) => WaitStepView::KillAndFinish(outcome_view(*r)),
            WaitStep::SleepAndPoll => WaitStepView::SleepAndPoll,
        }
    }
}

/// What waiting for the script at `path`, with a time limit of `timeout_ns` nanoseconds,
/// does after a check on it found `poll`: an ended script finishes with what it printed
/// on success, or else with its exit status and output; a script that has run for the
/// whole time limit is killed and ends in a timeout with no output; a script still within
/// its limit is checked again after a pause; a failed check ends the wait with its error.
pub open spec fn wait_step_of(path: Seq<char>, timeout_ns: nat, poll: ChildPoll) -> WaitStepView {
    match poll {
        ChildPoll::Exited { success, status, stdout, stderr } => if success {
            WaitStepView::Finish(Ok(stdout@))
        } else {
            WaitStepView::Finish(
                Err(
                    ProcessErrorView::NonZeroExit {
                        path,
                        status: status@,
                        stdout: stdout@,
                        stderr: stderr@,
                    },
                ),
            )
        },
        ChildPoll::Running { elapsed_ns } => if elapsed_ns >= timeout_ns {
            WaitStepView::KillAndFinish(
                Err(
                    ProcessErrorView::Timeout {
                        path,
                        timeout_ms: timeout_ns / 1_000_000,
                        stdout: seq![],
                        stderr: seq![],
                    },
                ),
            )
        } else {
            WaitStepView::SleepAndPoll
        },
        ChildPoll::Failed { source } => WaitStepView::Finish(
            Err(ProcessErrorView::Wait { path, source: source@ }),
        ),
    }
}

/// Decides what to do after checking on the script at `path`, which may run for
/// `timeout_ns` nanoseconds.
pub fn wait_step(path: &str, timeout_ns: u128, poll: ChildPoll) -> (step: WaitStep)
    ensures
        step@ == wait_step_of(path@, timeout_ns as nat, poll),
{
    match poll {
        ChildPoll::Exited { success, status, stdout, stderr } => {
            if success {
                WaitStep::Finish(Ok(stdout))
            } else {
                WaitStep::Finish(
                    Err(ProcessError::NonZeroExit { path: path.to_owned(), status, stdout, stderr }),
                )
            }
        },
        ChildPoll::Running { elapsed_ns } => {
            if elapsed_ns >= timeout_ns {
                WaitStep::KillAndFinish(
                    Err(
                        ProcessError::Timeout {
                            path: path.to_owned(),
                            timeout_ms: timeout_ns / 1_000_000,
                            stdout: String::new(),
                            stderr: String::new(),
                        },
                    ),
                )
            } else {
                WaitStep::SleepAndPoll
            }
        },
        ChildPoll::Failed { source } => WaitStep::Finish(
            Err(ProcessError::Wait { path: path.to_owned(), source }),
        ),
    }
}

/// Law: once the script has exited, waiting stops: on success with what the script
/// wrote to standard output; otherwise with a failing-exit error that carries the path,
/// the exit status, what the script wrote to standard output as its `stdout` and what
/// it wrote to standard error as its `stderr`, each unchanged.
pub proof fn law_exit_keeps_outputs(path: Seq<char>, timeout_ns: nat, poll: ChildPoll)
    ensures
        poll matches ChildPoll::Exited { success, status, stdout, stderr } ==> {
            &&& success ==> wait_step_of(path, timeout_ns, poll) == WaitStepView::Finish(
                Ok(stdout@),
            )
            &&& !success ==> wait_step_of(path, timeout_ns, poll) == WaitStepView::Finish(
                Err(
                    ProcessErrorView::NonZeroExit {
                        path,
                        status: status@,
                        stdout: stdout@,
                        stderr: stderr@,
                    },
                ),
            )
        },
{
}

/// Law: a script still running is checked again while it is within its time limit,
/// and once it has run for the whole limit it is killed and the wait ends in a timeout
/// that names the path and the limit in whole milliseconds, with no output.
pub proof fn law_running_script(path: Seq<char>, timeout_ns: nat, elapsed_ns: u128)
    ensures
        elapsed_ns < timeout_ns ==> wait_step_of(
            path,
            timeout_ns,
            ChildPoll::Running { elapsed_ns },
        ) == WaitStepView::SleepAndPoll,
        elapsed_ns >= timeout_ns ==> wait_step_of(path, timeout_ns, ChildPoll::Running { elapsed_ns })
            == WaitStepView::KillAndFinish(
            Err(
                ProcessErrorView::Timeout {
                    path,
                    timeout_ms: timeout_ns / 1_000_000,
                    stdout: seq![],
                    stderr: seq![],
                },
            ),
        ),
{
}

/// Law: a failed check ends the wait with an error that names the path and carries
/// the check's error text unchanged.
pub proof fn law_failed_check(path: Seq<char>, timeout_ns: nat, source: String)
    ensures
        wait_step_of(path, timeout_ns, ChildPoll::Failed { source }) == WaitStepView::Finish(
            Err(ProcessErrorView::Wait { path, source: source@ }),
        ),
{
}

} // verus!
