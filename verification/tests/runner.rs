use runner::process::ProcessError;
use runner::report::report_counts;
use runner::run::{process_error_details, run_test};
use runner::test_case::TestCase;
use runner::test_result::{TestResult, TestResultPassStatus};

fn case(group: &str, path: &str, name: &str, desc: &str) -> TestCase {
    TestCase {
        group: group.to_string(),
        path: path.to_string(),
        name: name.to_string(),
        desc: desc.to_string(),
    }
}

#[test]
fn run_tests_converts_process_errors_to_failed_results() {
    let missing = case("missing", "/definitely/missing/test.t", "test", "missing test");
    // What running bash on a script that does not exist ends in.
    let outcome = Err(ProcessError::NonZeroExit {
        path: "/definitely/missing/test.t".to_string(),
        status: "exit status: 127".to_string(),
        stdout: String::new(),
        stderr: "/bin/bash: /definitely/missing/test.t: No such file or directory\n".to_string(),
    });

    let (_, result) = run_test(missing, outcome);
    assert_eq!(result.passed, TestResultPassStatus::Failed);
    assert!(!result.details.is_empty());
}

#[test]
fn run_test_passes_with_stdout() {
    let c = case("g", "g/a.t", "a", "d");
    let (back, result) = run_test(c.clone(), Ok("ok 1\n".to_string()));
    assert_eq!(back, c);
    assert_eq!(result.passed, TestResultPassStatus::Passed);
    assert_eq!(result.details, "ok 1\n");
}

#[test]
fn details_of_nonzero_exit_hold_both_streams() {
    let e = ProcessError::NonZeroExit {
        path: "g/a.t".to_string(),
        status: "exit status: 1".to_string(),
        stdout: "out".to_string(),
        stderr: "err".to_string(),
    };
    assert_eq!(
        process_error_details(&e),
        "bash script g/a.t exited with exit status: 1\n\nstdout:\nout\n\nstderr:\nerr"
    );
}

#[test]
fn details_leave_out_empty_streams() {
    let e = ProcessError::Timeout {
        path: "g/a.t".to_string(),
        timeout_ms: 5000,
        stdout: String::new(),
        stderr: "late".to_string(),
    };
    assert_eq!(
        process_error_details(&e),
        "bash script g/a.t timed out after 5000ms\n\nstderr:\nlate"
    );
}

#[test]
fn details_of_spawn_and_wait_errors() {
    let s = ProcessError::Spawn {
        path: "x.t".to_string(),
        source: "No such file or directory (os error 2)".to_string(),
    };
    assert_eq!(
        process_error_details(&s),
        "failed to spawn bash for x.t: No such file or directory (os error 2)"
    );
    let w = ProcessError::Wait { path: "x.t".to_string(), source: "boom".to_string() };
    assert_eq!(process_error_details(&w), "failed to wait for bash script x.t: boom");
    assert_eq!(w.message(), "failed to wait for bash script x.t: boom");
}

#[test]
fn report_counts_add_up() {
    let r = |p: TestResultPassStatus| TestResult { passed: p, details: String::new() };
    let c = case("g", "g/a.t", "a", "d");
    let results = vec![
        (c.clone(), r(TestResultPassStatus::Passed)),
        (c.clone(), r(TestResultPassStatus::Failed)),
        (c.clone(), r(TestResultPassStatus::Passed)),
        (c.clone(), r(TestResultPassStatus::Ignored)),
        (c.clone(), r(TestResultPassStatus::Skip)),
    ];
    let counts = report_counts(&results, 42);
    assert_eq!(counts.duration_ms, 42);
    assert_eq!(counts.total, 5);
    assert_eq!(counts.passed, 2);
    assert_eq!(counts.failed, 1);
    assert_eq!(counts.ignored, 1);
    assert_eq!(counts.skipped, 1);
    assert_eq!(counts.passed + counts.failed + counts.ignored + counts.skipped, counts.total);
}

#[test]
fn report_counts_of_nothing() {
    let counts = report_counts(&Vec::new(), 0);
    assert_eq!(counts.total, 0);
    assert_eq!(counts.passed, 0);
}

use runner::process::{wait_step, ChildPoll, WaitStep, DEFAULT_TIMEOUT_NS};

#[test]
fn waiting_decisions() {
    let t = DEFAULT_TIMEOUT_NS;
    match wait_step("s.t", t, ChildPoll::Running { elapsed_ns: t - 1 }) {
        WaitStep::SleepAndPoll => {}
        _ => panic!("should keep waiting"),
    }
    match wait_step("s.t", t, ChildPoll::Running { elapsed_ns: t }) {
        WaitStep::KillAndFinish(Err(e)) => {
            assert_eq!(e.message(), "bash script s.t timed out after 5000ms");
        }
        _ => panic!("should time out"),
    }
    match wait_step(
        "s.t",
        t,
        ChildPoll::Exited {
            success: true,
            status: "exit status: 0".to_string(),
            stdout: "out".to_string(),
            stderr: "err".to_string(),
        },
    ) {
        WaitStep::Finish(Ok(out)) => assert_eq!(out, "out"),
        _ => panic!("should pass"),
    }
    match wait_step(
        "s.t",
        t,
        ChildPoll::Exited {
            success: false,
            status: "exit status: 2".to_string(),
            stdout: String::new(),
            stderr: "err".to_string(),
        },
    ) {
        WaitStep::Finish(Err(e)) => {
            assert_eq!(e.message(), "bash script s.t exited with exit status: 2")
        }
        _ => panic!("should fail"),
    }
    match wait_step("s.t", t, ChildPoll::Failed { source: "gone".to_string() }) {
        WaitStep::Finish(Err(e)) => assert_eq!(e.message(), "failed to wait for bash script s.t: gone"),
        _ => panic!("should fail"),
    }
}
