//! Test-runner support library: test discovery, result reporting, TAP report
//! parsing and the small HTTP/WebSocket protocol pieces used by the runner's
//! front ends.

pub mod text;
pub mod order;
pub mod test_case;
pub mod test_result;
pub mod process;
pub mod run;
pub mod report;
pub mod tap;
pub mod http;
pub mod websocket;
pub mod paths;
pub mod uname;

pub use process::ProcessError;
pub use test_case::{discover, RunError, TestCase};
pub use test_result::{TestResult, TestResultPassStatus};
