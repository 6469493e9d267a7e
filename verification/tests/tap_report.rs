use runner::tap::{parse_case, parse_report, try_parse_report, CaseStatus};

const SAMPLE: &str = "\
preamble is ignored
==> chmod/00.t
1..3
ok 1
not ok 2 - mode mismatch
ok 3 # skip
some output line

==> open/01.t
1..2
ok 1
ok 2
==> chmod/01.t
not ok
";

#[test]
fn parse_report_groups_and_sums() {
    let report = parse_report(SAMPLE);
    assert_eq!(report.groups.len(), 2);
    let chmod = &report.groups[0];
    assert_eq!(chmod.name, "chmod");
    assert_eq!(chmod.tests.len(), 2);
    assert_eq!(chmod.tests[0].name, "00.t");
    assert_eq!(chmod.tests[0].path, "chmod/00.t");
    assert_eq!(chmod.tests[0].planned, Some(3));
    assert_eq!(chmod.tests[0].output, vec!["some output line".to_string()]);
    assert_eq!(chmod.tests[0].cases.len(), 3);
    assert_eq!(chmod.tests[0].cases[1].status, CaseStatus::Failed);
    assert_eq!(chmod.tests[0].cases[1].number, Some(2));
    assert_eq!(chmod.tests[0].cases[1].message, "- mode mismatch");
    assert_eq!(chmod.tests[0].summary.tests, 1);
    assert_eq!(chmod.tests[0].summary.cases, 3);
    assert_eq!(chmod.tests[0].summary.passed, 2);
    assert_eq!(chmod.tests[0].summary.failed, 1);
    assert_eq!(chmod.tests[0].summary.planned, 3);
    assert_eq!(chmod.tests[1].planned, None);
    assert_eq!(chmod.tests[1].summary.planned, 0);
    assert_eq!(chmod.summary.tests, 2);
    assert_eq!(chmod.summary.cases, 4);
    assert_eq!(chmod.summary.passed, 2);
    assert_eq!(chmod.summary.failed, 2);
    assert_eq!(chmod.summary.planned, 3);
    let open = &report.groups[1];
    assert_eq!(open.name, "open");
    assert_eq!(open.summary.passed, 2);
    assert_eq!(report.summary.tests, 3);
    assert_eq!(report.summary.cases, 6);
    assert_eq!(report.summary.passed, 4);
    assert_eq!(report.summary.failed, 2);
    assert_eq!(report.summary.planned, 5);
    assert_eq!(report.summary.cases, report.summary.passed + report.summary.failed);
}

#[test]
fn parse_report_of_empty_text() {
    let report = parse_report("");
    assert!(report.groups.is_empty());
    assert_eq!(report.summary.tests, 0);
}

#[test]
fn parse_report_crlf_and_names() {
    let report = parse_report("==> a/b/c.t\r\nok 1\r\n==> top.t\n==> d/..\n==> x/./\n");
    let names: Vec<(&str, &str)> = report
        .groups
        .iter()
        .flat_map(|g| g.tests.iter().map(move |t| (g.name.as_str(), t.name.as_str())))
        .collect();
    assert_eq!(names, vec![("a", "c.t"), ("top.t", "top.t"), ("d", "d/.."), ("x", "x")]);
    assert_eq!(report.groups[0].tests[0].cases[0].raw, "ok 1");
}

#[test]
fn test_names_agree_with_std_path() {
    for p in ["a/b", "a/b/", "a/./", "./a", "/", "", ".", "..", "a/..", "a//b//", "/x/y/."] {
        let report = parse_report(&format!("==> {}\n", p));
        let expected = std::path::Path::new(p).file_name().and_then(|n| n.to_str()).unwrap_or(p);
        assert_eq!(report.groups[0].tests[0].name, expected, "{:?}", p);
        assert_eq!(report.groups[0].name, p.split('/').next().unwrap(), "{:?}", p);
    }
}

#[test]
fn planned_total_that_overflows_is_refused() {
    let big = format!("==> a.t\n1..{}\n==> b.t\n1..1\n", usize::MAX);
    assert!(try_parse_report(&big).is_none());
    let fits = format!("==> a.t\n1..{}\n", usize::MAX);
    assert_eq!(try_parse_report(&fits).unwrap().summary.planned, usize::MAX);
}

#[test]
fn case_lines() {
    let c = parse_case("ok 7 created", CaseStatus::Passed);
    assert_eq!((c.number, c.message.as_str(), c.raw.as_str()), (Some(7), "created", "ok 7 created"));
    let c = parse_case("ok", CaseStatus::Passed);
    assert_eq!((c.number, c.message.as_str()), (None, ""));
    let c = parse_case("not ok 12", CaseStatus::Failed);
    assert_eq!((c.number, c.message.as_str()), (Some(12), ""));
    let c = parse_case("not ok  x y ", CaseStatus::Failed);
    assert_eq!((c.number, c.message.as_str()), (None, "x y"));
    let c = parse_case("ok 3   spaced  ", CaseStatus::Passed);
    assert_eq!((c.number, c.message.as_str()), (Some(3), "spaced"));
    let c = parse_case("ok +4 plus", CaseStatus::Passed);
    assert_eq!((c.number, c.message.as_str()), (Some(4), "plus"));
}

#[test]
fn plan_line_with_bad_number_is_output() {
    let report = parse_report("==> a.t\n1..x\n1..+2\n");
    let t = &report.groups[0].tests[0];
    assert_eq!(t.planned, Some(2));
    assert_eq!(t.output, vec!["1..x".to_string()]);
}
