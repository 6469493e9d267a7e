//! Reading the text report of a TAP test run (one `==> path` header per test
//! script, followed by that script's TAP output) into per-group and overall
//! summaries.

use vstd::prelude::*;

use crate::text;

verus! {

/// Whether a test case passed.
#[derive(Debug, Clone, Copy, PartialEq, Eq, Structural)]
pub enum CaseStatus {
    Passed,
    Failed,
}

/// Counts of tests, test cases and their outcomes, and of the cases that tests planned.
#[derive(Debug, Clone, Copy, PartialEq, Eq, Structural)]
pub struct Summary {
    pub tests: usize,
    pub cases: usize,
    pub passed: usize,
    pub failed: usize,
    pub planned: usize,
}

/// One `ok` or `not ok` line of a test's output.
#[derive(Debug, Clone, PartialEq, Eq)]
pub struct CaseReport {
    pub status: CaseStatus,
    /// The case's number, where the line gives one.
    pub number: Option<usize>,
    /// The text after the number (the whole text after `ok`/`not ok` where there is no number).
    pub message: String,
    /// The line itself.
    pub raw: String,
}

/// The report of one test script.
#[derive(Debug, Clone, PartialEq, Eq)]
pub struct TestReport {
    /// The script's file name.
    pub name: String,
    /// The script's path, as the header gives it.
    pub path: String,
    /// How many cases the script's plan line (`1..N`) announced.
    pub planned: Option<usize>,
    pub summary: Summary,
    pub cases: Vec<CaseReport>,
    /// The script's other non-blank output lines.
    pub output: Vec<String>,
}

/// The tests of one group: the scripts whose paths start with the same directory.
#[derive(Debug, Clone, PartialEq, Eq)]
pub struct GroupReport {
    pub name: String,
    pub summary: Summary,
    pub tests: Vec<TestReport>,
}

/// The report of a whole run.
#[derive(Debug, Clone, PartialEq, Eq)]
pub struct Report {
    pub summary: Summary,
    pub groups: Vec<GroupReport>,
}

/// A summary as plain numbers.
pub struct SummaryView {
    pub tests: nat,
    pub cases: nat,
    pub passed: nat,
    pub failed: nat,
    pub planned: nat,
}

pub struct CaseView {
    pub status: CaseStatus,
    pub number: Option<usize>,
    pub message: Seq<char>,
    pub raw: Seq<char>,
}

pub struct TestView {
    pub name: Seq<char>,
    pub path: Seq<char>,
    pub planned: Option<usize>,
    pub summary: SummaryView,
    pub cases: Seq<CaseView>,
    pub output: Seq<Seq<char>>,
}

pub struct GroupView {
    pub name: Seq<char>,
    pub summary: SummaryView,
    pub tests: Seq<TestView>,
}

pub struct ReportView {
    pub summary: SummaryView,
    pub groups: Seq<GroupView>,
}

impl View for Summary {
    type V = SummaryView;

    open spec fn view(&self) -> SummaryView {
        SummaryView {
            tests: self.tests as nat,
            cases: self.cases as nat,
            passed: self.passed as nat,
            failed: self.failed as nat,
            planned: self.planned as nat,
        }
    }
}

impl View for CaseReport {
    type V = CaseView;

    open spec fn view(&self) -> CaseView {
        CaseView {
            status: self.status,
            number: self.number,
            message: self.message@,
            raw: self.raw@,
        }
    }
}

pub open spec fn cases_view(cs: Seq<CaseReport>) -> Seq<CaseView> {
    Seq::new(cs.len(), |i: int| cs[i]@)
}

pub open spec fn strings_view(ss: Seq<String>) -> Seq<Seq<char>> {
    Seq::new(ss.len(), |i: int| ss[i]@)
}

impl View for TestReport {
    type V = TestView;

    open spec fn view(&self) -> TestView {
        TestView {
            name: self.name@,
            path: self.path@,
            planned: self.planned,
            summary: self.summary@,
            cases: cases_view(self.cases@),
            output: strings_view(self.output@),
        }
    }
}

pub open spec fn tests_view(ts: Seq<TestReport>) -> Seq<TestView> {
    Seq::new(ts.len(), |i: int| ts[i]@)
}

impl View for GroupReport {
    type V = GroupView;

    open spec fn view(&self) -> GroupView {
        GroupView { name: self.name@, summary: self.summary@, tests: tests_view(self.tests@) }
    }
}

pub open spec fn groups_view(gs: Seq<GroupReport>) -> Seq<GroupView> {
    Seq::new(gs.len(), |i: int| gs[i]@)
}

impl View for Report {
    type V = ReportView;

    open spec fn view(&self) -> ReportView {
        ReportView { summary: self.summary@, groups: groups_view(self.groups@) }
    }
}

/// All counts zero.
pub open spec fn zero() -> SummaryView {
    SummaryView { tests: 0, cases: 0, passed: 0, failed: 0, planned: 0 }
}

/// The file name of a path, as `Path::file_name` gives it: its last component, where
/// empty and `.` components do not count, unless that component is `..` or there is none.
pub open spec fn file_name_of(p: Seq<char>) -> Option<Seq<char>>
    decreases p.len(),
{
    let k = text::last_index(p, '/');
    let last = p.skip(k + 1);
    if last.len() == 0 || last == seq!['.'] {
        if k < 0 {
            None
        } else {
            proof {
                text::lemma_last_index_bounds(p, '/');
            }
            file_name_of(p.take(k))
        }
    } else if last == seq!['.', '.'] {
        None
    } else {
        Some(last)
    }
}

/// The group of a test: the part of its path before the first `/`.
pub open spec fn group_of(path: Seq<char>) -> Seq<char> {
    path.take(text::first_index(path, '/') as int)
}

/// A new, empty test report for the script at `path`, named by its file name (or by the
/// whole path where it has none).
pub open spec fn new_test(path: Seq<char>) -> TestView {
    TestView {
        name: match file_name_of(path) {
            Some(n) => n,
            None => path,
        },
        path,
        planned: None,
        summary: zero(),
        cases: seq![],
        output: seq![],
    }
}

/// What an unsigned number in a report may be at most.
pub open spec fn max_count() -> nat {
    usize::MAX as nat
}

/// The test case of a result line with outcome `status`: after the `not ok` or `ok` and
/// the surrounding white space comes an optional number, ended by a space, then the
/// message.
pub open spec fn case_of_line(line: Seq<char>, status: CaseStatus) -> CaseView {
    let after = if text::has_prefix_at(line, 0, "not ok"@) {
        line.skip(6)
    } else if text::has_prefix_at(line, 0, "ok"@) {
        line.skip(2)
    } else {
        seq![]
    };
    let rest = text::trim(after);
    let k = text::first_index(rest, ' ');
    let first = rest.take(k as int);
    match text::parse_unsigned(first, max_count()) {
        Some(n) => CaseView {
            status,
            number: Some(n as usize),
            message: if k < rest.len() {
                text::trim(rest.skip((k + 1) as int))
            } else {
                seq![]
            },
            raw: line,
        },
        None => CaseView { status, number: None, message: rest, raw: line },
    }
}

/// What a line of its output does to the report of the current test: a plan line
/// `1..N` sets what it planned; an `ok` or `not ok` line adds a case; another line
/// that is not blank is kept as output.
pub open spec fn test_step(t: TestView, line: Seq<char>) -> TestView {
    if text::has_prefix_at(line, 0, "1.."@) && text::parse_unsigned(line.skip(3), max_count()) is Some {
        TestView {
            name: t.name,
            path: t.path,
            planned: Some(text::parse_unsigned(line.skip(3), max_count())->0 as usize),
            summary: t.summary,
            cases: t.cases,
            output: t.output,
        }
    } else if text::has_prefix_at(line, 0, "ok "@) || line == "ok"@ {
        TestView {
            name: t.name,
            path: t.path,
            planned: t.planned,
            summary: t.summary,
            cases: t.cases.push(case_of_line(line, CaseStatus::Passed)),
            output: t.output,
        }
    } else if text::has_prefix_at(line, 0, "not ok"@) {
        TestView {
            name: t.name,
            path: t.path,
            planned: t.planned,
            summary: t.summary,
            cases: t.cases.push(case_of_line(line, CaseStatus::Failed)),
            output: t.output,
        }
    } else if text::trim(line).len() > 0 {
        TestView {
            name: t.name,
            path: t.path,
            planned: t.planned,
            summary: t.summary,
            cases: t.cases,
            output: t.output.push(line),
        }
    } else {
        t
    }
}

/// Index of the first group named `name`.
pub open spec fn find_group(groups: Seq<GroupView>, name: Seq<char>) -> Option<int>
    decreases groups.len(),
{
    if groups.len() == 0 {
        None
    } else if groups[0].name == name {
        Some(0)
    } else {
        match find_group(groups.drop_first(), name) {
            Some(i) => Some(i + 1),
            None => None,
        }
    }
}

/// `groups` with the finished test `t` added to its group, which is created after the
/// others where there is none yet.
pub open spec fn add_test(groups: Seq<GroupView>, t: Option<TestView>) -> Seq<GroupView> {
    match t {
        None => groups,
        Some(t) => {
            let name = group_of(t.path);
            match find_group(groups, name) {
                Some(i) => groups.update(
                    i,
                    GroupView {
                        name: groups[i].name,
                        summary: groups[i].summary,
                        tests: groups[i].tests.push(t),
                    },
                ),
                None => groups.push(GroupView { name, summary: zero(), tests: seq![t] }),
            }
        },
    }
}

/// The state of reading a report: the finished groups, and the test being read.
pub struct ParseState {
    pub groups: Seq<GroupView>,
    pub current: Option<TestView>,
}

/// What one line does: a header `==> path` finishes the current test and starts the
/// test of `path`; lines before the first header are ignored; other lines go to the
/// current test.
pub open spec fn step(st: ParseState, line: Seq<char>) -> ParseState {
    if text::has_prefix_at(line, 0, "==> "@) {
        ParseState { groups: add_test(st.groups, st.current), current: Some(new_test(line.skip(4))) }
    } else {
        match st.current {
            None => st,
            Some(t) => ParseState { groups: st.groups, current: Some(test_step(t, line)) },
        }
    }
}

/// The state after reading `lines` from `st`.
pub open spec fn read_lines(st: ParseState, lines: Seq<Seq<char>>) -> ParseState
    decreases lines.len(),
{
    if lines.len() == 0 {
        st
    } else {
        read_lines(step(st, lines[0]), lines.drop_first())
    }
}

/// The groups of tests of a report with text `input`, in the order their first tests
/// appear, each holding its tests in order, none summarized yet.
pub open spec fn parsed_groups(input: Seq<char>) -> Seq<GroupView> {
    let st = read_lines(ParseState { groups: seq![], current: None }, text::lines(input));
    add_test(st.groups, st.current)
}

/// How many of `cases` have `status`.
pub open spec fn count_cases(cases: Seq<CaseView>, status: CaseStatus) -> nat
    decreases cases.len(),
{
    if cases.len() == 0 {
        0
    } else {
        count_cases(cases.drop_last(), status) + if cases.last().status == status {
            1nat
        } else {
            0nat
        }
    }
}

/// The summary of one test: one test, its cases and how they went, and what it planned.
pub open spec fn test_summary(t: TestView) -> SummaryView {
    SummaryView {
        tests: 1,
        cases: t.cases.len(),
        passed: count_cases(t.cases, CaseStatus::Passed),
        failed: count_cases(t.cases, CaseStatus::Failed),
        planned: match t.planned {
            Some(p) => p as nat,
            None => 0,
        },
    }
}

/// Field-wise sum of two summaries.
pub open spec fn plus(a: SummaryView, b: SummaryView) -> SummaryView {
    SummaryView {
        tests: a.tests + b.tests,
        cases: a.cases + b.cases,
        passed: a.passed + b.passed,
        failed: a.failed + b.failed,
        planned: a.planned + b.planned,
    }
}

/// `t` with its summary filled in.
pub open spec fn summarized_test(t: TestView) -> TestView {
    TestView {
        name: t.name,
        path: t.path,
        planned: t.planned,
        summary: test_summary(t),
        cases: t.cases,
        output: t.output,
    }
}

/// Sum of the summaries of `ts`.
pub open spec fn sum_tests(ts: Seq<TestView>) -> SummaryView
    decreases ts.len(),
{
    if ts.len() == 0 {
        zero()
    } else {
        plus(sum_tests(ts.drop_last()), test_summary(ts.last()))
    }
}

/// `g` with its tests and itself summarized: a group's summary sums its tests'.
pub open spec fn summarized_group(g: GroupView) -> GroupView {
    GroupView {
        name: g.name,
        summary: sum_tests(g.tests),
        tests: Seq::new(g.tests.len(), |j: int| summarized_test(g.tests[j])),
    }
}

/// Sum of the summaries of `gs`, each group summarized.
pub open spec fn sum_groups(gs: Seq<GroupView>) -> SummaryView
    decreases gs.len(),
{
    if gs.len() == 0 {
        zero()
    } else {
        plus(sum_groups(gs.drop_last()), sum_tests(gs.last().tests))
    }
}

/// The full report of the groups `gs`: every test, group and the whole run summarized.
pub open spec fn report_of(gs: Seq<GroupView>) -> ReportView {
    ReportView {
        summary: sum_groups(gs),
        groups: Seq::new(gs.len(), |i: int| summarized_group(gs[i])),
    }
}

/// Whether every count of a summary fits in a `usize`.
pub open spec fn fits(s: SummaryView) -> bool {
    &&& s.tests <= usize::MAX
    &&& s.cases <= usize::MAX
    &&& s.passed <= usize::MAX
    &&& s.failed <= usize::MAX
    &&& s.planned <= usize::MAX
}

/// Whether the counts of the report of the text `input` fit in `usize`s.
pub open spec fn report_fits(input: Seq<char>) -> bool {
    fits(sum_groups(parsed_groups(input)))
}

/// The bounds of the file name of the path `v[lo..hi]`, or of the whole path where it
/// has none.
fn name_bounds(v: &Vec<char>, lo: usize, hi: usize) -> (r: (usize, usize))
    requires
        lo <= hi <= v@.len(),
    ensures
        lo <= r.0 <= r.1 <= hi,
        v@.subrange(r.0 as int, r.1 as int) == match file_name_of(v@.subrange(lo as int, hi as int)) {
            Some(n) => n,
            None => v@.subrange(lo as int, hi as int),
        },
{
    let ghost whole = v@.subrange(lo as int, hi as int);
    let mut end = hi;
    loop
        invariant
            lo <= end <= hi <= v@.len(),
            whole == v@.subrange(lo as int, hi as int),
            file_name_of(whole) == file_name_of(v@.subrange(lo as int, end as int)),
        decreases end,
    {
        let ghost p = v@.subrange(lo as int, end as int);
        let k = text::find_last(v, lo, end, '/');
        let start = match k {
            Some(i) => i + 1,
            None => lo,
        };
        let ghost last = p.skip(text::last_index(p, '/') + 1);
        assert(last =~= v@.subrange(start as int, end as int));
        let empty_or_dot = start == end || (end - start == 1 && v[start] == '.');
        assert(empty_or_dot == (last.len() == 0 || last == seq!['.'])) by {
            if last == seq!['.'] {
                assert(last[0] == v@[start as int]);
            }
            if end - start == 1 && v@[start as int] == '.' {
                assert(last =~= seq!['.']);
            }
        }
        if empty_or_dot {
            match k {
                None => {
                    return (lo, hi);
                },
                Some(i) => {
                    assert(p.take(i - lo) =~= v@.subrange(lo as int, i as int));
                    end = i;
                },
            }
        } else {
            let dots = end - start == 2 && v[start] == '.' && v[start + 1] == '.';
            assert(dots == (last == seq!['.', '.'])) by {
                if last == seq!['.', '.'] {
                    assert(last[0] == v@[start as int]);
                    assert(last[1] == v@[start + 1]);
                }
                if dots {
                    assert(last =~= seq!['.', '.']);
                }
            }
            if dots {
                return (lo, hi);
            }
            return (start, end);
        }
    }
}

/// The group of the test at `path`: the part of the path before its first `/`.
pub fn group_name(path: &str) -> (g: String)
    ensures
        g@ == group_of(path@),
{
    let v = text::chars_of(path);
    let n = v.len();
    let mut k: usize = 0;
    while k < n && v[k] != '/'
        invariant
            k <= n == v@.len(),
            forall|j: int| 0 <= j < k ==> v@[j] != '/',
        decreases n - k,
    {
        k = k + 1;
    }
    proof {
        text::lemma_first_index(v@, '/', k as int);
    }
    assert(v@.take(k as int) =~= v@.subrange(0, k as int));
    text::string_of(&v, 0, k)
}

/// All counts zero.
pub fn zero_summary() -> (s: Summary)
    ensures
        s@ == zero(),
{
    Summary { tests: 0, cases: 0, passed: 0, failed: 0, planned: 0 }
}

/// A new, empty report for the test whose path is `v[lo..hi]`.
fn new_test_at(v: &Vec<char>, lo: usize, hi: usize) -> (t: TestReport)
    requires
        lo <= hi <= v@.len(),
    ensures
        t@ == new_test(v@.subrange(lo as int, hi as int)),
{
    let (a, b) = name_bounds(v, lo, hi);
    let t = TestReport {
        name: text::string_of(v, a, b),
        path: text::string_of(v, lo, hi),
        planned: None,
        summary: zero_summary(),
        cases: Vec::new(),
        output: Vec::new(),
    };
    assert(cases_view(t.cases@) =~= Seq::<CaseView>::empty());
    assert(strings_view(t.output@) =~= Seq::<Seq<char>>::empty());
    t
}

/// The test case of the result line `v[lo..hi]`, whose outcome is `status`.
fn case_at(v: &Vec<char>, lo: usize, hi: usize, status: CaseStatus) -> (c: CaseReport)
    requires
        lo <= hi <= v@.len(),
    ensures
        c@ == case_of_line(v@.subrange(lo as int, hi as int), status),
{
    let ghost line = v@.subrange(lo as int, hi as int);
    let not_ok = text::starts_with_at(v, lo, hi, "not ok");
    let ok = text::starts_with_at(v, lo, hi, "ok");
    proof {
        reveal_strlit("not ok");
        reveal_strlit("ok");
    }
    let start = if not_ok {
        lo + 6
    } else if ok {
        lo + 2
    } else {
        hi
    };
    let ghost after = if text::has_prefix_at(line, 0, "not ok"@) {
        line.skip(6)
    } else if text::has_prefix_at(line, 0, "ok"@) {
        line.skip(2)
    } else {
        seq![]
    };
    assert(after =~= v@.subrange(start as int, hi as int));
    let (a, b) = text::trim_range(v, start, hi);
    let ghost rest = v@.subrange(a as int, b as int);
    let mut k = a;
    while k < b && v[k] != ' '
        invariant
            a <= k <= b <= v@.len(),
            forall|j: int| a <= j < k ==> v@[j] != ' ',
        decreases b - k,
    {
        k = k + 1;
    }
    proof {
        assert forall|j: int| 0 <= j < k - a implies rest[j] != ' ' by {
            assert(rest[j] == v@[a + j]);
        }
        if k < b {
            assert(rest[k - a] == v@[k as int]);
        }
        text::lemma_first_index(rest, ' ', k - a);
    }
    assert(rest.take(k - a) =~= v@.subrange(a as int, k as int));
    let number = text::parse_unsigned_at(v, a, k, usize::MAX as u64);
    let raw = text::string_of(v, lo, hi);
    match number {
        Some(n) => {
            let message = if k < b {
                let (ma, mb) = text::trim_range(v, k + 1, b);
                assert(rest.skip(k - a + 1) =~= v@.subrange(k + 1, b as int));
                text::string_of(v, ma, mb)
            } else {
                String::new()
            };
            CaseReport { status, number: Some(n as usize), message, raw }
        },
        None => CaseReport { status, number: None, message: text::string_of(v, a, b), raw },
    }
}

/// The test case of the result line `line`, whose outcome is `status`.
pub fn parse_case(line: &str, status: CaseStatus) -> (c: CaseReport)
    ensures
        c@ == case_of_line(line@, status),
{
    let v = text::chars_of(line);
    assert(v@.subrange(0, v@.len() as int) =~= v@);
    case_at(&v, 0, v.len(), status)
}

/// The report of the current test after its output line `v[lo..hi]`.
fn test_line(t: TestReport, v: &Vec<char>, lo: usize, hi: usize) -> (r: TestReport)
    requires
        lo <= hi <= v@.len(),
    ensures
        r@ == test_step(t@, v@.subrange(lo as int, hi as int)),
{
    let ghost line = v@.subrange(lo as int, hi as int);
    let mut t = t;
    proof {
        reveal_strlit("1..");
    }
    if text::starts_with_at(v, lo, hi, "1..") {
        assert(line.skip(3) =~= v@.subrange(lo + 3, hi as int));
        match text::parse_unsigned_at(v, lo + 3, hi, usize::MAX as u64) {
            Some(n) => {
                t.planned = Some(n as usize);
                return t;
            },
            None => {},
        }
    }
    if text::starts_with_at(v, lo, hi, "ok ") || text::equals_at(v, lo, hi, "ok") {
        let c = case_at(v, lo, hi, CaseStatus::Passed);
        let ghost before = cases_view(t.cases@);
        t.cases.push(c);
        assert(cases_view(t.cases@) =~= before.push(c@));
        return t;
    }
    if text::starts_with_at(v, lo, hi, "not ok") {
        let c = case_at(v, lo, hi, CaseStatus::Failed);
        let ghost before = cases_view(t.cases@);
        t.cases.push(c);
        assert(cases_view(t.cases@) =~= before.push(c@));
        return t;
    }
    let (a, b) = text::trim_range(v, lo, hi);
    if a < b {
        let ghost before = strings_view(t.output@);
        t.output.push(text::string_of(v, lo, hi));
        assert(strings_view(t.output@) =~= before.push(line));
    }
    t
}

/// A test being read, as plain values.
pub open spec fn current_view(t: Option<TestReport>) -> Option<TestView> {
    match t {
        Some(t) => Some(t@),
        None => None,
    }
}

/// Adds the finished test `test`, if any, to its group in `groups`, creating the group
/// after the others where there is none yet.
pub fn push_test(groups: &mut Vec<GroupReport>, test: Option<TestReport>)
    ensures
        groups_view(final(groups)@) == add_test(groups_view(old(groups)@), current_view(test)),
{
    let t = match test {
        None => {
            return;
        },
        Some(t) => t,
    };
    assert(current_view(test) == Some(t@));
    let name = group_name(t.path.as_str());
    let ghost gv = groups_view(groups@);
    let mut i: usize = 0;
    assert(gv.skip(0) =~= gv);
    while i < groups.len()
        invariant
            i <= groups@.len(),
            gv == groups_view(groups@),
            groups@ == old(groups)@,
            name@ == group_of(t.path@),
            current_view(test) == Some(t@),
            find_group(gv, name@) == match find_group(gv.skip(i as int), name@) {
                Some(x) => Some(x + i),
                None => None::<int>,
            },
        decreases groups@.len() - i,
    {
        assert(gv.skip(i as int)[0] == groups@[i as int]@);
        assert(gv.skip(i as int).drop_first() =~= gv.skip(i + 1));
        if groups[i].name == name {
            let ghost tv = t@;
            let ghost g = groups@[i as int]@;
            assert(find_group(gv.skip(i as int), name@) == Some(0int));
            assert(find_group(gv, name@) == Some(i as int));
            groups[i].tests.push(t);
            proof {
                assert(groups_view(groups@) =~= gv.update(
                    i as int,
                    GroupView { name: g.name, summary: g.summary, tests: g.tests.push(tv) },
                )) by {
                    assert(tests_view(groups@[i as int].tests@) =~= g.tests.push(tv));
                }
            }
            return;
        }
        i = i + 1;
    }
    assert(gv.skip(i as int).len() == 0);
    let ghost tv = t@;
    let mut tests = Vec::new();
    tests.push(t);
    let g = GroupReport { name, summary: zero_summary(), tests };
    assert(tests_view(g.tests@) =~= seq![tv]);
    groups.push(g);
    assert(groups_view(groups@) =~= gv.push(g@));
}

/// Fills in the summary of `test`.
pub fn summarize_test(test: &mut TestReport)
    ensures
        final(test)@ == summarized_test(old(test)@),
{
    let ghost cv = cases_view(test.cases@);
    let mut passed: usize = 0;
    let mut failed: usize = 0;
    let mut i: usize = 0;
    while i < test.cases.len()
        invariant
            i <= test.cases@.len(),
            cv == cases_view(test.cases@),
            passed == count_cases(cv.take(i as int), CaseStatus::Passed),
            failed == count_cases(cv.take(i as int), CaseStatus::Failed),
            passed + failed <= i,
        decreases test.cases@.len() - i,
    {
        assert(cv.take(i + 1).drop_last() =~= cv.take(i as int));
        assert(cv.take(i + 1).last() == test.cases@[i as int]@);
        match test.cases[i].status {
            CaseStatus::Passed => passed = passed + 1,
            CaseStatus::Failed => failed = failed + 1,
        }
        i = i + 1;
    }
    assert(cv.take(i as int) =~= cv);
    let planned = match test.planned {
        Some(p) => p,
        None => 0,
    };
    test.summary = Summary { tests: 1, cases: test.cases.len(), passed, failed, planned };
}

/// Adds the counts of `item` to `total`.
pub fn add_summary(total: &mut Summary, item: &Summary)
    requires
        fits(plus(old(total)@, item@)),
    ensures
        final(total)@ == plus(old(total)@, item@),
{
    total.tests = total.tests + item.tests;
    total.cases = total.cases + item.cases;
    total.passed = total.passed + item.passed;
    total.failed = total.failed + item.failed;
    total.planned = total.planned + item.planned;
}

/// Whether the counts of `a` and `b` can be added.
fn can_add(a: &Summary, b: &Summary) -> (r: bool)
    ensures
        r == fits(plus(a@, b@)),
{
    a.tests <= usize::MAX - b.tests && a.cases <= usize::MAX - b.cases && a.passed <= usize::MAX
        - b.passed && a.failed <= usize::MAX - b.failed && a.planned <= usize::MAX - b.planned
}

/// Every count of `a` is at most that of `b`.
pub open spec fn le(a: SummaryView, b: SummaryView) -> bool {
    &&& a.tests <= b.tests
    &&& a.cases <= b.cases
    &&& a.passed <= b.passed
    &&& a.failed <= b.failed
    &&& a.planned <= b.planned
}

proof fn lemma_sum_tests_step(ts: Seq<TestView>, j: int)
    requires
        0 <= j < ts.len(),
    ensures
        sum_tests(ts.take(j + 1)) == plus(sum_tests(ts.take(j)), test_summary(ts[j])),
{
    assert(ts.take(j + 1).drop_last() =~= ts.take(j));
}

proof fn lemma_sum_tests_prefix(ts: Seq<TestView>, j: int)
    requires
        0 <= j <= ts.len(),
    ensures
        le(sum_tests(ts.take(j)), sum_tests(ts)),
    decreases ts.len() - j,
{
    if j == ts.len() {
        assert(ts.take(j) =~= ts);
    } else {
        lemma_sum_tests_step(ts, j);
        lemma_sum_tests_prefix(ts, j + 1);
    }
}

proof fn lemma_sum_groups_step(gs: Seq<GroupView>, i: int)
    requires
        0 <= i < gs.len(),
    ensures
        sum_groups(gs.take(i + 1)) == plus(sum_groups(gs.take(i)), sum_tests(gs[i].tests)),
{
    assert(gs.take(i + 1).drop_last() =~= gs.take(i));
}

proof fn lemma_sum_groups_prefix(gs: Seq<GroupView>, i: int)
    requires
        0 <= i <= gs.len(),
    ensures
        le(sum_groups(gs.take(i)), sum_groups(gs)),
    decreases gs.len() - i,
{
    if i == gs.len() {
        assert(gs.take(i) =~= gs);
    } else {
        lemma_sum_groups_step(gs, i);
        lemma_sum_groups_prefix(gs, i + 1);
    }
}

/// Reads the text report `input` into groups of tests, before any summing.
fn read_groups(input: &str) -> (groups: Vec<GroupReport>)
    ensures
        groups_view(groups@) == parsed_groups(input@),
{
    let v = text::chars_of(input);
    let n = v.len();
    let ghost init = ParseState { groups: seq![], current: None };
    let mut groups: Vec<GroupReport> = Vec::new();
    let mut current: Option<TestReport> = None;
    let mut pos: usize = 0;
    assert(v@.subrange(0, n as int) =~= v@);
    assert(groups_view(groups@) =~= Seq::<GroupView>::empty());
    while pos < n
        invariant
            pos <= n == v@.len(),
            v@ == input@,
            read_lines(init, text::lines(input@)) == read_lines(
                ParseState { groups: groups_view(groups@), current: current_view(current) },
                text::lines(v@.subrange(pos as int, n as int)),
            ),
        decreases n - pos,
    {
        let (end, next) = text::next_line(&v, pos);
        let ghost line = v@.subrange(pos as int, end as int);
        let ghost st = ParseState { groups: groups_view(groups@), current: current_view(current) };
        let ghost ls = text::lines(v@.subrange(pos as int, n as int));
        assert(ls[0] == line);
        assert(ls.drop_first() =~= text::lines(v@.subrange(next as int, n as int)));
        proof {
            reveal_strlit("==> ");
        }
        if text::starts_with_at(&v, pos, end, "==> ") {
            assert(line.skip(4) =~= v@.subrange(pos + 4, end as int));
            let prev = current.take();
            push_test(&mut groups, prev);
            current = Some(new_test_at(&v, pos + 4, end));
        } else {
            current = match current {
                Some(t) => Some(test_line(t, &v, pos, end)),
                None => None,
            };
        }
        assert(ParseState { groups: groups_view(groups@), current: current_view(current) } == step(
            st,
            line,
        ));
        pos = next;
    }
    assert(text::lines(v@.subrange(n as int, n as int)) =~= Seq::<Seq<char>>::empty());
    push_test(&mut groups, current);
    groups
}

/// Reads the text report `input`, in which each test script's TAP output follows a
/// header line `==> path`, into the report of the run, or `None` where one of its counts
/// does not fit in a `usize`.
pub fn try_parse_report(input: &str) -> (r: Option<Report>)
    ensures
        r is Some <==> report_fits(input@),
        r matches Some(rep) ==> rep@ == report_of(parsed_groups(input@)),
{
    let mut groups = read_groups(input);
    let ghost pg = groups_view(groups@);
    let mut total = zero_summary();
    let mut i: usize = 0;
    assert(pg.take(0) =~= Seq::<GroupView>::empty());
    while i < groups.len()
        invariant
            pg == parsed_groups(input@),
            i <= groups@.len() == pg.len(),
            forall|k: int| 0 <= k < i ==> (#[trigger] groups@[k])@ == summarized_group(pg[k]),
            forall|k: int| i <= k < groups@.len() ==> (#[trigger] groups@[k])@ == pg[k],
            total@ == sum_groups(pg.take(i as int)),
        decreases groups@.len() - i,
    {
        let ghost g = pg[i as int];
        assert(groups@[i as int]@ == g);
        let mut gsum = zero_summary();
        let mut j: usize = 0;
        assert(g.tests.take(0) =~= Seq::<TestView>::empty());
        while j < groups[i].tests.len()
            invariant
                pg == parsed_groups(input@),
                i < groups@.len() == pg.len(),
                g == pg[i as int],
                forall|k: int| 0 <= k < i ==> (#[trigger] groups@[k])@ == summarized_group(pg[k]),
                forall|k: int|
                    i < k < groups@.len() ==> (#[trigger] groups@[k])@ == pg[k],
                total@ == sum_groups(pg.take(i as int)),
                groups@[i as int].name@ == g.name,
                groups@[i as int].tests@.len() == g.tests.len(),
                j <= g.tests.len(),
                forall|m: int|
                    0 <= m < j ==> (#[trigger] groups@[i as int].tests@[m])@ == summarized_test(
                        g.tests[m],
                    ),
                forall|m: int|
                    j <= m < g.tests.len() ==> (#[trigger] groups@[i as int].tests@[m])@
                        == g.tests[m],
                gsum@ == sum_tests(g.tests.take(j as int)),
            decreases g.tests.len() - j,
        {
            assert(groups@[i as int].tests@[j as int]@ == g.tests[j as int]);
            summarize_test(&mut groups[i].tests[j]);
            let item = groups[i].tests[j].summary;
            proof {
                lemma_sum_tests_step(g.tests, j as int);
            }
            if !can_add(&gsum, &item) {
                proof {
                    lemma_sum_tests_prefix(g.tests, j + 1);
                    lemma_sum_groups_step(pg, i as int);
                    lemma_sum_groups_prefix(pg, i + 1);
                }
                return None;
            }
            add_summary(&mut gsum, &item);
            j = j + 1;
        }
        assert(g.tests.take(j as int) =~= g.tests);
        groups[i].summary = gsum;
        proof {
            lemma_sum_groups_step(pg, i as int);
            assert(tests_view(groups@[i as int].tests@) =~= summarized_group(g).tests);
            assert(groups@[i as int]@ == summarized_group(g));
        }
        if !can_add(&total, &gsum) {
            proof {
                lemma_sum_groups_prefix(pg, i + 1);
            }
            return None;
        }
        add_summary(&mut total, &gsum);
        i = i + 1;
    }
    assert(pg.take(i as int) =~= pg);
    let rep = Report { summary: total, groups };
    assert(rep@.groups =~= report_of(pg).groups);
    Some(rep)
}

/// Reads the text report `input`, in which each test script's TAP output follows a
/// header line `==> path`, into the report of the run: tests are grouped by the first
/// component of their path, and each test, group and the whole run is summarized.
pub fn parse_report(input: &str) -> (r: Report)
    requires
        report_fits(input@),
    ensures
        r@ == report_of(parsed_groups(input@)),
{
    try_parse_report(input).unwrap()
}

proof fn lemma_cases_split(cases: Seq<CaseView>)
    ensures
        count_cases(cases, CaseStatus::Passed) + count_cases(cases, CaseStatus::Failed)
            == cases.len(),
    decreases cases.len(),
{
    if cases.len() > 0 {
        lemma_cases_split(cases.drop_last());
    }
}

proof fn lemma_sum_tests_split(ts: Seq<TestView>)
    ensures
        sum_tests(ts).cases == sum_tests(ts).passed + sum_tests(ts).failed,
        sum_tests(ts).tests == ts.len(),
    decreases ts.len(),
{
    if ts.len() > 0 {
        lemma_sum_tests_split(ts.drop_last());
        lemma_cases_split(ts.last().cases);
    }
}

proof fn lemma_sum_groups_split(gs: Seq<GroupView>)
    ensures
        sum_groups(gs).cases == sum_groups(gs).passed + sum_groups(gs).failed,
    decreases gs.len(),
{
    if gs.len() > 0 {
        lemma_sum_groups_split(gs.drop_last());
        lemma_sum_tests_split(gs.last().tests);
    }
}

/// Law: in the report of any text, every case either passed or failed: the cases of the
/// run, of each group and of each test are the passed ones and the failed ones, and a
/// group counts one test per test it holds.
pub proof fn law_cases_passed_or_failed(input: Seq<char>)
    ensures
        ({
            let r = report_of(parsed_groups(input));
            &&& r.summary.cases == r.summary.passed + r.summary.failed
            &&& forall|i: int|
                0 <= i < r.groups.len() ==> {
                    let g = #[trigger] r.groups[i];
                    &&& g.summary.cases == g.summary.passed + g.summary.failed
                    &&& g.summary.tests == g.tests.len()
                    &&& forall|j: int|
                        0 <= j < g.tests.len() ==> (#[trigger] g.tests[j]).summary.cases
                            == g.tests[j].summary.passed + g.tests[j].summary.failed
                }
        }),
{
    let gs = parsed_groups(input);
    let r = report_of(gs);
    lemma_sum_groups_split(gs);
    assert forall|i: int| 0 <= i < r.groups.len() implies {
        let g = #[trigger] r.groups[i];
        &&& g.summary.cases == g.summary.passed + g.summary.failed
        &&& g.summary.tests == g.tests.len()
        &&& forall|j: int|
            0 <= j < g.tests.len() ==> (#[trigger] g.tests[j]).summary.cases
                == g.tests[j].summary.passed + g.tests[j].summary.failed
    } by {
        lemma_sum_tests_split(gs[i].tests);
        assert forall|j: int| 0 <= j < r.groups[i].tests.len() implies (
        #[trigger] r.groups[i].tests[j]).summary.cases == r.groups[i].tests[j].summary.passed
            + r.groups[i].tests[j].summary.failed by {
            lemma_cases_split(gs[i].tests[j].cases);
        }
    }
}

/// Every test of each group belongs to it by its path, and no two groups share a name.
pub open spec fn grouped(gs: Seq<GroupView>) -> bool {
    &&& forall|i: int, j: int|
        0 <= i < gs.len() && 0 <= j < gs[i].tests.len() ==> group_of(
            (#[trigger] gs[i].tests[j]).path,
        ) == gs[i].name
    &&& forall|i: int, k: int| 0 <= i < k < gs.len() ==> gs[i].name != gs[k].name
}

proof fn lemma_find_group(gs: Seq<GroupView>, name: Seq<char>)
    ensures
        match find_group(gs, name) {
            Some(i) => 0 <= i < gs.len() && gs[i].name == name,
            None => forall|i: int| 0 <= i < gs.len() ==> gs[i].name != name,
        },
    decreases gs.len(),
{
    if gs.len() > 0 && gs[0].name != name {
        lemma_find_group(gs.drop_first(), name);
        assert forall|i: int| 0 < i < gs.len() implies gs[i].name == gs.drop_first()[i - 1].name by {}
    }
}

proof fn lemma_add_test_grouped(gs: Seq<GroupView>, t: Option<TestView>)
    requires
        grouped(gs),
    ensures
        grouped(add_test(gs, t)),
{
    if let Some(t) = t {
        let name = group_of(t.path);
        lemma_find_group(gs, name);
        let r = add_test(gs, Some(t));
        match find_group(gs, name) {
            Some(i) => {
                assert forall|a: int, b: int|
                    0 <= a < r.len() && 0 <= b < r[a].tests.len() implies group_of(
                    (#[trigger] r[a].tests[b]).path,
                ) == r[a].name by {
                    if a != i {
                        assert(r[a] == gs[a]);
                    } else if b < gs[i].tests.len() {
                        assert(r[a].tests[b] == gs[i].tests[b]);
                    }
                }
            },
            None => {
                assert forall|a: int, b: int|
                    0 <= a < r.len() && 0 <= b < r[a].tests.len() implies group_of(
                    (#[trigger] r[a].tests[b]).path,
                ) == r[a].name by {
                    if a < gs.len() {
                        assert(r[a] == gs[a]);
                    }
                }
            },
        }
    }
}

proof fn lemma_read_lines_grouped(st: ParseState, ls: Seq<Seq<char>>)
    requires
        grouped(st.groups),
    ensures
        grouped(read_lines(st, ls).groups),
    decreases ls.len(),
{
    if ls.len() > 0 {
        let next = step(st, ls[0]);
        if text::has_prefix_at(ls[0], 0, "==> "@) {
            lemma_add_test_grouped(st.groups, st.current);
        }
        lemma_read_lines_grouped(next, ls.drop_first());
    }
}

/// Law: in the report of any text, each test sits in the group named by the first
/// component of its path, and no two groups have the same name.
pub proof fn law_tests_in_their_group(input: Seq<char>)
    ensures
        grouped(parsed_groups(input)),
        grouped(report_of(parsed_groups(input)).groups),
{
    let init = ParseState { groups: seq![], current: None };
    lemma_read_lines_grouped(init, text::lines(input));
    let st = read_lines(init, text::lines(input));
    lemma_add_test_grouped(st.groups, st.current);
    let gs = parsed_groups(input);
    let r = report_of(gs);
    assert forall|i: int, j: int|
        0 <= i < r.groups.len() && 0 <= j < r.groups[i].tests.len() implies group_of(
        (#[trigger] r.groups[i].tests[j]).path,
    ) == r.groups[i].name by {
        assert(r.groups[i].tests[j].path == gs[i].tests[j].path);
    }
}

/// Whether `line` reports the outcome of a test case: it is `ok`, or starts with `ok `
/// or with `not ok`.
pub open spec fn is_result_line(line: Seq<char>) -> bool {
    text::has_prefix_at(line, 0, "ok "@) || line == "ok"@ || text::has_prefix_at(line, 0, "not ok"@)
}

/// Whether `line` is a plan line `1..N` with `N` a count that fits.
pub open spec fn is_plan_line(line: Seq<char>) -> bool {
    text::has_prefix_at(line, 0, "1.."@) && text::parse_unsigned(line.skip(3), max_count()) is Some
}

proof fn lemma_line_kinds(line: Seq<char>)
    ensures
        text::has_prefix_at(line, 0, "1.."@) ==> !text::has_prefix_at(line, 0, "==> "@)
            && !is_result_line(line),
        is_result_line(line) ==> !text::has_prefix_at(line, 0, "==> "@),
        text::has_prefix_at(line, 0, "not ok"@) ==> !text::has_prefix_at(line, 0, "ok "@) && line
            != "ok"@,
{
    reveal_strlit("1..");
    reveal_strlit("==> ");
    reveal_strlit("ok ");
    reveal_strlit("ok");
    reveal_strlit("not ok");
    if text::has_prefix_at(line, 0, "1.."@) {
        assert(line[0] == "1.."@[0]);
    }
    if text::has_prefix_at(line, 0, "ok "@) {
        assert(line[0] == "ok "@[0]);
    }
    if line == "ok"@ {
        assert(line[0] == 'o');
    }
    if text::has_prefix_at(line, 0, "not ok"@) {
        assert(line[0] == "not ok"@[0]);
    }
}

/// Law: while a test is being read, a plan line `1..N`, with `N` a count that fits,
/// sets what the test planned to `N`, whatever cases and output the test already holds;
/// the line is not kept as output and nothing else changes.
pub proof fn law_plan_line_sets_plan(st: ParseState, line: Seq<char>, n: nat)
    requires
        st.current is Some,
        text::has_prefix_at(line, 0, "1.."@),
        text::parse_unsigned(line.skip(3), max_count()) == Some(n),
    ensures
        step(st, line).groups == st.groups,
        step(st, line).current is Some,
        ({
            let t = st.current->0;
            let u = step(st, line).current->0;
            &&& u.planned == Some(n as usize)
            &&& u.cases == t.cases
            &&& u.output == t.output
            &&& u.name == t.name && u.path == t.path && u.summary == t.summary
        }),
{
    lemma_line_kinds(line);
}

/// Law: while a test is being read, a result line adds one case to it, after the cases
/// it holds: a failed case for a line that starts with `not ok`, else a passed one, with
/// the line as its text; what the test planned and its output stay as they were.
pub proof fn law_result_line_adds_case(st: ParseState, line: Seq<char>)
    requires
        st.current is Some,
        is_result_line(line),
    ensures
        step(st, line).groups == st.groups,
        step(st, line).current is Some,
        ({
            let t = st.current->0;
            let u = step(st, line).current->0;
            &&& u.cases.len() == t.cases.len() + 1
            &&& u.cases.drop_last() == t.cases
            &&& u.cases.last().raw == line
            &&& u.cases.last().status == if text::has_prefix_at(line, 0, "not ok"@) {
                CaseStatus::Failed
            } else {
                CaseStatus::Passed
            }
            &&& u.planned == t.planned
            &&& u.output == t.output
            &&& u.name == t.name && u.path == t.path && u.summary == t.summary
        }),
{
    lemma_line_kinds(line);
    let t = st.current->0;
    let u = step(st, line).current->0;
    assert(u.cases.drop_last() =~= t.cases);
}

/// Law: while a test is being read, a line that is neither a header, a plan line nor a
/// result line is kept, after the output before it, where it is not blank, and changes
/// nothing where it is blank.
pub proof fn law_other_line_is_output(st: ParseState, line: Seq<char>)
    requires
        st.current is Some,
        !text::has_prefix_at(line, 0, "==> "@),
        !is_plan_line(line),
        !is_result_line(line),
    ensures
        text::trim(line).len() > 0 ==> step(st, line) == (ParseState {
            groups: st.groups,
            current: Some(
                TestView {
                    name: st.current->0.name,
                    path: st.current->0.path,
                    planned: st.current->0.planned,
                    summary: st.current->0.summary,
                    cases: st.current->0.cases,
                    output: st.current->0.output.push(line),
                },
            ),
        }),
        text::trim(line).len() == 0 ==> step(st, line) == st,
{
}

/// Law: lines before the first header change nothing.
pub proof fn law_lines_before_first_header(st: ParseState, line: Seq<char>)
    requires
        st.current is None,
        !text::has_prefix_at(line, 0, "==> "@),
    ensures
        step(st, line) == st,
{
}

/// Field-wise sum of the summaries `ss`.
pub open spec fn total(ss: Seq<SummaryView>) -> SummaryView
    decreases ss.len(),
{
    if ss.len() == 0 {
        zero()
    } else {
        plus(total(ss.drop_last()), ss.last())
    }
}

proof fn lemma_sum_tests_total(ts: Seq<TestView>)
    ensures
        sum_tests(ts) == total(Seq::new(ts.len(), |j: int| test_summary(ts[j]))),
    decreases ts.len(),
{
    if ts.len() > 0 {
        lemma_sum_tests_total(ts.drop_last());
        let whole = Seq::new(ts.len(), |j: int| test_summary(ts[j]));
        let front = Seq::new(ts.drop_last().len(), |j: int| test_summary(ts.drop_last()[j]));
        assert(whole.drop_last() =~= front);
    }
}

proof fn lemma_sum_groups_total(gs: Seq<GroupView>)
    ensures
        sum_groups(gs) == total(Seq::new(gs.len(), |i: int| sum_tests(gs[i].tests))),
    decreases gs.len(),
{
    if gs.len() > 0 {
        lemma_sum_groups_total(gs.drop_last());
        let whole = Seq::new(gs.len(), |i: int| sum_tests(gs[i].tests));
        let front = Seq::new(gs.drop_last().len(), |i: int| sum_tests(gs.drop_last()[i].tests));
        assert(whole.drop_last() =~= front);
    }
}

/// Law: the counts of a report add up: the run's counts are the sums of its groups'
/// counts, a group's are the sums of its tests' counts, and a test counts itself once,
/// its cases, its passed and failed cases, and the cases its plan line announced (none
/// without one).
pub proof fn law_counts_add_up(gs: Seq<GroupView>)
    ensures
        ({
            let r = report_of(gs);
            &&& r.summary == total(Seq::new(r.groups.len(), |i: int| r.groups[i].summary))
            &&& forall|i: int|
                0 <= i < r.groups.len() ==> (#[trigger] r.groups[i]).summary == total(
                    Seq::new(r.groups[i].tests.len(), |j: int| r.groups[i].tests[j].summary),
                )
            &&& forall|i: int, j: int|
                0 <= i < r.groups.len() && 0 <= j < r.groups[i].tests.len() ==> {
                    let t = #[trigger] r.groups[i].tests[j];
                    &&& t.summary.tests == 1
                    &&& t.summary.cases == t.cases.len()
                    &&& t.summary.passed == count_cases(t.cases, CaseStatus::Passed)
                    &&& t.summary.failed == count_cases(t.cases, CaseStatus::Failed)
                    &&& t.summary.planned == match t.planned {
                        Some(p) => p as nat,
                        None => 0,
                    }
                }
        }),
{
    let r = report_of(gs);
    lemma_sum_groups_total(gs);
    assert(Seq::new(r.groups.len(), |i: int| r.groups[i].summary) =~= Seq::new(
        gs.len(),
        |i: int| sum_tests(gs[i].tests),
    ));
    assert forall|i: int| 0 <= i < r.groups.len() implies (#[trigger] r.groups[i]).summary
        == total(Seq::new(r.groups[i].tests.len(), |j: int| r.groups[i].tests[j].summary)) by {
        let ts = gs[i].tests;
        lemma_sum_tests_total(ts);
        assert(Seq::new(r.groups[i].tests.len(), |j: int| r.groups[i].tests[j].summary) =~= Seq::new(
            ts.len(),
            |j: int| test_summary(ts[j]),
        ));
    }
}

} // verus!
