//! Test cases: the `desc=` line of a test script, and discovery of the test
//! scripts of a test directory.

use vstd::prelude::*;

use crate::order;
use crate::text;

verus! {

/// What goes wrong while discovering test cases.
#[derive(Debug, Clone, PartialEq, Eq)]
pub enum RunError {
    /// A directory or a file could not be read; `message` is the I/O error's text.
    Read { message: String },
    /// A test script holds no `desc=` line.
    MissingDesc { path: String },
}

/// One discovered test script.
#[derive(Debug, Clone, PartialEq, Eq)]
pub struct TestCase {
    /// Name of the directory the script lies in.
    pub group: String,
    /// Path of the script.
    pub path: String,
    /// File name of the script without its extension.
    pub name: String,
    /// The script's description, from its `desc=` line.
    pub desc: String,
}

/// The key that starts a description line.
pub open spec fn desc_key() -> Seq<char> {
    seq!['d', 'e', 's', 'c', '=']
}

/// Whether `i` is the start of a line of `s` (the start of the text, or just after a `\n`).
pub open spec fn line_start(s: Seq<char>, i: int) -> bool {
    0 <= i <= s.len() && (i == 0 || s[i - 1] == '\n')
}

/// Characters that end an unquoted description.
pub open spec fn ends_bare_value(c: char) -> bool {
    c == '\r' || c == '\n' || c == '#'
}

/// Length of the longest prefix of `t` without a character that ends an unquoted value.
pub open spec fn bare_len(t: Seq<char>) -> nat
    decreases t.len(),
{
    if t.len() > 0 && !ends_bare_value(t[0]) {
        1 + bare_len(t.drop_first())
    } else {
        0
    }
}

/// The text between the quote `q` at `j` and the next `q`, when `s[j]` is `q` and a
/// closing `q` follows.
pub open spec fn quoted_at(s: Seq<char>, j: int, q: char) -> Option<Seq<char>> {
    let rest = s.skip(j + 1);
    if 0 <= j < s.len() && s[j] == q && text::first_index(rest, q) < rest.len() {
        Some(rest.take(text::first_index(rest, q) as int))
    } else {
        None
    }
}

/// The value that follows `desc=` when it starts at `j`: a double-quoted text, else a
/// single-quoted text, else the non-empty run of characters up to a `\r`, `\n` or `#`.
pub open spec fn desc_value_at(s: Seq<char>, j: int) -> Option<Seq<char>> {
    if quoted_at(s, j, '"') is Some {
        quoted_at(s, j, '"')
    } else if quoted_at(s, j, '\'') is Some {
        quoted_at(s, j, '\'')
    } else if 0 <= j <= s.len() && bare_len(s.skip(j)) > 0 {
        Some(s.skip(j).take(bare_len(s.skip(j)) as int))
    } else {
        None
    }
}

/// Whether a description assignment starts at `i`: a line that starts with `desc=`
/// followed by a value.
pub open spec fn desc_at(s: Seq<char>, i: int) -> bool {
    &&& line_start(s, i)
    &&& text::has_prefix_at(s, i, desc_key())
    &&& desc_value_at(s, i + 5) is Some
}

/// Whether `i` is the first position at which a description assignment starts.
pub open spec fn first_desc_at(s: Seq<char>, i: int) -> bool {
    desc_at(s, i) && forall|j: int| 0 <= j < i ==> !desc_at(s, j)
}

/// The description of a test script with contents `s`: the value of its first
/// description assignment, trimmed; `None` where there is none.
pub open spec fn desc_of(s: Seq<char>) -> Option<Seq<char>> {
    if exists|i: int| first_desc_at(s, i) {
        let i = choose|i: int| first_desc_at(s, i);
        Some(text::trim(desc_value_at(s, i + 5)->0))
    } else {
        None
    }
}

proof fn lemma_bare_len(t: Seq<char>, m: int)
    requires
        0 <= m <= t.len(),
        forall|j: int| 0 <= j < m ==> !ends_bare_value(t[j]),
        m == t.len() || ends_bare_value(t[m]),
    ensures
        bare_len(t) == m,
    decreases t.len(),
{
    if t.len() > 0 && m > 0 {
        lemma_bare_len(t.drop_first(), m - 1);
    }
}

proof fn lemma_first_desc_unique(s: Seq<char>, i: int)
    requires
        first_desc_at(s, i),
    ensures
        desc_of(s) == Some(text::trim(desc_value_at(s, i + 5)->0)),
{
    let k = choose|k: int| first_desc_at(s, k);
    assert(first_desc_at(s, k));
    if k < i {
        assert(!desc_at(s, k));
    } else if i < k {
        assert(!desc_at(s, i));
    }
}

/// Looks for the quote `q` closing a text that starts at `j`.
fn quoted_value(v: &Vec<char>, j: usize, q: char) -> (r: Option<(usize, usize)>)
    requires
        j <= v@.len(),
    ensures
        r matches Some(b) ==> quoted_at(v@, j as int, q) == Some(
            v@.subrange(b.0 as int, b.1 as int),
        ) && j < b.0 <= b.1 <= v@.len(),
        r is None ==> quoted_at(v@, j as int, q) is None,
{
    let n = v.len();
    if j >= n || v[j] != q {
        return None;
    }
    let ghost rest = v@.skip(j + 1);
    let mut k = j + 1;
    while k < n && v[k] != q
        invariant
            j < k <= n == v@.len(),
            forall|x: int| j < x < k ==> v@[x] != q,
        decreases n - k,
    {
        k = k + 1;
    }
    proof {
        assert forall|x: int| 0 <= x < k - (j + 1) implies rest[x] != q by {
            assert(rest[x] == v@[j + 1 + x]);
        }
        text::lemma_first_index(rest, q, k - (j + 1));
    }
    if k < n {
        assert(rest.take(k - (j + 1)) =~= v@.subrange(j + 1, k as int));
        Some((j + 1, k))
    } else {
        None
    }
}

/// The bounds of the value that follows `desc=` at `j`.
fn desc_value(v: &Vec<char>, j: usize) -> (r: Option<(usize, usize)>)
    requires
        j <= v@.len(),
    ensures
        r matches Some(b) ==> desc_value_at(v@, j as int) == Some(
            v@.subrange(b.0 as int, b.1 as int),
        ) && b.0 <= b.1 <= v@.len(),
        r is None ==> desc_value_at(v@, j as int) is None,
{
    match quoted_value(v, j, '"') {
        Some(b) => {
            return Some(b);
        },
        None => {},
    }
    match quoted_value(v, j, '\'') {
        Some(b) => {
            return Some(b);
        },
        None => {},
    }
    let n = v.len();
    let ghost t = v@.skip(j as int);
    let mut k = j;
    while k < n && v[k] != '\r' && v[k] != '\n' && v[k] != '#'
        invariant
            j <= k <= n == v@.len(),
            forall|x: int| j <= x < k ==> !ends_bare_value(v@[x]),
        decreases n - k,
    {
        k = k + 1;
    }
    proof {
        assert forall|x: int| 0 <= x < k - j implies !ends_bare_value(t[x]) by {
            assert(t[x] == v@[j + x]);
        }
        if k < n {
            assert(t[k - j] == v@[k as int]);
        }
        lemma_bare_len(t, k - j);
    }
    if k > j {
        assert(t.take(k - j) =~= v@.subrange(j as int, k as int));
        Some((j, k))
    } else {
        None
    }
}

/// The description of a test script whose text is `contents`, or `MissingDesc`
/// naming `path` when the script has none.
pub fn extract_desc(path: &str, contents: &str) -> (r: Result<String, RunError>)
    ensures
        match r {
            Ok(d) => desc_of(contents@) == Some(d@),
            Err(e) => desc_of(contents@) is None && (e matches RunError::MissingDesc { path: p }
                && p@ == path@),
        },
{
    let v = text::chars_of(contents);
    let n = v.len();
    let mut i: usize = 0;
    loop
        invariant
            v@ == contents@,
            n == v@.len(),
            line_start(v@, i as int),
            forall|j: int| 0 <= j < i ==> !desc_at(v@, j),
        decreases n + 1 - i,
    {
        if text::starts_with_at(&v, i, n, "desc=") {
            proof {
                reveal_strlit("desc=");
                assert(v@.subrange(i as int, n as int).subrange(0, 5) =~= v@.subrange(
                    i as int,
                    i + 5,
                ));
                assert("desc="@ =~= desc_key());
            }
            match desc_value(&v, i + 5) {
                Some((a, b)) => {
                    let (ta, tb) = text::trim_range(&v, a, b);
                    proof {
                        assert(desc_at(v@, i as int));
                        assert(first_desc_at(v@, i as int));
                        lemma_first_desc_unique(v@, i as int);
                    }
                    return Ok(text::string_of(&v, ta, tb));
                },
                None => {},
            }
        } else {
            proof {
                reveal_strlit("desc=");
                if text::has_prefix_at(v@, i as int, desc_key()) {
                    assert(v@.subrange(i as int, n as int).subrange(0, 5) =~= v@.subrange(
                        i as int,
                        i + 5,
                    ));
                    assert("desc="@ =~= desc_key());
                }
            }
        }
        assert(!desc_at(v@, i as int));
        // Move on to the start of the next line.
        let mut k = i;
        while k < n && v[k] != '\n'
            invariant
                i <= k <= n == v@.len(),
                forall|x: int| i <= x < k ==> v@[x] != '\n',
            decreases n - k,
        {
            k = k + 1;
        }
        if k >= n {
            proof {
                assert forall|j: int| 0 <= j implies !desc_at(v@, j) by {
                    if i < j && j <= n {
                        assert(v@[j - 1] != '\n');
                    }
                }
                assert(!exists|j: int| first_desc_at(v@, j));
            }
            return Err(RunError::MissingDesc { path: path.to_owned() });
        }
        proof {
            assert forall|j: int| 0 <= j < k + 1 implies !desc_at(v@, j) by {
                if i < j && j <= k {
                    assert(v@[j - 1] != '\n');
                }
            }
        }
        i = k + 1;
    }
}

} // verus!

verus! {

/// What a test case is, as plain text.
pub struct TestCaseView {
    pub group: Seq<char>,
    pub path: Seq<char>,
    pub name: Seq<char>,
    pub desc: Seq<char>,
}

impl View for TestCase {
    type V = TestCaseView;

    open spec fn view(&self) -> TestCaseView {
        TestCaseView { group: self.group@, path: self.path@, name: self.name@, desc: self.desc@ }
    }
}

/// What a discovery error is, as plain text.
pub enum RunErrorView {
    Read(Seq<char>),
    MissingDesc(Seq<char>),
}

impl View for RunError {
    type V = RunErrorView;

    open spec fn view(&self) -> RunErrorView {
        match self {
            RunError::Read { message } => RunErrorView::Read(message@),
            RunError::MissingDesc { path } => RunErrorView::MissingDesc(path@),
        }
    }
}

/// A file of a group directory, as read for discovery.
pub struct FileEntry {
    /// The file's name.
    pub name: String,
    /// The file's path.
    pub path: String,
    /// The file's text, or the text of the error that reading it gave. Only test scripts
    /// (see `is_test_file`) need to be read; for other files this may be `None`. A test
    /// script that was not read counts as one that could not be read, with no error text.
    pub contents: Option<Result<String, String>>,
}

/// An entry of the test directory, as read for discovery.
pub struct GroupEntry {
    /// The entry's name.
    pub name: String,
    /// The entry's path.
    pub path: String,
    /// Whether the entry is a directory (a group of tests).
    pub is_dir: bool,
    /// For a directory, its files, or the text of the error that listing it gave.
    /// Only directories are listed; for other entries this is an empty list.
    pub files: Result<Vec<FileEntry>, String>,
}

/// A file name split into stem and extension as `Path::file_stem` and `Path::extension`
/// split it: at the last `.`, unless that `.` starts the name or the name is `..`.
pub open spec fn stem_and_extension(name: Seq<char>) -> (Seq<char>, Option<Seq<char>>) {
    let k = text::last_index(name, '.');
    if name == seq!['.', '.'] || k <= 0 {
        (name, None)
    } else {
        (name.take(k), Some(name.skip(k + 1)))
    }
}

/// Whether a file with this name is a test script: its extension is `t`.
pub open spec fn has_test_extension(name: Seq<char>) -> bool {
    stem_and_extension(name).1 == Some(seq!['t'])
}

fn split_name(v: &Vec<char>) -> (r: (usize, Option<usize>))
    ensures
        r.0 <= v@.len(),
        stem_and_extension(v@).0 == v@.take(r.0 as int),
        r.1 is None ==> stem_and_extension(v@).1 is None,
        r.1 matches Some(a) ==> a <= v@.len() && stem_and_extension(v@).1 == Some(
            v@.skip(a as int),
        ),
{
    let dd = v.len() == 2 && v[0] == '.' && v[1] == '.';
    assert(dd == (v@ == seq!['.', '.'])) by {
        if v@ == seq!['.', '.'] {
            assert(v@[0] == '.' && v@[1] == '.');
        }
        if dd {
            assert(v@ =~= seq!['.', '.']);
        }
    }
    assert(v@.take(v@.len() as int) =~= v@);
    assert(v@.subrange(0, v@.len() as int) =~= v@);
    if dd {
        return (v.len(), None);
    }
    match text::find_last(v, 0, v.len(), '.') {
        None => (v.len(), None),
        Some(k) => {
            if k == 0 {
                (v.len(), None)
            } else {
                (k, Some(k + 1))
            }
        },
    }
}

/// Whether a file with this name is a test script (its extension is `t`).
pub fn is_test_file(name: &str) -> (b: bool)
    ensures
        b == has_test_extension(name@),
{
    let v = text::chars_of(name);
    let (_, ext) = split_name(&v);
    match ext {
        None => false,
        Some(a) => {
            let r = a < v.len() && v.len() - a == 1 && v[a] == 't';
            proof {
                if has_test_extension(v@) {
                    assert(v@.skip(a as int) == seq!['t']);
                    assert(v@.skip(a as int).len() == 1);
                    assert(v@.skip(a as int)[0] == 't');
                    assert(v@[a as int] == 't');
                }
                if r {
                    assert(v@.skip(a as int) =~= seq!['t']);
                }
            }
            r
        },
    }
}

/// The stem of a file name: the name without its extension.
pub fn file_stem(name: &str) -> (s: String)
    ensures
        s@ == stem_and_extension(name@).0,
{
    let v = text::chars_of(name);
    let (e, _) = split_name(&v);
    assert(v@.take(e as int) =~= v@.subrange(0, e as int));
    text::string_of(&v, 0, e)
}

/// The test case of a test script of the group `group`, or the error that reading it gives.
pub open spec fn file_case(group: Seq<char>, f: FileEntry) -> Result<TestCaseView, RunErrorView> {
    match f.contents {
        Some(Ok(c)) => match desc_of(c@) {
            Some(d) => Ok(
                TestCaseView {
                    group,
                    path: f.path@,
                    name: stem_and_extension(f.name@).0,
                    desc: d,
                },
            ),
            None => Err(RunErrorView::MissingDesc(f.path@)),
        },
        Some(Err(m)) => Err(RunErrorView::Read(m@)),
        None => Err(RunErrorView::Read(seq![])),
    }
}

/// `acc` followed by the cases of `r`, or the error of `r`.
pub open spec fn after(acc: Seq<TestCaseView>, r: Result<Seq<TestCaseView>, RunErrorView>) -> Result<
    Seq<TestCaseView>,
    RunErrorView,
> {
    match r {
        Ok(rest) => Ok(acc + rest),
        Err(e) => Err(e),
    }
}

proof fn lemma_after_after(
    a: Seq<TestCaseView>,
    b: Seq<TestCaseView>,
    r: Result<Seq<TestCaseView>, RunErrorView>,
)
    ensures
        after(a, after(b, r)) == after(a + b, r),
{
    if let Ok(x) = r {
        assert(a + (b + x) =~= (a + b) + x);
    }
}

/// The test cases of the test scripts among `files`, in that order, or the first error.
pub open spec fn files_cases(group: Seq<char>, files: Seq<FileEntry>) -> Result<
    Seq<TestCaseView>,
    RunErrorView,
>
    decreases files.len(),
{
    if files.len() == 0 {
        Ok(seq![])
    } else if !has_test_extension(files[0].name@) {
        files_cases(group, files.drop_first())
    } else {
        match file_case(group, files[0]) {
            Ok(c) => after(seq![c], files_cases(group, files.drop_first())),
            Err(e) => Err(e),
        }
    }
}

/// The paths of `files`.
pub open spec fn file_paths(files: Seq<FileEntry>) -> Seq<Seq<char>> {
    Seq::new(files.len(), |i: int| files[i].path@)
}

/// The paths of `groups`.
pub open spec fn group_paths(groups: Seq<GroupEntry>) -> Seq<Seq<char>> {
    Seq::new(groups.len(), |i: int| groups[i].path@)
}

/// `files` ordered by path.
pub open spec fn files_by_path(files: Seq<FileEntry>) -> Seq<FileEntry> {
    let o = order::sorted_indices(file_paths(files));
    Seq::new(o.len(), |j: int| files[o[j]])
}

/// `groups` ordered by path.
pub open spec fn groups_by_path(groups: Seq<GroupEntry>) -> Seq<GroupEntry> {
    let o = order::sorted_indices(group_paths(groups));
    Seq::new(o.len(), |j: int| groups[o[j]])
}

/// The test cases of the directories among `groups`, group after group, or the first error.
pub open spec fn groups_cases(groups: Seq<GroupEntry>) -> Result<Seq<TestCaseView>, RunErrorView>
    decreases groups.len(),
{
    if groups.len() == 0 {
        Ok(seq![])
    } else if !groups[0].is_dir {
        groups_cases(groups.drop_first())
    } else {
        match groups[0].files {
            Err(m) => Err(RunErrorView::Read(m@)),
            Ok(fs) => match files_cases(groups[0].name@, files_by_path(fs@)) {
                Ok(cs) => after(cs, groups_cases(groups.drop_first())),
                Err(e) => Err(e),
            },
        }
    }
}

/// The outcome of discovery on a test directory whose listing is `root`: the entries are
/// taken in path order, directories are the groups, and in each group the files with
/// extension `t`, in path order, are the test cases; the first read error or script
/// without a description ends discovery with that error.
pub open spec fn discovery(root: Result<Vec<GroupEntry>, String>) -> Result<
    Seq<TestCaseView>,
    RunErrorView,
> {
    match root {
        Err(m) => Err(RunErrorView::Read(m@)),
        Ok(gs) => groups_cases(groups_by_path(gs@)),
    }
}

/// The test cases as plain text.
pub open spec fn cases_view(cs: Seq<TestCase>) -> Seq<TestCaseView> {
    Seq::new(cs.len(), |i: int| cs[i]@)
}

/// The outcome of discovery as plain text.
pub open spec fn outcome_view(r: Result<Vec<TestCase>, RunError>) -> Result<
    Seq<TestCaseView>,
    RunErrorView,
> {
    match r {
        Ok(cs) => Ok(cases_view(cs@)),
        Err(e) => Err(e@),
    }
}

fn case_of_file(group: &String, f: &FileEntry) -> (r: Result<TestCase, RunError>)
    ensures
        match r {
            Ok(c) => file_case(group@, *f) == Ok::<TestCaseView, RunErrorView>(c@),
            Err(e) => file_case(group@, *f) == Err::<TestCaseView, RunErrorView>(e@),
        },
{
    match &f.contents {
        Some(Ok(c)) => {
            let desc = extract_desc(f.path.as_str(), c.as_str())?;
            Ok(TestCase { group: group.clone(), path: f.path.clone(), name: file_stem(f.name.as_str()), desc })
        },
        Some(Err(m)) => Err(RunError::Read { message: m.clone() }),
        None => Err(RunError::Read { message: String::new() }),
    }
}

fn group_cases(group: &String, files: &Vec<FileEntry>) -> (r: Result<Vec<TestCase>, RunError>)
    ensures
        outcome_view(r) == files_cases(group@, files_by_path(files@)),
{
    let mut keys: Vec<Vec<char>> = Vec::new();
    let mut i: usize = 0;
    while i < files.len()
        invariant
            i <= files@.len(),
            keys@.len() == i,
            forall|j: int| 0 <= j < i ==> (#[trigger] keys@[j])@ == files@[j].path@,
        decreases files@.len() - i,
    {
        keys.push(text::chars_of(files[i].path.as_str()));
        i = i + 1;
    }
    assert(order::texts(keys@) =~= file_paths(files@));
    let order = order::sort_indices(&keys);
    let ghost sorted = files_by_path(files@);
    let ghost o = order::sorted_indices(file_paths(files@));
    assert(sorted.len() == order@.len());
    let mut out: Vec<TestCase> = Vec::new();
    let mut j: usize = 0;
    assert(sorted.skip(0) =~= sorted);
    assert(cases_view(out@) =~= Seq::<TestCaseView>::empty());
    while j < order.len()
        invariant
            j <= order@.len() == sorted.len(),
            order::positions(order@) == o,
            o == order::sorted_indices(file_paths(files@)),
            sorted == files_by_path(files@),
            forall|x: int| 0 <= x < order@.len() ==> order@[x] < files@.len(),
            files_cases(group@, sorted) == after(
                cases_view(out@),
                files_cases(group@, sorted.skip(j as int)),
            ),
        decreases order@.len() - j,
    {
        let f = &files[order[j]];
        assert(o[j as int] == order@[j as int] as int);
        assert(sorted[j as int] == files@[o[j as int]]);
        assert(sorted[j as int] == *f);
        assert(sorted.skip(j as int)[0] == *f);
        assert(sorted.skip(j as int).drop_first() =~= sorted.skip(j + 1));
        if is_test_file(f.name.as_str()) {
            let c = case_of_file(group, f)?;
            let ghost prev = cases_view(out@);
            out.push(c);
            proof {
                assert(cases_view(out@) =~= prev + seq![c@]);
                lemma_after_after(prev, seq![c@], files_cases(group@, sorted.skip(j + 1)));
            }
        }
        j = j + 1;
    }
    assert(sorted.skip(j as int) =~= Seq::<FileEntry>::empty());
    assert(cases_view(out@) + Seq::<TestCaseView>::empty() =~= cases_view(out@));
    Ok(out)
}

/// Discovers the test cases of a test directory from its listing `root`: the entries
/// that are directories are the groups, taken in path order; in each group, the files
/// with extension `t`, taken in path order, are the test scripts. A case's name is its
/// file name without the extension and its description comes from its `desc=` line.
/// The first listing or reading error, or script without a description, is the result.
pub fn discover(root: &Result<Vec<GroupEntry>, String>) -> (r: Result<Vec<TestCase>, RunError>)
    ensures
        outcome_view(r) == discovery(*root),
{
    let groups = match root {
        Err(m) => {
            return Err(RunError::Read { message: m.clone() });
        },
        Ok(groups) => groups,
    };
    let mut keys: Vec<Vec<char>> = Vec::new();
    let mut i: usize = 0;
    while i < groups.len()
        invariant
            i <= groups@.len(),
            keys@.len() == i,
            forall|j: int| 0 <= j < i ==> (#[trigger] keys@[j])@ == groups@[j].path@,
        decreases groups@.len() - i,
    {
        keys.push(text::chars_of(groups[i].path.as_str()));
        i = i + 1;
    }
    assert(order::texts(keys@) =~= group_paths(groups@));
    let order = order::sort_indices(&keys);
    let ghost sorted = groups_by_path(groups@);
    let ghost o = order::sorted_indices(group_paths(groups@));
    let mut out: Vec<TestCase> = Vec::new();
    let mut j: usize = 0;
    assert(sorted.skip(0) =~= sorted);
    assert(cases_view(out@) =~= Seq::<TestCaseView>::empty());
    while j < order.len()
        invariant
            j <= order@.len() == sorted.len(),
            order::positions(order@) == o,
            o == order::sorted_indices(group_paths(groups@)),
            sorted == groups_by_path(groups@),
            discovery(*root) == groups_cases(sorted),
            forall|x: int| 0 <= x < order@.len() ==> order@[x] < groups@.len(),
            groups_cases(sorted) == after(cases_view(out@), groups_cases(sorted.skip(j as int))),
        decreases order@.len() - j,
    {
        let g = &groups[order[j]];
        assert(o[j as int] == order@[j as int] as int);
        assert(sorted[j as int] == groups@[o[j as int]]);
        assert(sorted.skip(j as int)[0] == *g);
        assert(sorted.skip(j as int).drop_first() =~= sorted.skip(j + 1));
        if g.is_dir {
            match &g.files {
                Err(m) => {
                    return Err(RunError::Read { message: m.clone() });
                },
                Ok(files) => {
                    let mut cs = group_cases(&g.name, files)?;
                    let ghost prev = cases_view(out@);
                    let ghost added = cases_view(cs@);
                    out.append(&mut cs);
                    proof {
                        assert(cases_view(out@) =~= prev + added);
                        lemma_after_after(prev, added, groups_cases(sorted.skip(j + 1)));
                    }
                },
            }
        }
        j = j + 1;
    }
    assert(sorted.skip(j as int) =~= Seq::<GroupEntry>::empty());
    assert(cases_view(out@) + Seq::<TestCaseView>::empty() =~= cases_view(out@));
    Ok(out)
}

/// Every description among `cs` neither starts nor ends with white space.
pub open spec fn descs_trimmed(cs: Seq<TestCaseView>) -> bool {
    forall|i: int| 0 <= i < cs.len() ==> text::is_trimmed(#[trigger] cs[i].desc)
}

proof fn lemma_after_trimmed(acc: Seq<TestCaseView>, r: Result<Seq<TestCaseView>, RunErrorView>)
    requires
        descs_trimmed(acc),
        r matches Ok(rest) ==> descs_trimmed(rest),
    ensures
        after(acc, r) matches Ok(all) ==> descs_trimmed(all),
{
    if let Ok(rest) = r {
        assert forall|i: int| 0 <= i < (acc + rest).len() implies text::is_trimmed(
            #[trigger] (acc + rest)[i].desc,
        ) by {
            if i >= acc.len() {
                assert((acc + rest)[i] == rest[i - acc.len()]);
            }
        }
    }
}

proof fn lemma_desc_of_trimmed(s: Seq<char>)
    ensures
        desc_of(s) matches Some(d) ==> text::is_trimmed(d),
{
    if exists|i: int| first_desc_at(s, i) {
        let i = choose|i: int| first_desc_at(s, i);
        text::law_trim_is_trimmed(desc_value_at(s, i + 5)->0);
    }
}

proof fn lemma_files_trimmed(group: Seq<char>, files: Seq<FileEntry>)
    ensures
        files_cases(group, files) matches Ok(cs) ==> descs_trimmed(cs),
    decreases files.len(),
{
    if files.len() > 0 {
        lemma_files_trimmed(group, files.drop_first());
        if has_test_extension(files[0].name@) {
            if let Ok(c) = file_case(group, files[0]) {
                if let Some(Ok(text)) = files[0].contents {
                    lemma_desc_of_trimmed(text@);
                }
                lemma_after_trimmed(seq![c], files_cases(group, files.drop_first()));
            }
        }
    }
}

proof fn lemma_groups_trimmed(groups: Seq<GroupEntry>)
    ensures
        groups_cases(groups) matches Ok(cs) ==> descs_trimmed(cs),
    decreases groups.len(),
{
    if groups.len() > 0 {
        lemma_groups_trimmed(groups.drop_first());
        if groups[0].is_dir {
            if let Ok(fs) = groups[0].files {
                let sorted = files_by_path(fs@);
                lemma_files_trimmed(groups[0].name@, sorted);
                if let Ok(cs) = files_cases(groups[0].name@, sorted) {
                    lemma_after_trimmed(cs, groups_cases(groups.drop_first()));
                }
            }
        }
    }
}

/// Law: every discovered test case has a description that neither starts nor ends with
/// white space.
pub proof fn law_descriptions_trimmed(root: Result<Vec<GroupEntry>, String>)
    ensures
        discovery(root) matches Ok(cs) ==> descs_trimmed(cs),
{
    if let Ok(gs) = root {
        lemma_groups_trimmed(groups_by_path(gs@));
    }
}

/// The test case of the `j`-th file of the group `g`, where `g` is a listed directory
/// and that file is a test script with a description.
pub open spec fn script_case(g: GroupEntry, j: int) -> Option<TestCaseView> {
    match g.files {
        Ok(fs) => if g.is_dir && 0 <= j < fs@.len() && has_test_extension(fs@[j].name@) {
            match file_case(g.name@, fs@[j]) {
                Ok(c) => Some(c),
                Err(_) => None,
            }
        } else {
            None
        },
        Err(_) => None,
    }
}

/// Whether `c` is the test case of a test script of the group `g`.
pub open spec fn case_from_group(g: GroupEntry, c: TestCaseView) -> bool {
    exists|j: int| #[trigger] script_case(g, j) == Some(c)
}

/// Whether `c` is the test case of a test script of a directory among `gs`.
pub open spec fn case_from_listing(gs: Seq<GroupEntry>, c: TestCaseView) -> bool {
    exists|i: int, j: int| 0 <= i < gs.len() && #[trigger] script_case(gs[i], j) == Some(c)
}

proof fn lemma_files_from(g: GroupEntry, fs: Seq<FileEntry>, files: Seq<FileEntry>)
    requires
        g.is_dir,
        g.files matches Ok(v) && v@ == fs,
        forall|m: int|
            0 <= m < files.len() ==> exists|j: int| 0 <= j < fs.len() && fs[j] == #[trigger] files[m],
    ensures
        files_cases(g.name@, files) matches Ok(cs) ==> forall|k: int|
            0 <= k < cs.len() ==> case_from_group(g, #[trigger] cs[k]),
    decreases files.len(),
{
    if files.len() > 0 {
        assert forall|m: int| 0 <= m < files.drop_first().len() implies exists|j: int|
            0 <= j < fs.len() && fs[j] == #[trigger] files.drop_first()[m] by {
            assert(files.drop_first()[m] == files[m + 1]);
        }
        lemma_files_from(g, fs, files.drop_first());
        if has_test_extension(files[0].name@) {
            if let Ok(c) = file_case(g.name@, files[0]) {
                if let Ok(rest) = files_cases(g.name@, files.drop_first()) {
                    let j0 = choose|j: int| 0 <= j < fs.len() && fs[j] == files[0];
                    assert(script_case(g, j0) == Some(c));
                    let cs = seq![c] + rest;
                    assert forall|k: int| 0 <= k < cs.len() implies case_from_group(
                        g,
                        #[trigger] cs[k],
                    ) by {
                        if k == 0 {
                            assert(script_case(g, j0) == Some(cs[0]));
                        } else {
                            assert(cs[k] == rest[k - 1]);
                        }
                    }
                }
            }
        }
    }
}

proof fn lemma_groups_from(all: Seq<GroupEntry>, groups: Seq<GroupEntry>)
    requires
        forall|m: int|
            0 <= m < groups.len() ==> exists|i: int| 0 <= i < all.len() && all[i] == #[trigger] groups[m],
    ensures
        groups_cases(groups) matches Ok(cs) ==> forall|k: int|
            0 <= k < cs.len() ==> case_from_listing(all, #[trigger] cs[k]),
    decreases groups.len(),
{
    if groups.len() > 0 {
        assert forall|m: int| 0 <= m < groups.drop_first().len() implies exists|i: int|
            0 <= i < all.len() && all[i] == #[trigger] groups.drop_first()[m] by {
            assert(groups.drop_first()[m] == groups[m + 1]);
        }
        lemma_groups_from(all, groups.drop_first());
        let g = groups[0];
        if g.is_dir {
            if let Ok(v) = g.files {
                let sorted = files_by_path(v@);
                let o = order::sorted_indices(file_paths(v@));
                order::law_sorted_indices(file_paths(v@));
                assert forall|m: int| 0 <= m < sorted.len() implies exists|j: int|
                    0 <= j < v@.len() && v@[j] == #[trigger] sorted[m] by {
                    assert(0 <= o[m] < v@.len());
                    assert(sorted[m] == v@[o[m]]);
                }
                lemma_files_from(g, v@, sorted);
                if let Ok(cs) = files_cases(g.name@, sorted) {
                    if let Ok(rest) = groups_cases(groups.drop_first()) {
                        let i0 = choose|i: int| 0 <= i < all.len() && all[i] == groups[0];
                        let all_cs = cs + rest;
                        assert forall|k: int| 0 <= k < all_cs.len() implies case_from_listing(
                            all,
                            #[trigger] all_cs[k],
                        ) by {
                            if k < cs.len() {
                                assert(all_cs[k] == cs[k]);
                                let j = choose|j: int| #[trigger] script_case(g, j) == Some(cs[k]);
                                assert(script_case(all[i0], j) == Some(all_cs[k]));
                            } else {
                                assert(all_cs[k] == rest[k - cs.len()]);
                            }
                        }
                    }
                }
            }
        }
    }
}

/// Law: every discovered test case is the test case of a test script (a file with
/// extension `t`, with a description) of a directory of the listing.
pub proof fn law_cases_come_from_scripts(root: Result<Vec<GroupEntry>, String>)
    ensures
        discovery(root) matches Ok(cs) ==> (root matches Ok(gs) && forall|k: int|
            0 <= k < cs.len() ==> case_from_listing(gs@, #[trigger] cs[k])),
{
    if let Ok(gs) = root {
        let sorted = groups_by_path(gs@);
        let o = order::sorted_indices(group_paths(gs@));
        order::law_sorted_indices(group_paths(gs@));
        assert forall|m: int| 0 <= m < sorted.len() implies exists|i: int|
            0 <= i < gs@.len() && gs@[i] == #[trigger] sorted[m] by {
            assert(0 <= o[m] < gs@.len());
            assert(sorted[m] == gs@[o[m]]);
        }
        lemma_groups_from(gs@, sorted);
    }
}

/// Every directory among `gs` was listed.
pub open spec fn all_listed(gs: Seq<GroupEntry>) -> bool {
    forall|i: int| 0 <= i < gs.len() && (#[trigger] gs[i]).is_dir ==> gs[i].files is Ok
}

proof fn lemma_ok_means_listed(groups: Seq<GroupEntry>)
    ensures
        groups_cases(groups) is Ok ==> all_listed(groups),
    decreases groups.len(),
{
    if groups.len() > 0 {
        lemma_ok_means_listed(groups.drop_first());
        if groups_cases(groups) is Ok {
            assert forall|i: int| 0 <= i < groups.len() && (#[trigger] groups[i]).is_dir implies groups[i].files is Ok by {
                if i > 0 {
                    assert(groups[i] == groups.drop_first()[i - 1]);
                }
            }
        }
    }
}

/// Law: discovery succeeds only on a listing that could be read in which every
/// directory could be listed; a listing that could not be read ends discovery with
/// its error.
pub proof fn law_discovery_needs_every_listing(root: Result<Vec<GroupEntry>, String>)
    ensures
        discovery(root) is Ok ==> (root matches Ok(gs) && all_listed(gs@)),
        root matches Err(m) ==> discovery(root) == Err::<Seq<TestCaseView>, RunErrorView>(
            RunErrorView::Read(m@),
        ),
{
    if let Ok(gs) = root {
        let sorted = groups_by_path(gs@);
        let o = order::sorted_indices(group_paths(gs@));
        order::law_sorted_indices(group_paths(gs@));
        lemma_ok_means_listed(sorted);
        if discovery(root) is Ok {
            assert forall|i: int| 0 <= i < gs@.len() && (#[trigger] gs@[i]).is_dir implies gs@[i].files is Ok by {
                assert(o.contains(i));
                let q = choose|q: int| 0 <= q < o.len() && o[q] == i;
                assert(sorted[q] == gs@[i]);
            }
        }
    }
}

/// Whether the entry `g` ends discovery with no error: it is no directory, or a
/// directory that was listed and whose test scripts all have descriptions.
pub open spec fn passes_cleanly(g: GroupEntry) -> bool {
    !g.is_dir || (g.files matches Ok(fs) && files_cases(g.name@, files_by_path(fs@)) is Ok)
}

proof fn lemma_first_listing_error(groups: Seq<GroupEntry>, k: int, m: Seq<char>)
    requires
        0 <= k < groups.len(),
        groups[k].is_dir,
        groups[k].files matches Err(e) && e@ == m,
        forall|i: int| 0 <= i < k ==> passes_cleanly(#[trigger] groups[i]),
    ensures
        groups_cases(groups) == Err::<Seq<TestCaseView>, RunErrorView>(RunErrorView::Read(m)),
    decreases k,
{
    if k > 0 {
        let rest = groups.drop_first();
        assert forall|i: int| 0 <= i < k - 1 implies passes_cleanly(#[trigger] rest[i]) by {
            assert(rest[i] == groups[i + 1]);
            assert(passes_cleanly(groups[i + 1]));
        }
        assert(rest[k - 1] == groups[k]);
        lemma_first_listing_error(rest, k - 1, m);
        assert(passes_cleanly(groups[0]));
    }
}

/// Law: where, in path order, a directory whose listing failed with message `m` comes
/// before any other error, discovery ends with the read error `m`.
pub proof fn law_listing_error_ends_discovery(gs: Vec<GroupEntry>, k: int, m: Seq<char>)
    requires
        0 <= k < groups_by_path(gs@).len(),
        groups_by_path(gs@)[k].is_dir,
        groups_by_path(gs@)[k].files matches Err(e) && e@ == m,
        forall|i: int| 0 <= i < k ==> passes_cleanly(#[trigger] groups_by_path(gs@)[i]),
    ensures
        discovery(Ok(gs)) == Err::<Seq<TestCaseView>, RunErrorView>(RunErrorView::Read(m)),
{
    lemma_first_listing_error(groups_by_path(gs@), k, m);
}

/// Whether the test script `f` of the group `group` has a test case among `cs`.
pub open spec fn found_in(group: Seq<char>, f: FileEntry, cs: Seq<TestCaseView>) -> bool {
    file_case(group, f) matches Ok(c) && cs.contains(c)
}

/// Whether every test script among `files` has its test case among `cs`.
pub open spec fn files_found(group: Seq<char>, files: Seq<FileEntry>, cs: Seq<TestCaseView>) -> bool {
    forall|m: int|
        0 <= m < files.len() && has_test_extension(files[m].name@) ==> found_in(
            group,
            #[trigger] files[m],
            cs,
        )
}

/// Whether `g`, where it is a directory, was listed and has the test case of each of
/// its test scripts among `cs`.
pub open spec fn group_found(g: GroupEntry, cs: Seq<TestCaseView>) -> bool {
    g.is_dir ==> (g.files matches Ok(fs) && files_found(g.name@, fs@, cs))
}

proof fn lemma_files_found_grow(
    group: Seq<char>,
    files: Seq<FileEntry>,
    a: Seq<TestCaseView>,
    b: Seq<TestCaseView>,
)
    requires
        files_found(group, files, a),
        forall|x: TestCaseView| a.contains(x) ==> b.contains(x),
    ensures
        files_found(group, files, b),
{
    assert forall|m: int|
        0 <= m < files.len() && has_test_extension(files[m].name@) implies found_in(
        group,
        #[trigger] files[m],
        b,
    ) by {
        assert(found_in(group, files[m], a));
    }
}

proof fn lemma_contains_concat(a: Seq<TestCaseView>, b: Seq<TestCaseView>)
    ensures
        forall|x: TestCaseView| a.contains(x) ==> (a + b).contains(x),
        forall|x: TestCaseView| b.contains(x) ==> (a + b).contains(x),
{
    assert forall|x: TestCaseView| a.contains(x) implies (a + b).contains(x) by {
        let k = choose|k: int| 0 <= k < a.len() && a[k] == x;
        assert((a + b)[k] == x);
    }
    assert forall|x: TestCaseView| b.contains(x) implies (a + b).contains(x) by {
        let k = choose|k: int| 0 <= k < b.len() && b[k] == x;
        assert((a + b)[a.len() + k] == x);
    }
}

proof fn lemma_files_complete(group: Seq<char>, files: Seq<FileEntry>)
    ensures
        files_cases(group, files) matches Ok(cs) ==> files_found(group, files, cs),
    decreases files.len(),
{
    if files.len() > 0 {
        let rest = files.drop_first();
        lemma_files_complete(group, rest);
        if let Ok(cs) = files_cases(group, files) {
            let rcs = files_cases(group, rest)->Ok_0;
            let pre = if has_test_extension(files[0].name@) {
                seq![file_case(group, files[0])->Ok_0]
            } else {
                seq![]
            };
            assert(cs == pre + rcs);
            lemma_contains_concat(pre, rcs);
            lemma_files_found_grow(group, rest, rcs, cs);
            assert forall|m: int|
                0 <= m < files.len() && has_test_extension(files[m].name@) implies found_in(
                group,
                #[trigger] files[m],
                cs,
            ) by {
                if m == 0 {
                    assert(pre[0] == file_case(group, files[0])->Ok_0);
                    assert(pre.contains(pre[0]));
                } else {
                    assert(files[m] == rest[m - 1]);
                }
            }
        }
    }
}

proof fn lemma_files_found_unsorted(group: Seq<char>, fs: Seq<FileEntry>, cs: Seq<TestCaseView>)
    requires
        files_found(group, files_by_path(fs), cs),
    ensures
        files_found(group, fs, cs),
{
    let o = order::sorted_indices(file_paths(fs));
    let sorted = files_by_path(fs);
    order::law_sorted_indices(file_paths(fs));
    assert forall|m: int|
        0 <= m < fs.len() && has_test_extension(fs[m].name@) implies found_in(
        group,
        #[trigger] fs[m],
        cs,
    ) by {
        assert(o.contains(m));
        let q = choose|q: int| 0 <= q < o.len() && o[q] == m;
        assert(sorted[q] == fs[m]);
    }
}

proof fn lemma_groups_complete(groups: Seq<GroupEntry>)
    ensures
        groups_cases(groups) matches Ok(cs) ==> forall|m: int|
            0 <= m < groups.len() ==> group_found(#[trigger] groups[m], cs),
    decreases groups.len(),
{
    if groups.len() > 0 {
        let rest = groups.drop_first();
        lemma_groups_complete(rest);
        if let Ok(cs) = groups_cases(groups) {
            let rcs = groups_cases(rest)->Ok_0;
            let g = groups[0];
            let pre = if g.is_dir {
                files_cases(g.name@, files_by_path(g.files->Ok_0@))->Ok_0
            } else {
                seq![]
            };
            assert(cs == pre + rcs);
            lemma_contains_concat(pre, rcs);
            if g.is_dir {
                let fs = g.files->Ok_0@;
                lemma_files_complete(g.name@, files_by_path(fs));
                lemma_files_found_unsorted(g.name@, fs, pre);
                lemma_files_found_grow(g.name@, fs, pre, cs);
            }
            assert forall|m: int| 0 <= m < groups.len() implies group_found(
                #[trigger] groups[m],
                cs,
            ) by {
                if m > 0 {
                    assert(groups[m] == rest[m - 1]);
                    assert(group_found(rest[m - 1], rcs));
                    if groups[m].is_dir {
                        lemma_files_found_grow(
                            groups[m].name@,
                            groups[m].files->Ok_0@,
                            rcs,
                            cs,
                        );
                    }
                }
            }
        }
    }
}

/// Law: when discovery succeeds, every test script (a file with extension `t`) of every
/// directory of the listing has a description, and its test case is among the
/// discovered ones.
pub proof fn law_every_script_discovered(root: Result<Vec<GroupEntry>, String>)
    ensures
        discovery(root) matches Ok(cs) ==> (root matches Ok(gs) && forall|i: int|
            0 <= i < gs@.len() ==> group_found(#[trigger] gs@[i], cs)),
{
    if let Ok(gs) = root {
        let sorted = groups_by_path(gs@);
        let o = order::sorted_indices(group_paths(gs@));
        order::law_sorted_indices(group_paths(gs@));
        lemma_groups_complete(sorted);
        if let Ok(cs) = discovery(root) {
            assert forall|i: int| 0 <= i < gs@.len() implies group_found(#[trigger] gs@[i], cs) by {
                assert(o.contains(i));
                let q = choose|q: int| 0 <= q < o.len() && o[q] == i;
                assert(sorted[q] == gs@[i]);
            }
        }
    }
}

} // verus!
