use runner::test_case::{
    discover, extract_desc, file_stem, is_test_file, FileEntry, GroupEntry, RunError, TestCase,
};

fn script(dir: &str, name: &str, contents: Option<Result<&str, &str>>) -> FileEntry {
    FileEntry {
        name: name.to_string(),
        path: format!("{}/{}", dir, name),
        contents: contents.map(|r| r.map(|s| s.to_string()).map_err(|s| s.to_string())),
    }
}

fn group(root: &str, name: &str, files: Vec<FileEntry>) -> GroupEntry {
    GroupEntry {
        name: name.to_string(),
        path: format!("{}/{}", root, name),
        is_dir: true,
        files: Ok(files),
    }
}

fn plain_file(root: &str, name: &str) -> GroupEntry {
    GroupEntry {
        name: name.to_string(),
        path: format!("{}/{}", root, name),
        is_dir: false,
        files: Ok(Vec::new()),
    }
}

fn line(root: &str, case: &TestCase) -> String {
    let rel = case.path.strip_prefix(&format!("{}/", root)).unwrap_or(&case.path);
    format!("{}\t{}\t{}\t{}", case.group, rel, case.name, case.desc)
}

#[test]
fn discovers_test_cases() {
    let root = "/w/test_scenarious";
    let listing = Ok(vec![
        group(
            root,
            "open",
            vec![
                script(&format!("{}/open", root), "02.t", Some(Ok("#!/bin/sh\ndesc=\"open returns ENOENT\"\n"))),
                script(&format!("{}/open", root), "01.t", Some(Ok("desc='open creates a file' # note\n"))),
                script(&format!("{}/open", root), "README", None),
            ],
        ),
        plain_file(root, "notes.txt"),
        group(
            root,
            "chmod",
            vec![script(&format!("{}/chmod", root), "00.t", Some(Ok("echo hi\ndesc=chmod changes the mode # more\n")))],
        ),
    ]);
    let cases = discover(&listing).expect("discover test cases");
    let snapshot = cases.iter().map(|c| line(root, c)).collect::<Vec<_>>().join("\n");
    assert_eq!(
        snapshot,
        "chmod\tchmod/00.t\t00\tchmod changes the mode\n\
         open\topen/01.t\t01\topen creates a file\n\
         open\topen/02.t\t02\topen returns ENOENT"
    );
}

#[test]
fn discover_reports_a_listing_error() {
    let listing: Result<Vec<GroupEntry>, String> = Err("permission denied".to_string());
    assert_eq!(
        discover(&listing),
        Err(RunError::Read { message: "permission denied".to_string() })
    );
}

#[test]
fn discover_reports_the_first_group_error_in_path_order() {
    let root = "/r";
    let listing = Ok(vec![
        GroupEntry {
            name: "b".to_string(),
            path: "/r/b".to_string(),
            is_dir: true,
            files: Err("cannot list b".to_string()),
        },
        group(root, "a", vec![script("/r/a", "x.t", Some(Ok("no description here\n")))]),
    ]);
    assert_eq!(
        discover(&listing),
        Err(RunError::MissingDesc { path: "/r/a/x.t".to_string() })
    );
}

#[test]
fn discover_reports_a_read_error() {
    let listing = Ok(vec![group("/r", "a", vec![script("/r/a", "x.t", Some(Err("is a directory")))])]);
    assert_eq!(discover(&listing), Err(RunError::Read { message: "is a directory".to_string() }));
}

#[test]
fn discover_of_an_empty_directory() {
    let listing: Result<Vec<GroupEntry>, String> = Ok(Vec::new());
    assert_eq!(discover(&listing), Ok(Vec::new()));
}

#[test]
fn desc_forms() {
    assert_eq!(extract_desc("p", "desc=\"quoted\"\n"), Ok("quoted".to_string()));
    assert_eq!(extract_desc("p", "desc='single'\n"), Ok("single".to_string()));
    assert_eq!(extract_desc("p", "desc=  bare words  # comment\n"), Ok("bare words".to_string()));
    assert_eq!(extract_desc("p", "x\ndesc=\"spans\ntwo lines\"\n"), Ok("spans\ntwo lines".to_string()));
    assert_eq!(extract_desc("p", "desc=\"unclosed\n"), Ok("\"unclosed".to_string()));
    assert_eq!(extract_desc("p", "desc=#\ndesc=second\n"), Ok("second".to_string()));
    assert_eq!(extract_desc("p", "desc=\r\ndesc=third\r\n"), Ok("third".to_string()));
    assert_eq!(extract_desc("p", " desc=indented\n"), Err(RunError::MissingDesc { path: "p".to_string() }));
    assert_eq!(extract_desc("p", "xdesc=no\n"), Err(RunError::MissingDesc { path: "p".to_string() }));
    assert_eq!(extract_desc("p", ""), Err(RunError::MissingDesc { path: "p".to_string() }));
    assert_eq!(extract_desc("p", "desc=\"  padded  \""), Ok("padded".to_string()));
    assert_eq!(extract_desc("p", "desc=\"\""), Ok(String::new()));
}

#[test]
fn test_file_names() {
    assert!(is_test_file("00.t"));
    assert!(is_test_file("a.b.t"));
    assert!(is_test_file("..t"));
    assert!(!is_test_file(".t"));
    assert!(!is_test_file("t"));
    assert!(!is_test_file("a.tt"));
    assert!(!is_test_file("a.t.sh"));
    assert!(!is_test_file(".."));
    assert_eq!(file_stem("00.t"), "00");
    assert_eq!(file_stem("a.b.t"), "a.b");
    assert_eq!(file_stem(".t"), ".t");
    assert_eq!(file_stem("..t"), ".");
    assert_eq!(file_stem("plain"), "plain");
}

#[test]
fn test_file_names_agree_with_std_path() {
    for name in ["00.t", "a.b.t", "..t", ".t", "t", "a.tt", "x.", ".hidden.t", "...", "a..t"] {
        let p = std::path::Path::new(name);
        assert_eq!(is_test_file(name), p.extension().map_or(false, |e| e == "t"), "{}", name);
        assert_eq!(file_stem(name), p.file_stem().unwrap().to_string_lossy(), "{}", name);
    }
}
