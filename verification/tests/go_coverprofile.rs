use crap_analyzer::coverage::FileCoverage;
use crap_analyzer::error::Error;
use crap_analyzer::go::coverprofile::{parse_profile_text, parse_reader, remap_import_paths, remap_import_paths_all};

fn parse(body: &str) -> Result<Vec<(String, FileCoverage)>, Error> {
    parse_profile_text(body, "cover.out")
}

fn file<'a>(files: &'a [(String, FileCoverage)], path: &str) -> Option<&'a FileCoverage> {
    files.iter().find(|(p, _)| p == path).map(|(_, c)| c)
}

fn coverage_message(r: Result<Vec<(String, FileCoverage)>, Error>) -> String {
    match r {
        Err(Error::Coverage(m)) => m,
        _ => String::new(),
    }
}

fn file_hits(line: u32, hits: u64) -> FileCoverage {
    FileCoverage::from_pairs(&[(line, hits)])
}

fn has_key(files: &[(String, FileCoverage)], path: &str) -> bool {
    files.iter().any(|(p, _)| p == path)
}

#[test]
fn set_mode_caps_hits_at_one() {
    let files = parse("mode: set\nmain.go:1.1,3.2 2 5\nmain.go:4.1,4.2 1 0\n").unwrap_or_default();
    let cov = file(&files, "main.go").cloned().unwrap_or_else(FileCoverage::new);
    assert_eq!(cov.get(1), Some(1));
    assert_eq!(cov.get(2), Some(1));
    assert_eq!(cov.get(3), Some(1));
    assert_eq!(cov.get(4), Some(0));
}

#[test]
fn count_mode_adds_hits() {
    let files = parse("mode: count\na.go:1.1,2.1 1 2\na.go:2.1,2.2 1 3\n").unwrap_or_default();
    let cov = file(&files, "a.go").cloned().unwrap_or_else(FileCoverage::new);
    assert_eq!(cov.get(1), Some(2));
    assert_eq!(cov.get(2), Some(5));
}

#[test]
fn shared_line_zero_hit_block_is_pessimistic() {
    let files = parse("mode: set\nmain.go:10.1,10.8 1 1\nmain.go:10.10,10.14 1 0\n").unwrap_or_default();
    let cov = file(&files, "main.go").cloned().unwrap_or_else(FileCoverage::new);
    assert_eq!(cov.get(10), Some(0));
}

#[test]
fn empty_profile_is_rejected() {
    assert_eq!(coverage_message(parse("mode: set\n")), "cover.out: coverprofile has no data lines");
}

#[test]
fn truly_empty_file_is_rejected() {
    assert_eq!(coverage_message(parse("")), "cover.out: coverprofile is empty");
}

#[test]
fn missing_mode_line_is_rejected() {
    assert_eq!(coverage_message(parse("main.go:1.1,1.2 1 1\n")), "cover.out: missing coverprofile mode line");
}

#[test]
fn unknown_mode_is_rejected() {
    assert_eq!(
        coverage_message(parse("mode: weird\nmain.go:1.1,1.2 1 1\n")),
        "cover.out: unknown coverprofile mode `weird`"
    );
}

#[test]
fn blank_data_lines_are_skipped() {
    let files = parse("mode: set\n\nmain.go:1.1,1.2 1 1\n\n").unwrap_or_default();
    assert_eq!(file(&files, "main.go").and_then(|c| c.get(1)), Some(1));
}

#[test]
fn multi_file_profile() {
    let files = parse("mode: atomic\npkg/a.go:1.1,1.2 1 1\npkg/b.go:2.1,2.2 1 0\n").unwrap_or_default();
    assert_eq!(files.len(), 2);
    assert_eq!(file(&files, "pkg/a.go").and_then(|c| c.get(1)), Some(1));
    assert_eq!(file(&files, "pkg/b.go").and_then(|c| c.get(2)), Some(0));
}

#[test]
fn backslash_paths_are_normalized() {
    let files = parse("mode: set\npkg\\a.go:1.1,1.2 1 1\n").unwrap_or_default();
    assert!(has_key(&files, "pkg/a.go"));
}

#[test]
fn malformed_data_lines_are_rejected() {
    let cases = [
        "mode: set\njust-one-token\n",
        "mode: set\ntwo tokens\n",
        "mode: set\nfile-no-colon 1 1\n",
        "mode: set\nfile.go:nospan 1 1\n",
        "mode: set\nfile.go:1,2.3 1 1\n",
        "mode: set\nfile.go:1.2,3 1 1\n",
        "mode: set\nfile.go:x.1,2.3 1 1\n",
        "mode: set\nfile.go:1.1,y.2 1 1\n",
        "mode: set\nfile.go:1.1,2.2 bad 1\n",
        "mode: set\nfile.go:1.1,2.2 1 bad\n",
        "mode: set\nfile.go:0.1,2.2 1 1\n",
        "mode: set\nfile.go:3.1,2.2 1 1\n",
    ];
    for body in cases {
        assert!(matches!(parse(body), Err(Error::Coverage(_))), "{body}");
    }
    assert_eq!(
        coverage_message(parse("mode: set\n  two tokens  \n")),
        "cover.out: malformed coverprofile line: two tokens"
    );
}

#[test]
fn oversized_spans_are_rejected() {
    assert!(parse("mode: set\nbig.go:1.1,1000000.1 1 1\n").is_ok());
    assert!(matches!(parse("mode: set\nbig.go:1.1,1000001.1 1 1\n"), Err(Error::Coverage(_))));
}

#[test]
fn count_mode_saturates_and_paths_merge_by_component() {
    let files = parse("mode: count\na//b.go:1.1,1.2 1 18446744073709551615\na/b.go:1.1,1.2 1 5\n").unwrap_or_default();
    assert_eq!(files.len(), 1);
    assert_eq!(files[0].0, "a//b.go");
    assert_eq!(files[0].1.get(1), Some(u64::MAX));
}

#[test]
fn unreadable_lines_are_io_errors() {
    let lines = vec![Ok("mode: set".to_owned()), Err(std::io::Error::other("boom")), Ok("bad".to_owned())];
    match parse_reader(lines, "p.out") {
        Err(Error::Io { path, source }) => {
            assert_eq!(path, "p.out");
            assert_eq!(source.to_string(), "boom");
        }
        _ => panic!("expected an I/O error"),
    }
    let first = vec![Err(std::io::Error::other("first"))];
    assert!(matches!(parse_reader(first, "p.out"), Err(Error::Io { .. })));
    let malformed_first = vec![Ok("mode: set".to_owned()), Ok("bad".to_owned()), Err(std::io::Error::other("x"))];
    assert!(matches!(parse_reader(malformed_first, "p.out"), Err(Error::Coverage(_))));
}

#[test]
fn remap_leaves_non_module_keys() {
    let coverage = vec![
        ("main.go".to_owned(), file_hits(1, 1)),
        ("/abs/main.go".to_owned(), file_hits(2, 3)),
        ("example.com/other/x.go".to_owned(), file_hits(4, 1)),
    ];
    let remapped = remap_import_paths(&coverage, "/proj", "example.com/demo");
    assert!(has_key(&remapped, "main.go"));
    assert!(has_key(&remapped, "/abs/main.go"));
    assert!(has_key(&remapped, "example.com/other/x.go"));
}

#[test]
fn remap_respects_module_prefix_boundary() {
    let coverage = vec![("example.com/foobar/x.go".to_owned(), file_hits(1, 1))];
    let remapped = remap_import_paths(&coverage, "/proj", "example.com/foo");
    assert!(has_key(&remapped, "example.com/foobar/x.go"));
    assert!(!has_key(&remapped, "/proj/bar/x.go"));
}

#[test]
fn remap_rewrites_import_path_keys() {
    let coverage = vec![("example.com/demo/pkg/a.go".to_owned(), file_hits(1, 1))];
    let remapped = remap_import_paths(&coverage, "/proj", "example.com/demo");
    assert_eq!(file(&remapped, "/proj/pkg/a.go").and_then(|c| c.get(1)), Some(1));
}

#[test]
fn remap_merges_when_keys_collapse() {
    let coverage = vec![
        ("example.com/demo/a.go".to_owned(), file_hits(1, 1)),
        ("/proj/a.go".to_owned(), file_hits(2, 2)),
    ];
    let remapped = remap_import_paths(&coverage, "/proj", "example.com/demo");
    assert_eq!(remapped.len(), 1);
    let cov = file(&remapped, "/proj/a.go").cloned().unwrap_or_else(FileCoverage::new);
    assert_eq!(cov.get(1), Some(1));
    assert_eq!(cov.get(2), Some(2));
}

#[test]
fn remap_all_prefers_longest_module_prefix() {
    let coverage = vec![
        ("example.com/demo/nested/x.go".to_owned(), file_hits(1, 1)),
        ("example.com/demo/main.go".to_owned(), file_hits(1, 1)),
    ];
    let modules = vec![
        ("/mod".to_owned(), "example.com/demo".to_owned()),
        ("/mod/nested".to_owned(), "example.com/demo/nested".to_owned()),
    ];
    let remapped = remap_import_paths_all(&coverage, &modules);
    assert!(has_key(&remapped, "/mod/nested/x.go"));
    assert!(has_key(&remapped, "/mod/main.go"));
    assert!(!has_key(&remapped, "example.com/demo/nested/x.go"));
}
