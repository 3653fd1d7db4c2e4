use crap_analyzer::coverage::FileCoverage;
use crap_analyzer::lcov::{lcov_from_text, parse_lcov_text};

fn reject(text: &str) -> bool {
    match parse_lcov_text(text) {
        Ok((_, 0)) | Err(_) => true,
        Ok((_, _)) => false,
    }
}

fn parse(text: &str) -> Vec<(String, FileCoverage)> {
    let parsed = parse_lcov_text(text);
    assert!(parsed.is_ok(), "{parsed:?}");
    parsed.map(|(files, _)| files).unwrap_or_default()
}

fn file<'a>(files: &'a [(String, FileCoverage)], path: &str) -> Option<&'a FileCoverage> {
    files.iter().find(|(p, _)| p == path).map(|(_, f)| f)
}

#[test]
fn malformed_da_is_rejected_even_with_valid_records() {
    assert!(reject("SF:src/foo.rs\nDA:not-a-number\nDA:10,1\nend_of_record\n"));
    assert!(reject("SF:src/foo.rs\nDA:10\nend_of_record\n"));
}

#[test]
fn empty_or_garbage_lcov_has_no_da() {
    assert!(reject(""));
    assert!(reject("not lcov at all\n"));
    assert!(reject("SF:src/foo.rs\nend_of_record\n"));
}

#[test]
fn sparse_sf_without_da_is_omitted() {
    let parsed = parse_lcov_text(
        "SF:generated.rs\nend_of_record\n\
         SF:src/lib.rs\nDA:10,1\nend_of_record\n",
    );
    assert!(parsed.is_ok(), "{parsed:?}");
    let (map, valid_da) = parsed.unwrap_or_else(|_| (Vec::new(), 0));
    assert_eq!(valid_da, 1);
    assert!(file(&map, "generated.rs").is_none());
    assert_eq!(file(&map, "src/lib.rs").and_then(|f| f.get(10)), Some(1));
}

#[test]
fn reads_hit_counts_for_one_file() {
    let map = parse("TN:\nSF:src/foo.rs\nDA:10,3\nDA:11,0\nend_of_record\n");
    let cov = file(&map, "src/foo.rs").unwrap();
    assert_eq!(cov.get(10), Some(3));
    assert_eq!(cov.get(11), Some(0));
}

#[test]
fn sums_duplicate_line_records() {
    let map = parse("SF:src/foo.rs\nDA:10,2\nDA:10,3\nend_of_record\n");
    assert_eq!(file(&map, "src/foo.rs").unwrap().get(10), Some(5));
}

#[test]
fn stray_da_after_end_is_dropped() {
    let map = parse(
        "SF:src/a.rs\nDA:1,1\nend_of_record\n\
         DA:99,99\n\
         SF:src/b.rs\nDA:2,4\nend_of_record\n",
    );
    assert_eq!(file(&map, "src/a.rs").unwrap().get(99), None);
    assert_eq!(file(&map, "src/b.rs").unwrap().get(2), Some(4));
}

#[test]
fn backslash_sf_paths_are_normalized() {
    let map = parse("SF:src\\foo.rs\nDA:10,1\nend_of_record\n");
    assert_eq!(file(&map, "src/foo.rs").unwrap().get(10), Some(1));
}

#[test]
fn same_path_written_twice_is_one_file() {
    let map = parse("SF:src/foo.rs\nDA:1,1\nend_of_record\nSF:src//foo.rs\nDA:1,2\nend_of_record\n");
    assert_eq!(map.len(), 1);
    assert_eq!(map[0].1.get(1), Some(3));
}

#[test]
fn crlf_records_are_read() {
    let map = parse("SF:src/foo.rs\r\nDA:7,2\r\nend_of_record\r\n");
    assert_eq!(file(&map, "src/foo.rs").unwrap().get(7), Some(2));
}

#[test]
fn malformed_record_message_names_origin_and_line() {
    let err = parse_lcov_text("SF:a.rs\nDA:x\n").unwrap_err();
    assert_eq!(err.to_string(), "<text>: malformed DA record: DA:x");
}

#[test]
fn lcov_without_da_is_an_error() {
    let err = lcov_from_text("SF:a.rs\nend_of_record\n", "lcov.info").unwrap_err();
    assert_eq!(err.to_string(), "lcov.info: LCOV has no valid line-hit (DA) records");
    assert!(lcov_from_text("SF:a.rs\nDA:1,1\n", "lcov.info").is_ok());
}

#[test]
fn overflowing_line_number_is_malformed() {
    assert!(parse_lcov_text("SF:a.rs\nDA:4294967296,1\n").is_err());
    assert!(parse_lcov_text("SF:a.rs\nDA:+4294967295,1\n").is_ok());
}
