use crap_analyzer::cargo::cli::{parse_args, Action, ThresholdCheck};
use crap_analyzer::cargo::complexity::{cfg_is_test_only, qualified_name, CfgMeta};
use crap_analyzer::cargo::coverage::parse_lcov_text;
use crap_analyzer::cargo::error::{parse_warning, Error};
use crap_analyzer::cargo::workspace::{targets_from_packages, Package};
use crap_analyzer::coverage::FileCoverage;

fn word(w: &str) -> CfgMeta {
    CfgMeta::Path(Some(w.to_owned()))
}

fn list(name: &str, items: Vec<CfgMeta>) -> CfgMeta {
    CfgMeta::List(Some(name.to_owned()), items)
}

#[test]
fn qualified_name_uses_prefix_when_present() {
    assert_eq!(qualified_name(Some("Foo"), "bar"), "Foo::bar");
    assert_eq!(qualified_name(None, "bar"), "bar");
}

#[test]
fn cfg_test_only_rules() {
    assert!(cfg_is_test_only(&word("test")));
    assert!(!cfg_is_test_only(&word("unix")));
    assert!(cfg_is_test_only(&list("all", vec![word("test"), word("unix")])));
    assert!(!cfg_is_test_only(&list("all", vec![word("unix")])));
    assert!(cfg_is_test_only(&list("any", vec![word("test")])));
    assert!(!cfg_is_test_only(&list("any", vec![word("test"), word("unix")])));
    assert!(!cfg_is_test_only(&list("any", vec![])));
    assert!(cfg_is_test_only(&list("any", vec![list("all", vec![word("test")])])));
    assert!(!cfg_is_test_only(&list("not", vec![word("test")])));
    assert!(!cfg_is_test_only(&CfgMeta::Other));
    assert!(!cfg_is_test_only(&CfgMeta::Path(None)));
}

fn parse(text: &str) -> Vec<(String, FileCoverage)> {
    parse_lcov_text(text)
}

fn hits(files: &[(String, FileCoverage)], path: &str, line: u32) -> Option<u64> {
    files.iter().find(|(p, _)| p == path).and_then(|(_, c)| c.get(line))
}

#[test]
fn coverage_reads_hit_counts_for_one_file() {
    let files = parse("TN:\nSF:src/foo.rs\nDA:10,3\nDA:11,0\nend_of_record\n");
    assert_eq!(hits(&files, "src/foo.rs", 10), Some(3));
    assert_eq!(hits(&files, "src/foo.rs", 11), Some(0));
}

#[test]
fn coverage_sums_duplicate_line_records() {
    let files = parse("SF:src/foo.rs\nDA:10,2\nDA:10,3\nend_of_record\n");
    assert_eq!(hits(&files, "src/foo.rs", 10), Some(5));
}

#[test]
fn coverage_isolates_source_files() {
    let files = parse("SF:src/a.rs\nDA:1,1\nend_of_record\nSF:src/b.rs\nDA:2,4\nend_of_record\n");
    assert_eq!(hits(&files, "src/a.rs", 1), Some(1));
    assert_eq!(hits(&files, "src/b.rs", 2), Some(4));
    assert_eq!(hits(&files, "src/b.rs", 1), None);
}

#[test]
fn coverage_stray_da_after_end_is_dropped() {
    let files = parse("SF:src/a.rs\nDA:1,1\nend_of_record\nDA:99,99\nSF:src/b.rs\nDA:2,4\nend_of_record\n");
    assert_eq!(hits(&files, "src/a.rs", 99), None);
}

#[test]
fn coverage_unknown_records_are_ignored() {
    let files = parse("VER:2\nSF:src/foo.rs\nDA:10,3\nFNL:0,1\nend_of_record\n");
    assert_eq!(hits(&files, "src/foo.rs", 10), Some(3));
}

#[test]
fn lenient_lcov_keeps_files_and_passes_over_bad_records() {
    let files = parse("SF:src\\win.rs\nDA:x,1\nDA:2,3,extra\nend_of_record\nSF:empty.rs\nend_of_record\n");
    assert_eq!(files.len(), 2);
    assert_eq!(files[0].0, "src\\win.rs");
    assert_eq!(hits(&files, "src\\win.rs", 2), Some(3));
    assert_eq!(files[1].1.line_count(), 0);
}

#[test]
fn targets_and_warnings_for_members() {
    let packages = vec![
        Package { name: "core".into(), root: "/ws".into() },
        Package { name: "inner".into(), root: "/ws/inner".into() },
    ];
    let targets = targets_from_packages(&packages);
    assert_eq!(targets.len(), 2);
    assert_eq!(targets[0].crate_name.as_deref(), Some("core"));
    assert_eq!(targets[0].skip, vec!["/ws/inner".to_owned()]);
    assert!(targets[1].skip.is_empty());
    let w = parse_warning("src/bad.rs", &Error::Parse("src/bad.rs: expected `;`".into()));
    assert_eq!(w, "skipping src/bad.rs: src/bad.rs: expected `;`");
    let raw: Vec<String> = ["cargo-crap", "--lcov", "x", "-p", "a"].iter().map(|s| (*s).to_owned()).collect();
    let checks = vec![ThresholdCheck::Unparsable; raw.len()];
    match parse_args(raw, &checks) {
        Ok(Action::Run(args)) => assert!(args.uses_packages()),
        _ => panic!("expected a run"),
    }
}

#[test]
fn frontend_errors_read_as_messages() {
    assert_eq!(Error::Metadata("boom".into()).to_string(), "cargo metadata: boom");
    assert_eq!(Error::UnknownPackage("core".into()).to_string(), "unknown package `core`");
    assert_eq!(Error::usage("bad flag").to_string(), "bad flag");
    assert_eq!(Error::io("lcov.info", std::io::Error::other("gone")).to_string(), "lcov.info: gone");
    assert!(Error::io("x", std::io::Error::other("e")).source().is_some());
    assert!(Error::Parse("p".into()).source().is_none());
}
