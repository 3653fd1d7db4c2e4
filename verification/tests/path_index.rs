use crap_analyzer::coverage::FileCoverage;
use crap_analyzer::path::components;
use crap_analyzer::path_index::{Lookup, PathIndex};

fn file(hits: u64) -> FileCoverage {
    FileCoverage::from_pairs(&[(1, hits)])
}

fn index_of(entries: &[(&str, u64)]) -> PathIndex {
    let coverage: Vec<(String, FileCoverage)> = entries
        .iter()
        .map(|(path, hits)| ((*path).to_owned(), file(*hits)))
        .collect();
    PathIndex::from_coverage(&coverage)
}

fn lookup(index: &PathIndex, path: &str, name: Option<&str>) -> Lookup {
    index.lookup(&components(path), name)
}

fn hit_line(index: &PathIndex, found: Lookup) -> Option<u64> {
    match found {
        Lookup::Found(k) => index.coverage_at(k).get(1),
        Lookup::Ambiguous | Lookup::Missing => None,
    }
}

#[test]
fn hit_line_is_none_for_ambiguous_and_missing() {
    let index = index_of(&[("src/foo.rs", 1)]);
    assert_eq!(hit_line(&index, Lookup::Ambiguous), None);
    assert_eq!(hit_line(&index, Lookup::Missing), None);
}

#[test]
fn slash_only_package_name_does_not_augment() {
    let index = index_of(&[("src/foo.rs", 1)]);
    assert_eq!(
        hit_line(&index, lookup(&index, "src/foo.rs", Some("///"))),
        Some(1)
    );
}

#[test]
fn path_index_tests_empty_coverage_path_components_are_skipped() {
    let index = index_of(&[("foo/..", 1), ("src/foo.rs", 2)]);
    assert_eq!(hit_line(&index, lookup(&index, "src/foo.rs", None)), Some(2));
}

#[test]
fn empty_package_segments_cannot_break_a_tie() {
    let index = index_of(&[("/a/src/lib.rs", 1), ("/b/src/lib.rs", 99)]);
    assert!(matches!(
        lookup(&index, "src/lib.rs", Some("///")),
        Lookup::Ambiguous
    ));
}

#[test]
fn lookup_only_considers_the_same_basename() {
    let index = index_of(&[("src/foo.rs", 1), ("src/bar.rs", 99)]);
    assert_eq!(
        hit_line(&index, lookup(&index, "/proj/src/foo.rs", None)),
        Some(1)
    );
    assert!(matches!(
        lookup(&index, "/proj/src/missing.rs", None),
        Lookup::Missing
    ));
    assert!(matches!(lookup(&index, "", None), Lookup::Missing));
}

#[test]
fn two_crate_named_suffixes_are_ambiguous() {
    let index = index_of(&[("/ws/demo/src/lib.rs", 1), ("/other/demo/src/lib.rs", 99)]);
    assert!(matches!(
        lookup(&index, "src/lib.rs", Some("demo")),
        Lookup::Ambiguous
    ));
}

#[test]
fn package_augmented_rank_breaks_equal_suffix_tie() {
    let index = index_of(&[
        ("/packages/pkg_a/src/util.ts", 1),
        ("/packages/pkg_b/src/util.ts", 99),
    ]);
    assert_eq!(
        hit_line(&index, lookup(&index, "src/util.ts", Some("pkg_a"))),
        Some(1)
    );
}

#[test]
fn path_index_tests_package_component_breaks_root_file_tie() {
    let index = index_of(&[("/packages/pkg_a/util.ts", 1), ("/packages/pkg_b/util.ts", 99)]);
    assert_eq!(
        hit_line(&index, lookup(&index, "util.ts", Some("pkg_a"))),
        Some(1)
    );
}

#[test]
fn package_component_breaks_lib_layout_tie() {
    let index = index_of(&[
        ("/packages/pkg_a/lib/util.ts", 1),
        ("/packages/pkg_b/lib/util.ts", 99),
    ]);
    assert_eq!(
        hit_line(&index, lookup(&index, "lib/util.ts", Some("pkg_a"))),
        Some(1)
    );
}

#[test]
fn scoped_package_last_segment_breaks_tie() {
    let index = index_of(&[("/packages/a/src/util.ts", 1), ("/packages/b/src/util.ts", 99)]);
    assert_eq!(
        hit_line(&index, lookup(&index, "src/util.ts", Some("@scope/a"))),
        Some(1)
    );
}

#[test]
fn import_path_breaks_remapped_filesystem_tie() {
    let index = index_of(&[("/mod/pkg_a/foo.go", 1), ("/mod/pkg_b/foo.go", 99)]);
    assert_eq!(
        hit_line(&index, lookup(&index, "foo.go", Some("example.com/mod/pkg_a"))),
        Some(1)
    );
}

#[test]
fn import_path_matches_unremapped_coverprofile_keys() {
    let index = index_of(&[
        ("example.com/mod/pkg_a/foo.go", 1),
        ("example.com/mod/pkg_b/foo.go", 99),
    ]);
    assert_eq!(
        hit_line(&index, lookup(&index, "foo.go", Some("example.com/mod/pkg_a"))),
        Some(1)
    );
}

#[test]
fn shared_import_path_last_segment_stays_ambiguous() {
    let index = index_of(&[("/a/util/foo.go", 1), ("/b/util/foo.go", 99)]);
    assert!(matches!(
        lookup(&index, "foo.go", Some("example.com/x/util")),
        Lookup::Ambiguous
    ));
}

#[test]
fn longest_suffix_wins_over_a_shorter_one() {
    let index = index_of(&[("src/foo.rs", 1), ("foo.rs", 9)]);
    assert_eq!(
        hit_line(&index, lookup(&index, "proj/src/foo.rs", None)),
        Some(1)
    );
}

#[test]
fn apply_rank_ignores_a_worse_suffix() {
    let index = index_of(&[("src/foo.rs", 1), ("foo.rs", 9)]);
    let found = lookup(&index, "proj/src/foo.rs", None);
    assert!(matches!(found, Lookup::Found(_)));
    assert_eq!(hit_line(&index, found), Some(1));
}

#[test]
fn dedupe_winners_skips_duplicate_parts() {
    let index = index_of(&[("src/foo.rs", 1), ("src/foo.rs", 0), ("other/foo.rs", 9)]);
    assert_eq!(index.len(), 2);
    let found = lookup(&index, "src/foo.rs", None);
    assert_eq!(hit_line(&index, found), Some(1));
    assert!(matches!(lookup(&index, "foo.rs", None), Lookup::Ambiguous));
}
