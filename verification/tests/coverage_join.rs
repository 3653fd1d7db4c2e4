use crap_analyzer::coverage::{FileCoverage, LineRatio};
use crap_analyzer::merge::{
    ambiguous_join_count, ambiguous_join_warning, join, CoverageJoin, FunctionComplexity, JoinedFn, LocatedFn,
    MissingPolicy,
};
use crap_analyzer::path_index::PathIndex;

fn func_join(
    file: &str,
    name: &str,
    start: usize,
    end: usize,
    crate_name: Option<&str>,
    join_key: Option<&str>,
) -> LocatedFn {
    LocatedFn {
        function: FunctionComplexity {
            file: file.to_owned(),
            name: name.to_owned(),
            start_line: start,
            end_line: end,
            complexity: 1,
        },
        crate_name: crate_name.map(str::to_owned),
        join_key: join_key.map(str::to_owned),
    }
}

fn func_in(file: &str, name: &str, start: usize, end: usize, crate_name: Option<&str>) -> LocatedFn {
    func_join(file, name, start, end, crate_name, None)
}

fn func(file: &str, name: &str, start: usize, end: usize) -> LocatedFn {
    func_in(file, name, start, end, None)
}

/// A coverage index over the given files and their line hits.
fn cov(files: &[(&str, &[(u32, u64)])]) -> PathIndex {
    let coverage: Vec<(String, FileCoverage)> = files
        .iter()
        .map(|(path, lines)| ((*path).to_owned(), FileCoverage::from_pairs(lines)))
        .collect();
    PathIndex::from_coverage(&coverage)
}

fn no_coverage() -> PathIndex {
    cov(&[])
}

/// The coverage percentage the report shows for a ratio.
fn percent(ratio: LineRatio) -> f64 {
    ratio.covered as f64 * 100.0 / ratio.total as f64
}

fn assert_percent(entry: &JoinedFn, want: f64) {
    assert_eq!(percent(entry.coverage).to_bits(), want.to_bits());
}

fn named(rows: &[JoinedFn], name: &str) -> Option<f64> {
    rows.iter().find(|e| e.function.name == name).map(|e| percent(e.coverage))
}

// Path ranking between a source file and the coverage keys.

#[test]
fn join_tests_relative_lcov_suffix_matches_absolute_source() {
    let functions = [func("/proj/src/foo.rs", "f", 10, 12)];
    let coverage = cov(&[("src/foo.rs", &[(10, 1), (11, 0), (12, 1)])]);
    let entries = join(&functions, &coverage, MissingPolicy::Pessimistic);
    assert_eq!(entries.len(), 1);
    assert!((percent(entries[0].coverage) - 2.0 * 100.0 / 3.0).abs() < 1e-9);
}

#[test]
fn join_path_tests_relative_lcov_suffix_matches_absolute_source() {
    let functions = [func("/proj/src/foo.rs", "f", 10, 12)];
    let coverage = cov(&[("src/foo.rs", &[(10, 1), (11, 0), (12, 1)])]);
    let entries = join(&functions, &coverage, MissingPolicy::Pessimistic);
    assert_eq!(entries.len(), 1);
    assert!((percent(entries[0].coverage) - 2.0 * 100.0 / 3.0).abs() < 1e-9);
}

#[test]
fn merge_relative_lcov_suffix_matches_absolute_source() {
    let functions = [func("/proj/src/foo.rs", "f", 10, 12)];
    let coverage = cov(&[("src/foo.rs", &[(10, 1), (11, 0), (12, 1)])]);
    let entries = join(&functions, &coverage, MissingPolicy::Pessimistic);
    assert_eq!(entries.len(), 1);
    assert!((percent(entries[0].coverage) - 2.0 * 100.0 / 3.0).abs() < 1e-9);
}

#[test]
fn join_tests_forward_relative_sf_beats_longer_reverse_false_friend() {
    let functions = [func("proj/src/foo.rs", "f", 1, 1)];
    let coverage = cov(&[("src/foo.rs", &[(1, 1)]), ("/unrelated/proj/src/foo.rs", &[(1, 0)])]);
    let entries = join(&functions, &coverage, MissingPolicy::Pessimistic);
    assert_percent(&entries[0], 100.0);
}

#[test]
fn join_path_tests_forward_relative_sf_beats_longer_reverse_false_friend() {
    let functions = [func("proj/src/foo.rs", "f", 1, 1)];
    let coverage = cov(&[("src/foo.rs", &[(1, 1)]), ("/unrelated/proj/src/foo.rs", &[(1, 0)])]);
    let entries = join(&functions, &coverage, MissingPolicy::Pessimistic);
    assert_percent(&entries[0], 100.0);
}

#[test]
fn join_tests_relative_sf_beats_other_proj_reverse_false_friend() {
    let functions = [func("proj/src/foo.rs", "f", 1, 1)];
    let coverage = cov(&[("src/foo.rs", &[(1, 1)]), ("other/proj/src/foo.rs", &[(1, 0)])]);
    let entries = join(&functions, &coverage, MissingPolicy::Pessimistic);
    assert_percent(&entries[0], 100.0);
}

#[test]
fn join_path_tests_relative_sf_beats_other_proj_reverse_false_friend() {
    let functions = [func("proj/src/foo.rs", "f", 1, 1)];
    let coverage = cov(&[("src/foo.rs", &[(1, 1)]), ("other/proj/src/foo.rs", &[(1, 0)])]);
    let entries = join(&functions, &coverage, MissingPolicy::Pessimistic);
    assert_percent(&entries[0], 100.0);
}

#[test]
fn join_tests_longest_suffix_wins() {
    let functions = [func("/proj/src/lib.rs", "f", 1, 1)];
    let coverage = cov(&[("src/lib.rs", &[(1, 1)]), ("vendor/dep/src/lib.rs", &[(1, 0)])]);
    let entries = join(&functions, &coverage, MissingPolicy::Pessimistic);
    assert_percent(&entries[0], 100.0);
}

#[test]
fn join_path_tests_longest_suffix_wins() {
    let functions = [func("/proj/src/lib.rs", "f", 1, 1)];
    let coverage = cov(&[("src/lib.rs", &[(1, 1)]), ("vendor/dep/src/lib.rs", &[(1, 0)])]);
    let entries = join(&functions, &coverage, MissingPolicy::Pessimistic);
    assert_percent(&entries[0], 100.0);
}

#[test]
fn merge_longest_suffix_wins() {
    let functions = [func("/proj/src/lib.rs", "f", 1, 1)];
    let coverage = cov(&[("src/lib.rs", &[(1, 1)]), ("vendor/dep/src/lib.rs", &[(1, 0)])]);
    let entries = join(&functions, &coverage, MissingPolicy::Pessimistic);
    assert_percent(&entries[0], 100.0);
}

#[test]
fn join_tests_missing_pessimistic_is_zero() {
    let functions = [func("src/gone.rs", "f", 1, 1)];
    let entries = join(&functions, &no_coverage(), MissingPolicy::Pessimistic);
    assert_percent(&entries[0], 0.0);
    assert_eq!(entries[0].coverage_join, CoverageJoin::Missing);
    assert_eq!(entries[0].function.start_line, 1);
    assert_eq!(entries[0].function.end_line, 1);
}

#[test]
fn join_path_tests_missing_pessimistic_is_zero() {
    let functions = [func("src/gone.rs", "f", 1, 1)];
    let entries = join(&functions, &no_coverage(), MissingPolicy::Pessimistic);
    assert_percent(&entries[0], 0.0);
    assert_eq!(entries[0].coverage_join, CoverageJoin::Missing);
    assert_eq!(entries[0].function.start_line, 1);
    assert_eq!(entries[0].function.end_line, 1);
}

#[test]
fn merge_missing_pessimistic_is_zero() {
    let functions = [func("src/gone.rs", "f", 1, 1)];
    let entries = join(&functions, &no_coverage(), MissingPolicy::Pessimistic);
    assert_percent(&entries[0], 0.0);
    assert_eq!(entries[0].coverage_join, CoverageJoin::Missing);
}

#[test]
fn join_tests_missing_skip_drops_the_row() {
    let functions = [func("src/gone.rs", "f", 1, 1)];
    assert!(join(&functions, &no_coverage(), MissingPolicy::Skip).is_empty());
}

#[test]
fn join_path_tests_missing_skip_drops_the_row() {
    let functions = [func("src/gone.rs", "f", 1, 1)];
    assert!(join(&functions, &no_coverage(), MissingPolicy::Skip).is_empty());
}

#[test]
fn merge_missing_skip_drops_the_row() {
    let functions = [func("src/gone.rs", "f", 1, 1)];
    assert!(join(&functions, &no_coverage(), MissingPolicy::Skip).is_empty());
}

#[test]
fn join_tests_foosrc_does_not_match_src() {
    let functions = [func("/proj/foosrc/lib.rs", "f", 1, 1)];
    let entries = join(&functions, &cov(&[("src/lib.rs", &[(1, 1)])]), MissingPolicy::Pessimistic);
    assert_percent(&entries[0], 0.0);
}

#[test]
fn join_path_tests_foosrc_does_not_match_src() {
    let functions = [func("/proj/foosrc/lib.rs", "f", 1, 1)];
    let entries = join(&functions, &cov(&[("src/lib.rs", &[(1, 1)])]), MissingPolicy::Pessimistic);
    assert_percent(&entries[0], 0.0);
}

#[test]
fn merge_foosrc_does_not_match_src() {
    let functions = [func("/proj/foosrc/lib.rs", "f", 1, 1)];
    let entries = join(&functions, &cov(&[("src/lib.rs", &[(1, 1)])]), MissingPolicy::Pessimistic);
    assert_percent(&entries[0], 0.0);
}

// Spans without instrumented lines.

#[test]
fn join_tests_empty_span_is_pessimistic_zero() {
    let functions = [func("src/foo.rs", "f", 10, 12)];
    let coverage = cov(&[("src/foo.rs", &[(1, 1), (20, 1)])]);
    let entries = join(&functions, &coverage, MissingPolicy::Pessimistic);
    assert_percent(&entries[0], 0.0);
    assert_eq!(entries[0].coverage_join, CoverageJoin::Missing);
}

#[test]
fn join_path_tests_empty_span_is_pessimistic_zero() {
    let functions = [func("src/foo.rs", "f", 10, 12)];
    let coverage = cov(&[("src/foo.rs", &[(1, 1), (20, 1)])]);
    let entries = join(&functions, &coverage, MissingPolicy::Pessimistic);
    assert_percent(&entries[0], 0.0);
    assert_eq!(entries[0].coverage_join, CoverageJoin::Missing);
}

#[test]
fn empty_span_missing_path_and_ambiguous_contrast() {
    let empty = join(
        &[func("src/foo.rs", "empty", 10, 12)],
        &cov(&[("src/foo.rs", &[(1, 1), (20, 1)])]),
        MissingPolicy::Pessimistic,
    );
    let missing = join(&[func("src/gone.rs", "gone", 1, 1)], &no_coverage(), MissingPolicy::Pessimistic);
    let tie = cov(&[("/crate_a/src/lib.rs", &[(1, 1)]), ("/crate_b/src/lib.rs", &[(1, 0)])]);
    let ambiguous = join(&[func("src/lib.rs", "tie", 1, 1)], &tie, MissingPolicy::Pessimistic);
    assert_eq!(empty[0].coverage_join, CoverageJoin::Missing);
    assert_percent(&empty[0], 0.0);
    assert_eq!(missing[0].coverage_join, CoverageJoin::Missing);
    assert_percent(&missing[0], 0.0);
    assert_eq!(ambiguous[0].coverage_join, CoverageJoin::Ambiguous);
    assert_percent(&ambiguous[0], 0.0);
}

#[test]
fn join_tests_empty_span_skip_drops_the_row() {
    let functions = [func("src/foo.rs", "f", 10, 12)];
    let coverage = cov(&[("src/foo.rs", &[(1, 1), (20, 1)])]);
    assert!(join(&functions, &coverage, MissingPolicy::Skip).is_empty());
}

#[test]
fn join_path_tests_empty_span_skip_drops_the_row() {
    let functions = [func("src/foo.rs", "f", 10, 12)];
    let coverage = cov(&[("src/foo.rs", &[(1, 1), (20, 1)])]);
    assert!(join(&functions, &coverage, MissingPolicy::Skip).is_empty());
}

#[test]
fn join_tests_empty_span_optimistic_is_full() {
    let functions = [func("src/foo.rs", "f", 10, 12)];
    let coverage = cov(&[("src/foo.rs", &[(1, 1), (20, 1)])]);
    let entries = join(&functions, &coverage, MissingPolicy::Optimistic);
    assert_percent(&entries[0], 100.0);
}

#[test]
fn join_path_tests_empty_span_optimistic_is_full() {
    let functions = [func("src/foo.rs", "f", 10, 12)];
    let coverage = cov(&[("src/foo.rs", &[(1, 1), (20, 1)])]);
    let entries = join(&functions, &coverage, MissingPolicy::Optimistic);
    assert_percent(&entries[0], 100.0);
}

#[test]
fn join_tests_parent_dir_resolves_without_merging_unrelated_keys() {
    let functions = [func("/proj/b/src/lib.rs", "f", 1, 2)];
    let coverage = cov(&[("a/../b/src/lib.rs", &[(1, 1)]), ("a/b/src/lib.rs", &[(2, 0)])]);
    let entries = join(&functions, &coverage, MissingPolicy::Pessimistic);
    assert_percent(&entries[0], 100.0);
}

#[test]
fn join_path_tests_parent_dir_resolves_without_merging_unrelated_keys() {
    let functions = [func("/proj/b/src/lib.rs", "f", 1, 2)];
    let coverage = cov(&[("a/../b/src/lib.rs", &[(1, 1)]), ("a/b/src/lib.rs", &[(2, 0)])]);
    let entries = join(&functions, &coverage, MissingPolicy::Pessimistic);
    assert_percent(&entries[0], 100.0);
}

// Equal-rank ties and the package name that breaks them.

#[test]
fn join_tests_equal_length_crate_suffixes_are_ambiguous() {
    let functions = [func("src/lib.rs", "f", 1, 1)];
    let coverage = cov(&[("/crate_a/src/lib.rs", &[(1, 1)]), ("/crate_b/src/lib.rs", &[(1, 0)])]);
    let entries = join(&functions, &coverage, MissingPolicy::Pessimistic);
    assert_percent(&entries[0], 0.0);
    assert_eq!(entries[0].coverage_join, CoverageJoin::Ambiguous);
    assert_eq!(ambiguous_join_count(&entries), 1);
    assert!(ambiguous_join_warning(&entries).contains("ambiguous coverage paths"));
}

#[test]
fn join_path_tests_equal_length_crate_suffixes_are_ambiguous() {
    let functions = [func("src/lib.rs", "f", 1, 1)];
    let coverage = cov(&[("/crate_a/src/lib.rs", &[(1, 1)]), ("/crate_b/src/lib.rs", &[(1, 0)])]);
    let entries = join(&functions, &coverage, MissingPolicy::Pessimistic);
    assert_percent(&entries[0], 0.0);
    assert_eq!(entries[0].coverage_join, CoverageJoin::Ambiguous);
    assert_eq!(ambiguous_join_count(&entries), 1);
    assert!(ambiguous_join_warning(&entries).contains("ambiguous coverage paths"));
}

#[test]
fn equal_length_crate_suffixes_skip() {
    let functions = [func("src/lib.rs", "f", 1, 1)];
    let coverage = cov(&[("/crate_a/src/lib.rs", &[(1, 1)]), ("/crate_b/src/lib.rs", &[(1, 0)])]);
    assert!(join(&functions, &coverage, MissingPolicy::Skip).is_empty());
}

#[test]
fn equal_length_crate_suffixes_optimistic() {
    let functions = [func("src/lib.rs", "f", 1, 1)];
    let coverage = cov(&[("/crate_a/src/lib.rs", &[(1, 1)]), ("/crate_b/src/lib.rs", &[(1, 0)])]);
    let entries = join(&functions, &coverage, MissingPolicy::Optimistic);
    assert_eq!(entries.len(), 1);
    assert_percent(&entries[0], 100.0);
    assert_eq!(entries[0].coverage_join, CoverageJoin::Ambiguous);
}

#[test]
fn join_tests_crate_name_requires_package_src_dir() {
    let functions = [func_in("lib.rs", "f", 1, 1, Some("demo"))];
    let coverage = cov(&[("demo/src/lib.rs", &[(1, 1)]), ("src/demo/lib.rs", &[(1, 0)])]);
    let entries = join(&functions, &coverage, MissingPolicy::Pessimistic);
    assert_percent(&entries[0], 100.0);
}

#[test]
fn join_path_tests_crate_name_requires_package_src_dir() {
    let functions = [func_in("lib.rs", "f", 1, 1, Some("demo"))];
    let coverage = cov(&[("demo/src/lib.rs", &[(1, 1)]), ("src/demo/lib.rs", &[(1, 0)])]);
    let entries = join(&functions, &coverage, MissingPolicy::Pessimistic);
    assert_percent(&entries[0], 100.0);
}

#[test]
fn join_tests_crate_name_breaks_equal_length_suffix_tie() {
    let functions = [func_in("src/lib.rs", "f", 1, 1, Some("crate_a"))];
    let coverage = cov(&[("/crate_a/src/lib.rs", &[(1, 1)]), ("/crate_b/src/lib.rs", &[(1, 0)])]);
    let entries = join(&functions, &coverage, MissingPolicy::Pessimistic);
    assert_percent(&entries[0], 100.0);
    assert_eq!(entries[0].coverage_join, CoverageJoin::Measured);
}

#[test]
fn join_path_tests_crate_name_breaks_equal_length_suffix_tie() {
    let functions = [func_in("src/lib.rs", "f", 1, 1, Some("crate_a"))];
    let coverage = cov(&[("/crate_a/src/lib.rs", &[(1, 1)]), ("/crate_b/src/lib.rs", &[(1, 0)])]);
    let entries = join(&functions, &coverage, MissingPolicy::Pessimistic);
    assert_percent(&entries[0], 100.0);
    assert_eq!(entries[0].coverage_join, CoverageJoin::Measured);
}

#[test]
fn join_tests_import_path_breaks_equal_length_go_suffix_tie() {
    let functions = [func_in("foo.go", "f", 1, 1, Some("example.com/mod/pkg_a"))];
    let coverage = cov(&[("/mod/pkg_a/foo.go", &[(1, 1)]), ("/mod/pkg_b/foo.go", &[(1, 0)])]);
    let entries = join(&functions, &coverage, MissingPolicy::Pessimistic);
    assert_percent(&entries[0], 100.0);
}

#[test]
fn join_path_tests_import_path_breaks_equal_length_go_suffix_tie() {
    let functions = [func_in("foo.go", "f", 1, 1, Some("example.com/mod/pkg_a"))];
    let coverage = cov(&[("/mod/pkg_a/foo.go", &[(1, 1)]), ("/mod/pkg_b/foo.go", &[(1, 0)])]);
    let entries = join(&functions, &coverage, MissingPolicy::Pessimistic);
    assert_percent(&entries[0], 100.0);
}

#[test]
fn ts_join_key_breaks_scoped_npm_basename_tie() {
    let functions = [func_join("src/util.ts", "f", 1, 1, Some("@scope/a"), Some("packages/a"))];
    let coverage = cov(&[("/repo/packages/a/src/util.ts", &[(1, 1)]), ("/repo/packages/b/src/util.ts", &[(1, 0)])]);
    let entries = join(&functions, &coverage, MissingPolicy::Pessimistic);
    assert_eq!(entries[0].coverage_join, CoverageJoin::Measured);
    assert_percent(&entries[0], 100.0);
    assert_eq!(entries[0].crate_name.as_deref(), Some("@scope/a"));
}

#[test]
fn leading_parent_dir_stays_on_the_stack() {
    let functions = [func("/src/lib.rs", "f", 1, 1)];
    let entries = join(&functions, &cov(&[("../src/lib.rs", &[(1, 1)])]), MissingPolicy::Pessimistic);
    assert_percent(&entries[0], 100.0);
}

// Nested functions: their lines belong to them, not to the enclosing one.

#[test]
fn nested_fn_path_spellings_still_exclude_inner_span() {
    let functions = [func("src/foo.rs", "outer", 1, 20), func("./src/foo.rs", "inner", 5, 12)];
    let coverage = cov(&[("src/foo.rs", &[(2, 1), (3, 1), (5, 0), (8, 0), (12, 0), (15, 1), (18, 1)])]);
    let entries = join(&functions, &coverage, MissingPolicy::Pessimistic);
    assert_eq!(named(&entries, "outer"), Some(100.0));
    assert_eq!(named(&entries, "inner"), Some(0.0));
}

#[test]
fn nested_fn_lines_are_excluded_from_outer_coverage() {
    let functions = [func("src/foo.rs", "outer", 1, 20), func("src/foo.rs", "inner", 5, 12)];
    let coverage = cov(&[("src/foo.rs", &[(2, 1), (3, 1), (5, 0), (8, 0), (12, 0), (15, 1), (18, 1)])]);
    let entries = join(&functions, &coverage, MissingPolicy::Pessimistic);
    assert_eq!(named(&entries, "outer"), Some(100.0));
    assert_eq!(named(&entries, "inner"), Some(0.0));
    let outer = entries.iter().find(|e| e.function.name == "outer").map(|e| e.coverage);
    assert_eq!(outer, Some(LineRatio { covered: 4, total: 4 }));
}

#[test]
fn inner_only_hits_leave_outer_on_missing_policy() {
    let functions = [func("src/foo.rs", "outer", 1, 20), func("src/foo.rs", "inner", 5, 12)];
    let coverage = cov(&[("src/foo.rs", &[(5, 1), (8, 1), (12, 1)])]);
    let pessimistic = join(&functions, &coverage, MissingPolicy::Pessimistic);
    let skip = join(&functions, &coverage, MissingPolicy::Skip);
    let optimistic = join(&functions, &coverage, MissingPolicy::Optimistic);
    let cases = [
        (named(&pessimistic, "outer"), Some(0.0)),
        (named(&pessimistic, "inner"), Some(100.0)),
        (named(&skip, "outer"), None),
        (named(&skip, "inner"), Some(100.0)),
        (named(&optimistic, "outer"), Some(100.0)),
        (named(&optimistic, "inner"), Some(100.0)),
    ];
    for (got, want) in cases {
        assert_eq!(got, want);
    }
}

#[test]
fn join_hundreds_of_nested_functions_finishes_under_a_second() {
    let mut functions = Vec::with_capacity(300);
    functions.push(func("src/foo.rs", "outer", 1, 2000));
    let mut lines = vec![(1, 1_u64)];
    for i in 0..299 {
        let start = 2 + i * 6;
        let end = start + 4;
        functions.push(func("src/foo.rs", &format!("n{i}"), start, end));
        for line in start..=end {
            let line = u32::try_from(line).unwrap_or(1);
            lines.push((line, 1));
        }
    }
    let coverage = cov(&[("src/foo.rs", &lines)]);
    let started = std::time::Instant::now();
    let entries = join(&functions, &coverage, MissingPolicy::Pessimistic);
    assert!(started.elapsed().as_secs() < 1, "{:?}", started.elapsed());
    assert_eq!(entries.len(), 300);
}

// Joins through a whole coverage map, one function at line 1.

fn one(file: &str, crate_name: Option<&str>) -> [LocatedFn; 1] {
    [func_in(file, "f", 1, 1, crate_name)]
}

fn hits(entries: &[(&str, u64)]) -> PathIndex {
    let coverage: Vec<(String, FileCoverage)> = entries
        .iter()
        .map(|(path, h)| ((*path).to_owned(), FileCoverage::from_pairs(&[(1, *h)])))
        .collect();
    PathIndex::from_coverage(&coverage)
}

fn assert_full(entry: &JoinedFn) {
    assert!((percent(entry.coverage) - 100.0).abs() < 1e-9);
}

#[test]
fn empty_coverage_path_empty_coverage_path_components_are_skipped() {
    let coverage = hits(&[("foo/..", 1), ("src/foo.rs", 1)]);
    let entries = join(&one("src/foo.rs", None), &coverage, MissingPolicy::Pessimistic);
    assert_eq!(entries[0].coverage_join, CoverageJoin::Measured);
    assert_full(&entries[0]);
}

#[test]
fn empty_coverage_path_equal_length_crate_suffixes_are_ambiguous() {
    let coverage = hits(&[("/crate_a/src/lib.rs", 1), ("/crate_b/src/lib.rs", 0)]);
    let entries = join(&one("src/lib.rs", None), &coverage, MissingPolicy::Pessimistic);
    assert_eq!(entries[0].coverage_join, CoverageJoin::Ambiguous);
    assert_eq!(ambiguous_join_count(&entries), 1);
}

#[test]
fn empty_coverage_path_crate_name_breaks_equal_length_suffix_tie() {
    let coverage = hits(&[("/crate_a/src/lib.rs", 1), ("/crate_b/src/lib.rs", 0)]);
    let entries = join(&one("src/lib.rs", Some("crate_a")), &coverage, MissingPolicy::Pessimistic);
    assert_eq!(entries[0].coverage_join, CoverageJoin::Measured);
    assert_full(&entries[0]);
}

#[test]
fn empty_coverage_path_import_path_breaks_equal_length_go_suffix_tie() {
    let coverage = hits(&[("/mod/pkg_a/foo.go", 1), ("/mod/pkg_b/foo.go", 0)]);
    let entries = join(&one("foo.go", Some("example.com/mod/pkg_a")), &coverage, MissingPolicy::Pessimistic);
    assert_eq!(entries[0].coverage_join, CoverageJoin::Measured);
    assert_full(&entries[0]);
}

#[test]
fn crate_root_layout_breaks_bare_filename_tie() {
    let coverage = hits(&[("demo/src/lib.rs", 1), ("src/demo/lib.rs", 0)]);
    let entries = join(&one("lib.rs", Some("demo")), &coverage, MissingPolicy::Pessimistic);
    assert_eq!(entries[0].coverage_join, CoverageJoin::Measured);
    assert_full(&entries[0]);
}

#[test]
fn empty_coverage_path_package_component_breaks_root_file_tie() {
    let coverage = hits(&[("/packages/pkg_a/util.ts", 1), ("/packages/pkg_b/util.ts", 0)]);
    let entries = join(&one("util.ts", Some("pkg_a")), &coverage, MissingPolicy::Pessimistic);
    assert_eq!(entries[0].coverage_join, CoverageJoin::Measured);
    assert_full(&entries[0]);
}

#[test]
fn empty_package_segments_stay_ambiguous() {
    let coverage = hits(&[("/a/src/lib.rs", 1), ("/b/src/lib.rs", 0)]);
    let entries = join(&one("src/lib.rs", Some("///")), &coverage, MissingPolicy::Pessimistic);
    assert_eq!(entries[0].coverage_join, CoverageJoin::Ambiguous);
}

#[test]
fn leading_parent_dir_is_kept_in_coverage_key() {
    let coverage = hits(&[("../src/foo.rs", 1)]);
    let entries = join(&one("../src/foo.rs", None), &coverage, MissingPolicy::Pessimistic);
    assert_eq!(entries[0].coverage_join, CoverageJoin::Measured);
}

#[test]
fn empty_source_path_is_missing() {
    let coverage = hits(&[("src/foo.rs", 1)]);
    let entries = join(&one("", None), &coverage, MissingPolicy::Pessimistic);
    assert_eq!(entries[0].coverage_join, CoverageJoin::Missing);
}

#[test]
fn incompatible_paths_same_basename_are_missing() {
    let coverage = hits(&[("a/foo.rs", 1)]);
    let entries = join(&one("b/foo.rs", None), &coverage, MissingPolicy::Pessimistic);
    assert_eq!(entries[0].coverage_join, CoverageJoin::Missing);
}

#[test]
fn two_demo_crate_roots_stay_ambiguous() {
    let coverage = hits(&[("/ws/demo/src/lib.rs", 1), ("/other/demo/src/lib.rs", 0)]);
    let entries = join(&one("src/lib.rs", Some("demo")), &coverage, MissingPolicy::Pessimistic);
    assert_eq!(entries[0].coverage_join, CoverageJoin::Ambiguous);
}

#[test]
fn unknown_crate_name_still_joins_raw_match() {
    let coverage = hits(&[("src/foo.rs", 1)]);
    let entries = join(&one("src/foo.rs", Some("nope")), &coverage, MissingPolicy::Pessimistic);
    assert_eq!(entries[0].coverage_join, CoverageJoin::Measured);
}

#[test]
fn longer_suffix_outranks_basename_only_key() {
    let coverage = hits(&[("src/foo.rs", 1), ("foo.rs", 0)]);
    let entries = join(&one("proj/src/foo.rs", None), &coverage, MissingPolicy::Pessimistic);
    assert_eq!(entries[0].coverage_join, CoverageJoin::Measured);
    assert_full(&entries[0]);
}

// One file's coverage over a span.

fn span_percent(ratio: Option<LineRatio>) -> Option<f64> {
    ratio.map(percent)
}

#[test]
fn coverage_empty_span_is_missing() {
    let cov = FileCoverage::from_pairs(&[(5, 1), (25, 1)]);
    assert_eq!(span_percent(cov.coverage_in_span(10, 20)), None);
}

#[test]
fn coverage_half_the_lines_hit_is_fifty_percent() {
    let cov = FileCoverage::from_pairs(&[(10, 5), (11, 0), (12, 1), (13, 0)]);
    assert_eq!(span_percent(cov.coverage_in_span(10, 13)), Some(50.0));
}

#[test]
fn excluding_nested_span_drops_those_lines() {
    let cov = FileCoverage::from_pairs(&[(1, 1), (5, 0), (6, 0), (10, 1)]);
    assert_eq!(span_percent(cov.coverage_in_span_excluding(1, 10, &[(5, 6)])), Some(100.0));
    assert_eq!(span_percent(cov.coverage_in_span(1, 10)), Some(50.0));
}

#[test]
fn coverage_merge_from_unions_and_sums() {
    let mut a = FileCoverage::from_pairs(&[(1, 2), (3, 0)]);
    let b = FileCoverage::from_pairs(&[(1, 3), (2, 1)]);
    a.merge_from(&b);
    assert_eq!(a.get(1), Some(5));
    assert_eq!(a.get(2), Some(1));
    assert_eq!(a.get(3), Some(0));
}

#[test]
fn missing_policy_changes_only_unmeasured_rows() {
    let functions = [
        func("src/foo.rs", "measured", 1, 3),
        func("src/gone.rs", "missing", 1, 1),
        func("src/lib.rs", "tied", 1, 1),
        func("src/foo.rs", "empty", 10, 12),
    ];
    let coverage = cov(&[
        ("src/foo.rs", &[(1, 1), (2, 0), (3, 1)]),
        ("/crate_a/src/lib.rs", &[(1, 1)]),
        ("/crate_b/src/lib.rs", &[(1, 0)]),
    ]);
    let pess = join(&functions, &coverage, MissingPolicy::Pessimistic);
    let opt = join(&functions, &coverage, MissingPolicy::Optimistic);
    let skip = join(&functions, &coverage, MissingPolicy::Skip);
    assert_eq!(pess.len(), 4);
    assert_eq!(opt.len(), 4);
    for (p, o) in pess.iter().zip(opt.iter()) {
        assert_eq!(p.function, o.function);
        assert_eq!(p.coverage_join, o.coverage_join);
        if p.coverage_join == CoverageJoin::Measured {
            assert_eq!(p.coverage, o.coverage);
        } else {
            assert_eq!(p.coverage, LineRatio { covered: 0, total: 1 });
            assert_eq!(o.coverage, LineRatio { covered: 1, total: 1 });
        }
    }
    let joins: Vec<CoverageJoin> = pess.iter().map(|r| r.coverage_join).collect();
    assert_eq!(
        joins,
        vec![CoverageJoin::Measured, CoverageJoin::Missing, CoverageJoin::Ambiguous, CoverageJoin::Missing]
    );
    let measured: Vec<&JoinedFn> = pess.iter().filter(|r| r.coverage_join == CoverageJoin::Measured).collect();
    assert_eq!(skip.len(), measured.len());
    assert_eq!(&skip[0], measured[0]);
    assert_eq!(skip[0].coverage, LineRatio { covered: 2, total: 3 });
}
