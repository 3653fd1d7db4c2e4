use crap_analyzer::error::Error;
use crap_analyzer::go::language::{
    analyze_into, apply_file_outcome, collect_failure, finish_collect, read_failed, take_source,
    FileOutcome, GoLanguage,
};
use crap_analyzer::go::module_resolve::Package;
use crap_analyzer::merge::LocatedFn;
use crap_analyzer::metric::Metric;

fn lang(workspace: bool, packages: &[&str], tags: &[&str]) -> GoLanguage {
    GoLanguage {
        workspace,
        packages: packages.iter().map(|s| (*s).to_owned()).collect(),
        tags: tags.iter().map(|s| (*s).to_owned()).collect(),
    }
}

#[test]
fn package_selection_is_used_for_workspace_or_names() {
    assert!(lang(true, &[], &[]).uses_packages());
    assert!(lang(false, &["example.com/demo"], &[]).uses_packages());
    assert!(!lang(false, &[], &[]).uses_packages());
}

#[test]
fn targets_follow_packages_and_skip_nested_ones() {
    let packages = vec![
        Package { name: "example.com/demo".into(), root: "/mod".into() },
        Package { name: "example.com/demo/inner".into(), root: "/mod/inner".into() },
    ];
    let targets = lang(true, &[], &["integration"]).targets_from_packages(&packages);
    assert_eq!(targets.len(), 2);
    assert_eq!(targets[0].root, "/mod");
    assert_eq!(targets[0].crate_name.as_deref(), Some("example.com/demo"));
    assert_eq!(targets[0].skip, vec!["/mod/inner".to_owned()]);
    assert_eq!(targets[0].enabled_features, vec!["integration".to_owned()]);
    assert!(targets[1].skip.is_empty());
    let plain = lang(false, &[], &["x"]).path_target("/src");
    assert_eq!(plain.root, "/src");
    assert!(plain.crate_name.is_none());
    assert_eq!(plain.enabled_features, vec!["x".to_owned()]);
}

#[test]
fn outcomes_are_counted() {
    let (mut ok, mut bad) = (0_usize, 0_usize);
    apply_file_outcome(FileOutcome::Collected, &mut ok, &mut bad);
    apply_file_outcome(FileOutcome::Skipped, &mut ok, &mut bad);
    apply_file_outcome(FileOutcome::Failed, &mut ok, &mut bad);
    apply_file_outcome(FileOutcome::Collected, &mut ok, &mut bad);
    assert_eq!((ok, bad), (2, 1));
}

#[test]
fn collect_failure_names_counts_and_details() {
    let details = vec!["skipping a.go: bad".to_owned(), "skipping b.go: worse".to_owned()];
    assert_eq!(
        collect_failure("Go", 2, 3, &details),
        "failed to parse 2 of 5 Go file(s)\nskipping a.go: bad\nskipping b.go: worse"
    );
    match finish_collect(Vec::new(), &details, 3, 2) {
        Err(Error::Collect(m)) => assert!(m.starts_with("failed to parse 2 of 5 Go file(s)\n")),
        _ => panic!("expected a collect error"),
    }
    assert!(matches!(finish_collect(Vec::new(), &[], 3, 0), Ok(v) if v.is_empty()));
}

#[test]
fn sources_are_analyzed_skipped_or_reported() {
    let mut functions: Vec<LocatedFn> = Vec::new();
    let mut details: Vec<String> = Vec::new();
    let good = "package main\nfunc Hi() {\n\tif true {\n\t}\n}\n";
    let outcome = take_source("main.go", good, Some("example.com/demo"), Metric::Cyclomatic, &[], "linux", &mut functions, &mut details);
    assert_eq!(outcome, FileOutcome::Collected);
    assert_eq!(functions.len(), 1);
    assert_eq!(functions[0].function.name, "Hi");
    assert_eq!(functions[0].function.complexity, 2);
    assert_eq!(functions[0].crate_name.as_deref(), Some("example.com/demo"));
    assert!(details.is_empty());

    let tagged = "//go:build integration\n\npackage main\nfunc Hidden() {}\n";
    let outcome = take_source("tagged.go", tagged, None, Metric::Cyclomatic, &[], "linux", &mut functions, &mut details);
    assert_eq!(outcome, FileOutcome::Skipped);
    let enabled = vec!["integration".to_owned()];
    let outcome = take_source("tagged.go", tagged, None, Metric::Cyclomatic, &enabled, "linux", &mut functions, &mut details);
    assert_eq!(outcome, FileOutcome::Collected);
    assert_eq!(functions.len(), 2);

    let broken = "package main\nfunc Broken() {\n";
    let outcome = analyze_into("broken.go", broken, None, Metric::Cyclomatic, &mut functions, &mut details);
    assert_eq!(outcome, FileOutcome::Failed);
    assert_eq!(functions.len(), 2);
    assert_eq!(details.len(), 1);
    assert!(details[0].starts_with("skipping broken.go: broken.go: "), "{}", details[0]);

    let outcome = read_failed("gone.go", "No such file", &mut details);
    assert_eq!(outcome, FileOutcome::Failed);
    assert_eq!(details[1], "skipping gone.go: No such file");
}

fn demo_packages() -> Vec<Package> {
    vec![
        Package { name: "example.com/demo".to_owned(), root: "/m".to_owned() },
        Package { name: "example.com/demo/pkg".to_owned(), root: "/m/pkg".to_owned() },
    ]
}

#[test]
fn module_root_without_flags_walks_every_package() {
    let all = demo_packages();
    let l = lang(false, &[], &[]);
    assert!(l.walks_packages(true));
    let targets = l.resolve_targets("/m", true, Some(&all)).unwrap();
    assert_eq!(targets.len(), 2);
    assert_eq!(targets[0].skip, vec!["/m/pkg".to_owned()]);
}

#[test]
fn plain_directory_has_no_crate_name() {
    let l = lang(false, &[], &["fancy"]);
    assert!(!l.walks_packages(false));
    let targets = l.resolve_targets("/plain", false, None).unwrap();
    assert_eq!(targets.len(), 1);
    assert_eq!(targets[0].root, "/plain");
    assert!(targets[0].crate_name.is_none());
    assert_eq!(targets[0].enabled_features, vec!["fancy".to_owned()]);
}

#[test]
fn workspace_flag_walks_all_packages() {
    let all = demo_packages();
    let targets = lang(true, &[], &[]).resolve_targets("/m", true, Some(&all)).unwrap();
    assert_eq!(targets.len(), 2);
}

#[test]
fn package_flag_walks_one_import_path() {
    let all = demo_packages();
    let targets = lang(false, &["example.com/demo/pkg"], &[]).resolve_targets("/m", true, Some(&all)).unwrap();
    assert_eq!(targets.len(), 1);
    assert_eq!(targets[0].crate_name.as_deref(), Some("example.com/demo/pkg"));
    assert!(targets[0].skip.is_empty());
}

#[test]
fn unknown_package_flag_is_a_resolve_error() {
    let all = demo_packages();
    let err = lang(false, &["example.com/nope"], &[]).resolve_targets("/m", true, Some(&all)).unwrap_err();
    assert!(matches!(err, Error::Resolve(ref m) if m == "unknown package `example.com/nope`"));
}
