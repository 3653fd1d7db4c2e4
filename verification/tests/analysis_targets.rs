use crap_analyzer::cargo::cli::Args;
use crap_analyzer::cargo::error::Error;
use crap_analyzer::cargo::workspace::{analysis_targets, Package};
use crap_analyzer::merge::MissingPolicy;

fn args(path: &str, workspace: bool, packages: &[&str]) -> Args {
    Args {
        lcov: "lcov.info".to_string(),
        path: path.to_string(),
        threshold: None,
        workspace,
        packages: packages.iter().map(|p| p.to_string()).collect(),
        summary: false,
        fail_above: false,
        missing: MissingPolicy::Pessimistic,
    }
}

fn members() -> Vec<Package> {
    vec![
        Package { name: "root".to_string(), root: "/ws".to_string() },
        Package { name: "core".to_string(), root: "/ws/core".to_string() },
        Package { name: "cli".to_string(), root: "/ws/cli".to_string() },
    ]
}

#[test]
fn plain_path_gives_one_target_without_metadata() {
    let t = analysis_targets(&args("src", false, &[]), None).unwrap();
    assert_eq!(t.len(), 1);
    assert_eq!(t[0].root, "src");
    assert_eq!(t[0].crate_name, None);
    assert!(t[0].skip.is_empty());
}

#[test]
fn workspace_targets_every_member_and_skips_nested_ones() {
    let all = members();
    let t = analysis_targets(&args(".", true, &[]), Some(&all)).unwrap();
    assert_eq!(t.len(), 3);
    assert_eq!(t[0].root, "/ws");
    assert_eq!(t[0].crate_name.as_deref(), Some("root"));
    assert_eq!(t[0].skip, vec!["/ws/core".to_string(), "/ws/cli".to_string()]);
    assert_eq!(t[1].crate_name.as_deref(), Some("core"));
    assert!(t[1].skip.is_empty());
}

#[test]
fn selected_packages_keep_the_order_asked() {
    let all = members();
    let t = analysis_targets(&args(".", false, &["cli", "core"]), Some(&all)).unwrap();
    assert_eq!(t.len(), 2);
    assert_eq!(t[0].root, "/ws/cli");
    assert_eq!(t[1].root, "/ws/core");
}

#[test]
fn unknown_selected_package_is_an_error() {
    let all = members();
    let err = analysis_targets(&args(".", false, &["core", "nope"]), Some(&all)).unwrap_err();
    assert!(matches!(err, Error::UnknownPackage(ref n) if n == "nope"));
}
