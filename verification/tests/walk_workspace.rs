use crap_analyzer::rust_path::{ancestors, sort_paths};
use crap_analyzer::cargo::walk::{excluded_rel, is_rust_file, skip_dir};
use crap_analyzer::cargo::workspace::{manifest_path, nested_member_roots, selected_members, Package};
use crap_analyzer::go::module_resolve::{
    ensure_unique_names, import_path, is_go_source_path, is_skip_dir_name, module_path_from_text,
    nested_module_roots, selected_packages, Package as GoPackage,
};

#[test]
fn default_excludes_match_first_component() {
    let root = "/proj";
    assert!(excluded_rel("/proj/tests/foo.rs", root));
    assert!(excluded_rel("/proj/benches/foo.rs", root));
    assert!(excluded_rel("/proj/examples/foo.rs", root));
    assert!(!excluded_rel("/proj/src/foo.rs", root));
    assert!(!excluded_rel("/proj/src/tests.rs", root));
}

#[test]
fn skip_dir_ignores_target_and_nested_members() {
    let root = "/proj";
    let nested = ["/proj/inner".to_owned()];
    assert!(skip_dir("/proj/target", root, &nested));
    assert!(skip_dir("/proj/inner", root, &nested));
    assert!(!skip_dir(root, root, &nested));
    assert!(!skip_dir("/proj/src", root, &nested));
}

#[test]
fn paths_compare_by_component() {
    let nested = ["/proj/inner/".to_owned()];
    assert!(skip_dir("/proj//inner", "/proj", &nested));
    assert!(!excluded_rel("/other/tests/foo.rs", "/proj"));
}

#[test]
fn rust_files_are_recognised_by_extension() {
    assert!(is_rust_file("src/lib.rs"));
    assert!(!is_rust_file("src/.rs"));
    assert!(!is_rust_file("src/lib.rsx"));
    assert!(!is_rust_file("src"));
}

fn pkg(name: &str, root: &str) -> Package {
    Package { name: name.into(), root: root.into() }
}

#[test]
fn nested_roots_are_children_only() {
    let all = vec![pkg("root", "/ws"), pkg("inner", "/ws/inner"), pkg("sib", "/other")];
    let skip = nested_member_roots("/ws", &all);
    assert_eq!(skip, vec!["/ws/inner".to_owned()]);
}

#[test]
fn manifest_path_joins_cargo_toml() {
    assert_eq!(manifest_path("/other/ws"), "/other/ws/Cargo.toml");
    assert_eq!(manifest_path("."), "./Cargo.toml");
}

#[test]
fn selected_members_follow_the_requested_order() {
    let all = vec![pkg("a", "/ws/a"), pkg("b", "/ws/b")];
    let picked = selected_members(&["b".into(), "a".into()], &all).unwrap();
    assert_eq!(picked, vec![pkg("b", "/ws/b"), pkg("a", "/ws/a")]);
    let err = selected_members(&["a".into(), "zzz".into()], &all).unwrap_err();
    assert_eq!(err.to_string(), "unknown package `zzz`");
}

#[test]
fn import_path_falls_back_when_not_under_module_root() {
    let name = import_path("/other", "/mod", "example.com/demo");
    assert_eq!(name, "example.com/demo");
}

#[test]
fn import_path_appends_the_relative_directory() {
    assert_eq!(import_path("/mod/pkg/sub", "/mod", "example.com/demo"), "example.com/demo/pkg/sub");
    assert_eq!(import_path("/mod", "/mod", "example.com/demo"), "example.com/demo");
}

#[test]
fn module_line_is_found_after_comments() {
    let got = module_path_from_text("// header\n  module   example.com/demo  \n\ngo 1.22\n", "go.mod");
    assert_eq!(got.unwrap(), "example.com/demo");
    let err = module_path_from_text("go 1.22\n", "x/go.mod").unwrap_err();
    assert_eq!(err.to_string(), "x/go.mod: missing module path");
}

#[test]
fn go_sources_exclude_tests() {
    assert!(is_go_source_path("pkg/a.go"));
    assert!(!is_go_source_path("pkg/a_test.go"));
    assert!(!is_go_source_path("pkg/.go"));
    assert!(is_skip_dir_name("x/vendor"));
    assert!(is_skip_dir_name("testdata"));
    assert!(!is_skip_dir_name("x/src"));
}

fn gopkg(name: &str, root: &str) -> GoPackage {
    GoPackage { name: name.into(), root: root.into() }
}

#[test]
fn duplicate_package_names_are_reported() {
    let ok = vec![gopkg("a", "/m/a"), gopkg("b", "/m/b")];
    assert!(ensure_unique_names(&ok).is_ok());
    let dup = vec![gopkg("a", "/m/a"), gopkg("b", "/m/b"), gopkg("a", "/n/a")];
    let err = ensure_unique_names(&dup).unwrap_err();
    assert_eq!(err.to_string(), "duplicate package name `a` at /m/a and /n/a");
}

#[test]
fn go_selection_and_nesting() {
    let all = vec![gopkg("example.com/demo", "/m"), gopkg("example.com/demo/pkg", "/m/pkg")];
    let picked = selected_packages(&["example.com/demo/pkg".into()], &all).unwrap();
    assert_eq!(picked, vec![gopkg("example.com/demo/pkg", "/m/pkg")]);
    let err = selected_packages(&["nope".into()], &all).unwrap_err();
    assert_eq!(err.to_string(), "unknown package `nope`");
    assert_eq!(nested_module_roots("/m", &all), vec!["/m/pkg".to_owned()]);
}

#[test]
fn paths_sort_by_component() {
    let sorted = sort_paths(vec![
        "/proj/src/b.rs".to_owned(),
        "/proj/src/a/z.rs".to_owned(),
        "/proj/src/a.rs".to_owned(),
        "/proj/src-old/x.rs".to_owned(),
        "rel/a.rs".to_owned(),
    ]);
    assert_eq!(
        sorted,
        vec![
            "/proj/src/a/z.rs".to_owned(),
            "/proj/src/a.rs".to_owned(),
            "/proj/src/b.rs".to_owned(),
            "/proj/src-old/x.rs".to_owned(),
            "rel/a.rs".to_owned(),
        ]
    );
    let mut expected = vec!["/proj/src/b.rs", "/proj/src/a/z.rs", "/proj/src/a.rs", "/proj/src-old/x.rs", "rel/a.rs"]
        .into_iter()
        .map(std::path::PathBuf::from)
        .collect::<Vec<_>>();
    expected.sort();
    let as_paths: Vec<std::path::PathBuf> = sorted.iter().map(std::path::PathBuf::from).collect();
    assert_eq!(as_paths, expected);
}

#[test]
fn ancestors_walk_up_to_the_root() {
    assert_eq!(ancestors("/a/b/c"), vec!["/a/b/c".to_owned(), "/a/b".to_owned(), "/a".to_owned(), "/".to_owned()]);
    assert_eq!(ancestors("x/y"), vec!["x/y".to_owned(), "x".to_owned(), "".to_owned()]);
    assert_eq!(ancestors(""), vec!["".to_owned()]);
}
