use crap_analyzer::error::Error;
use crap_analyzer::go::module_resolve::{order_packages, sort_by_name, sort_modules, Package};

fn pkg(name: &str, root: &str) -> Package {
    Package { name: name.to_owned(), root: root.to_owned() }
}

#[test]
fn packages_sort_by_name_stably() {
    let sorted = sort_by_name(vec![
        pkg("example.com/b", "/b"),
        pkg("example.com/a", "/a2"),
        pkg("example.com", "/"),
        pkg("example.com/a", "/a1"),
        pkg("Example.com/z", "/z"),
    ]);
    let names: Vec<(&str, &str)> = sorted.iter().map(|p| (p.name.as_str(), p.root.as_str())).collect();
    assert_eq!(
        names,
        vec![
            ("Example.com/z", "/z"),
            ("example.com", "/"),
            ("example.com/a", "/a2"),
            ("example.com/a", "/a1"),
            ("example.com/b", "/b"),
        ]
    );
}

#[test]
fn ordered_packages_refuse_repeated_names() {
    let ok = order_packages(vec![pkg("m/b", "/b"), pkg("m/a", "/a")]);
    assert!(matches!(ok, Ok(ref v) if v[0].name == "m/a"));
    match order_packages(vec![pkg("m/a", "/one"), pkg("m/b", "/b"), pkg("m/a", "/two")]) {
        Err(Error::Resolve(m)) => assert_eq!(m, "duplicate package name `m/a` at /one and /two"),
        _ => panic!("expected a duplicate-name error"),
    }
}

#[test]
fn modules_sort_by_import_path() {
    let sorted = sort_modules(vec![
        ("/mod/nested".to_owned(), "example.com/demo/nested".to_owned()),
        ("/mod".to_owned(), "example.com/demo".to_owned()),
    ]);
    assert_eq!(sorted[0].0, "/mod");
    assert_eq!(sorted[1].0, "/mod/nested");
}
