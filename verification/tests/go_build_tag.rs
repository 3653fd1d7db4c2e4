use crap_analyzer::go::build_tag::skip_file;

const HOST: &str = "linux";

fn skip(source: &str, tags: &[String]) -> bool {
    skip_file(source, tags, HOST)
}

#[test]
fn no_constraint_is_kept() {
    assert!(!skip("package main\n", &[]));
}

#[test]
fn unknown_tag_skips_file() {
    assert!(skip("//go:build fancy\n\npackage main\n", &[]));
}

#[test]
fn enabled_tag_keeps_file() {
    assert!(!skip("//go:build fancy\n\npackage main\n", &["fancy".into()]));
}

#[test]
fn not_and_or_parens() {
    let src = "//go:build !(windows && fancy) || linux\n\npackage main\n";
    assert!(!skip(src, &[]));
    assert!(skip("//go:build windows && fancy\n\npackage main\n", &[]));
}

#[test]
fn plus_build_lines() {
    assert!(skip("// +build fancy\n\npackage main\n", &[]));
    assert!(!skip("// +build fancy\n\npackage main\n", &["fancy".into()]));
}

#[test]
fn ordinary_comment_before_package_is_ignored() {
    let src = "//go:build fancy\n// copyright\n\npackage main\n";
    assert!(skip(src, &[]));
    assert!(!skip(src, &["fancy".into()]));
}

#[test]
fn plus_build_alternatives_on_one_line() {
    let src = "// +build fancy integration\n\npackage main\n";
    assert!(skip(src, &[]));
    assert!(!skip(src, &["integration".into()]));
}

#[test]
fn unmatched_paren_treats_constraint_as_false() {
    assert!(skip("//go:build (fancy\n\npackage main\n", &["fancy".into()]));
}

#[test]
fn dangling_operator_tokens_are_false() {
    assert!(skip("//go:build &&\n\npackage main\n", &[]));
}

#[test]
fn unknown_chars_in_constraint_are_skipped() {
    assert!(skip("//go:build fancy@home\n\npackage main\n", &[]));
    assert!(!skip("//go:build fancy@home\n\npackage main\n", &["fancy".into()]));
}

#[test]
fn plus_build_negated_tag() {
    assert!(!skip("// +build !fancy\n\npackage main\n", &[]));
    assert!(skip("// +build !fancy\n\npackage main\n", &["fancy".into()]));
}

#[test]
fn host_os_tags_are_evaluated() {
    assert!(skip("//go:build darwin\n\npackage main\n", &[]));
    assert!(skip("//go:build windows\n\npackage main\n", &[]));
    assert!(!skip("//go:build linux\n\npackage main\n", &[]));
    assert!(!skip("//go:build unix\n\npackage main\n", &[]));
}

#[test]
fn host_is_a_parameter() {
    assert!(!skip_file("//go:build darwin\n\npackage main\n", &[], "darwin"));
    assert!(skip_file("//go:build linux\n\npackage main\n", &[], "darwin"));
    assert!(!skip_file("//go:build unix\n\npackage main\n", &[], "darwin"));
    assert!(skip_file("//go:build unix\n\npackage main\n", &[], "windows"));
    assert!(skip_file("//go:build plan9\n\npackage main\n", &[], "plan9"));
}

#[test]
fn go_build_line_wins_over_plus_build_lines() {
    let src = "// +build fancy\n//go:build other\n\npackage main\n";
    assert!(!skip(src, &["other".into()]));
    assert!(skip(src, &["fancy".into()]));
}

#[test]
fn plus_build_lines_are_anded() {
    let src = "// +build a\n// +build b\n\npackage main\n";
    assert!(skip(src, &["a".into()]));
    assert!(!skip(src, &["a".into(), "b".into()]));
}

#[test]
fn constraint_after_code_is_ignored() {
    let src = "package main\n//go:build fancy\n";
    assert!(!skip(src, &[]));
}

#[test]
fn crlf_lines_are_trimmed() {
    assert!(!skip("//go:build fancy\r\n\r\npackage main\r\n", &["fancy".into()]));
    assert!(skip("//go:build fancy\r\n\r\npackage main\r\n", &[]));
}
