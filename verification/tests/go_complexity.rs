use crap_analyzer::go::cognitive::count as cognitive_count;
use crap_analyzer::go::complexity::analyze_source;
use crap_analyzer::go::cyclomatic::count as cyclomatic_count;
use crap_analyzer::go::lex::{skip_balanced, skip_noise, skip_string};
use crap_analyzer::go::structure::validate_structure;
use crap_analyzer::go::visitor::{match_braces, skip_signature, skip_typeish, try_parse_func};
use crap_analyzer::metric::Metric;

fn snippet(src: &str) -> usize {
    let parsed = analyze_source("t.go", src, Metric::Cyclomatic);
    assert!(parsed.is_ok(), "{parsed:?}");
    parsed.unwrap_or_default().first().map_or(0, |f| f.complexity)
}

fn names(src: &str) -> Vec<String> {
    analyze_source("t.go", src, Metric::Cyclomatic)
        .unwrap_or_default()
        .into_iter()
        .map(|f| f.name)
        .collect()
}

fn count(body: &str) -> usize {
    cognitive_count(body.as_bytes())
}

// Cyclomatic complexity.

#[test]
fn cyclomatic_straight_line_is_one() {
    assert_eq!(snippet("package p\nfunc trivial() { x := 1 }\n"), 1);
}

#[test]
fn cyclomatic_if_adds_one() {
    assert_eq!(snippet("package p\nfunc f(x int) { if x > 0 { x } }\n"), 2);
}

#[test]
fn bool_ops_and_case_add() {
    let src = "package p\nfunc f(x int) {\n  if x > 0 && x < 10 || x == 0 {\n\
        switch x {\n    case 1:\n    }\n  }\n}\n";
    assert_eq!(snippet(src), 5);
}

#[test]
fn switch_case_is_two() {
    assert_eq!(snippet("package p\nfunc f(x int) { switch x { case 1: } }\n"), 2);
}

#[test]
fn switch_cases_and_default() {
    let src =
        "package p\nfunc f(x int) {\n  switch x {\n  case 1:\n  case 2:\n  default:\n  }\n}\n";
    assert_eq!(snippet(src), 4);
}

#[test]
fn select_default_is_two() {
    assert_eq!(snippet("package p\nfunc f() { select { default: } }\n"), 2);
}

#[test]
fn else_if_chain_counts_each_if() {
    let src =
        "package p\nfunc f(x int) {\n  if x > 0 {\n  } else if x < 0 {\n  } else {\n  }\n}\n";
    assert_eq!(snippet(src), 3);
}

#[test]
fn type_switch_counts_cases_not_switch() {
    let src = "package p\nfunc f(x any) {\n  switch x.(type) {\n  case int:\n\
        case string:\n  default:\n  }\n}\n";
    assert_eq!(snippet(src), 4);
}

#[test]
fn comments_and_strings_are_ignored() {
    let src = r#"package p
func f() {
  // if ignored
  /* for ignored */
  x := "if" + `for` + 'c'
  if true { x = "a\"b" }
}
"#;
    assert_eq!(snippet(src), 2);
}

#[test]
fn trailing_comment_body() {
    assert_eq!(snippet("package p\nfunc f() { x := 1 // done\n}\n"), 1);
}

#[test]
fn comment_only_tail_after_decision() {
    assert_eq!(snippet("package p\nfunc f() { if x //\n}\n"), 2);
}

#[test]
fn unterminated_string_in_body() {
    assert_eq!(cyclomatic_count(b"{ x := \"abc"), 1);
}

#[test]
fn skip_noise_eof() {
    assert_eq!(cyclomatic_count(b"// only"), 1);
}

// Cognitive complexity.

#[test]
fn nested_if_is_nesting_weighted() {
    assert_eq!(count("{ if a { if b { x } } }"), 3);
}

#[test]
fn else_is_flat_one() {
    assert_eq!(count("{ if a { x } else { y } }"), 2);
}

#[test]
fn else_if_is_flat_else_plus_if() {
    assert_eq!(count("{ if a { x } else if b { y } }"), 3);
}

#[test]
fn bool_run_counts_once() {
    assert_eq!(count("{ if a && b && c { x } }"), 2);
}

#[test]
fn or_run_counts_once() {
    assert_eq!(count("{ if a || b || c { x } }"), 2);
}

#[test]
fn comments_and_strings_are_skipped() {
    let body = r#"{
// if fake {
/* for also */
x := "if" + `for` + 's'
if a { x }
}"#;
    assert_eq!(count(body), 1);
}

#[test]
fn escaped_quotes_inside_strings() {
    assert_eq!(count(r#"{ x := "a\"b"; if y { z } }"#), 1);
}

#[test]
fn trailing_comment_reaches_eof_after_noise() {
    assert_eq!(count("{ x := 1 // trailing"), 0);
}

#[test]
fn top_level_bool_run() {
    assert_eq!(count("{ a && b }"), 1);
}

#[test]
fn control_without_brace_stops_at_semicolon() {
    assert_eq!(count("{ if x; y }"), 1);
}

#[test]
fn unclosed_brace_after_control() {
    assert_eq!(count("{ if x { y "), 1);
}

#[test]
fn bool_scan_stops_on_comma_and_paren() {
    assert!(count("{ if f(a && b, c || d) { x } }") >= 2);
}

#[test]
fn switch_and_select_are_nested() {
    assert_eq!(count("{ switch x { default: } select { default: } }"), 2);
}

#[test]
fn unmatched_open_brace_helpers() {
    assert_eq!(count("{ if"), 1);
}

#[test]
fn scan_bools_comment_only_header() {
    assert_eq!(count("{ if //\n{ x } }"), 1);
    assert_eq!(count("{ if/**/{ x } }"), 1);
}

#[test]
fn find_block_open_eof_after_noise() {
    assert_eq!(count("{ if x //"), 1);
}

#[test]
fn match_braces_edges() {
    assert!(skip_balanced(b"x", 0, b'{', b'}').is_none());
    assert!(skip_balanced(b"{ /*", 0, b'{', b'}').is_none());
}

#[test]
fn unterminated_string_returns_len() {
    assert_eq!(skip_string(br#""abc"#, 0), 4);
    assert_eq!(skip_string(b"", 0), 0);
}

#[test]
fn skip_to_bool_eof_after_comment() {
    assert_eq!(count("{ a && //"), 1);
}

// Shared scanners.

#[test]
fn lone_slash_is_not_noise() {
    assert_eq!(skip_noise(b"/", 0), 0);
    assert_eq!(skip_noise(b"/x", 0), 0);
}

#[test]
fn cognitive_metric_counts_nested_if() {
    let src = "package p\nfunc f(x int) { if x > 0 { if x > 1 { x } } }\n";
    let fns = analyze_source("t.go", src, Metric::Cognitive).unwrap();
    assert_eq!(fns[0].complexity, 3);
}

// Structural scan.

#[test]
fn valid_source_passes() {
    let src = b"package p\nfunc F() { return \"{}\" }\n";
    assert!(validate_structure(src).is_ok());
}

#[test]
fn braces_inside_string_and_comment_ok() {
    let src = b"package p\n/* { */\nfunc F() { s := \"{\" }\n";
    assert!(validate_structure(src).is_ok());
}

#[test]
fn unclosed_string_fails() {
    let src = b"package p\nfunc F() { s := \"oops }\n";
    assert_eq!(validate_structure(src), Err("unclosed string"));
}

#[test]
fn unclosed_raw_string_fails() {
    let src = b"package p\nfunc F() { s := `oops }\n";
    assert_eq!(validate_structure(src), Err("unclosed string"));
}

#[test]
fn unclosed_comment_fails() {
    let src = b"package p\n/* still open\nfunc F() {}\n";
    assert_eq!(validate_structure(src), Err("unclosed comment"));
}

#[test]
fn unbalanced_braces_fail() {
    let src = b"package p\nfunc F() {\n";
    assert_eq!(validate_structure(src), Err("unbalanced braces"));
}

#[test]
fn mismatched_closer_fails() {
    let src = b"package p\nfunc F() { )\n";
    assert_eq!(validate_structure(src), Err("unbalanced braces"));
}

#[test]
fn extra_closer_fails() {
    let src = b"package p\n}\n";
    assert_eq!(validate_structure(src), Err("unbalanced braces"));
}

#[test]
fn nonsense_tokens_with_balanced_braces_pass() {
    let src = b"package p\nfunc F() { notReal $$$ syntax }\n";
    assert!(validate_structure(src).is_ok());
}

// Function discovery.

#[test]
fn straight_and_if_functions() {
    let src = r"
package p
func trivial() { x := 1 }
func branched(x int) { if x > 0 { x } }
";
    let fns = analyze_source("t.go", src, Metric::Cyclomatic).unwrap();
    assert_eq!(fns.len(), 2);
    assert_eq!(fns[0].complexity, 1);
    assert_eq!(fns[1].complexity, 2);
}

#[test]
fn nested_named_func_is_separate_row() {
    let got = names("package p\nfunc outer() {\nfunc inner() { y := 1 }\n_ = inner\n}\n");
    assert!(got.iter().any(|n| n == "outer"));
    assert!(got.iter().any(|n| n == "inner"));
}

#[test]
fn closure_is_not_a_separate_row() {
    let src = "package p\nfunc outer() {\n_ = func(x int) { return x }\n}\n";
    assert_eq!(names(src), vec!["outer".to_owned()]);
}

#[test]
fn methods_and_pointer_receivers() {
    let src = "package p\nfunc (t *T) M() {}\nfunc (t T) N() int { return 1 }\n";
    let got = names(src);
    assert!(got.iter().any(|n| n == "T.M"));
    assert!(got.iter().any(|n| n == "T.N"));
}

#[test]
fn result_tuple_and_slice_types() {
    let src =
        "package p\nfunc F() (int, error) { return 0, nil }\nfunc G() []byte { return nil }\n";
    let got = names(src);
    assert!(got.iter().any(|n| n == "F"));
    assert!(got.iter().any(|n| n == "G"));
}

#[test]
fn comments_and_strings_do_not_hide_funcs() {
    let src = r#"package p
// func fake() {}
/* func also() {} */
func real() { x := "func" + `func` + 'f' }
"#;
    assert_eq!(names(src), vec!["real".to_owned()]);
}

#[test]
fn trailing_comment_reaches_eof() {
    let src = "package p\nfunc f() { x := 1 } // end";
    assert_eq!(names(src), vec!["f".to_owned()]);
}

#[test]
fn try_parse_rejects_non_func() {
    let src = "package p\n";
    assert!(try_parse_func(src.as_bytes(), 0).is_none());
}

#[test]
fn helpers_cover_noise_and_balance_edges() {
    let bytes = br#"// line
/* block */
"a\"b" `raw` 'c' rest"#;
    let after = skip_noise(bytes, 0);
    assert!(after < bytes.len());
    assert!(skip_balanced(bytes, 0, b'(', b')').is_none());
    assert!(match_braces(b"x", 0).is_none());
    assert_eq!(skip_string(br#""ab"#, 0), 3);
    assert_eq!(skip_string(br#""unterminated"#, 0), 13);
    let open = b"{ /* c */";
    assert!(skip_balanced(open, 0, b'{', b'}').is_none());
}

#[test]
fn signature_without_params_is_rejected() {
    assert!(names("package p\nfunc F { }\n").is_empty());
}

#[test]
fn odd_result_type_chars_after_params() {
    let src = "package p\nfunc F() @ {}\n";
    let _ = names(src);
}

#[test]
fn typeish_with_unbalanced_paren() {
    let src = "package p\nfunc F() chan(int {}\n";
    let _ = names(src);
}

#[test]
fn receiver_breaks_on_unexpected_byte() {
    let src = "package p\nfunc (t *T, ) M() {}\n";
    let _ = names(src);
}

#[test]
fn receiver_without_type_name() {
    let src = "package p\nfunc ( * ) M() {}\n";
    let _ = names(src);
}

#[test]
fn cognitive_metric_via_analyze_source() {
    let src = "package p\nfunc f(x int) { if x > 0 { if x > 1 { x } } }\n";
    let fns = analyze_source("t.go", src, Metric::Cognitive).unwrap();
    assert_eq!(fns.len(), 1);
    assert_eq!(fns[0].complexity, 3);
}

#[test]
fn skip_signature_direct_edges() {
    assert!(skip_signature(b"F", 0).is_none());
    assert_eq!(skip_signature(b"()@", 0), Some(2));
}

#[test]
fn skip_typeish_balanced_and_unbalanced() {
    assert!(skip_typeish(b"chan(int)", 0) >= 9);
    assert!(skip_typeish(b"chan(int", 0) < 20);
    assert!(skip_typeish(b"[]int", 0) >= 5);
    assert!(skip_typeish(b"[3", 0) < 10);
}

#[test]
fn receiver_type_breaks_on_at_sign() {
    let src = "package p\nfunc (t @T) M() {}\n";
    let got = names(src);
    assert!(got.iter().any(|n| n == "M" || n.contains('M')));
}

// Additional scenarios.

#[test]
fn nested_function_body_is_masked_from_outer() {
    let src = "package p\nfunc outer() {\nfunc inner() { if a { b } }\n}\n";
    let fns = analyze_source("t.go", src, Metric::Cyclomatic).unwrap();
    assert_eq!(fns.len(), 2);
    assert_eq!(fns[0].name, "outer");
    assert_eq!(fns[0].complexity, 1);
    assert_eq!(fns[1].name, "inner");
    assert_eq!(fns[1].complexity, 2);
    assert_eq!((fns[0].start_line, fns[0].end_line), (2, 4));
    assert_eq!((fns[1].start_line, fns[1].end_line), (3, 3));
}

#[test]
fn structural_failure_names_the_path() {
    let err = analyze_source("bad.go", "package p\nfunc F() {\n", Metric::Cyclomatic).unwrap_err();
    assert_eq!(err.to_string(), "bad.go: unbalanced braces");
}

#[test]
fn files_are_recorded_on_every_row() {
    let fns = analyze_source("dir/a.go", "package p\nfunc A() {}\nfunc B() {}\n", Metric::Cyclomatic)
        .unwrap();
    assert!(fns.iter().all(|f| f.file == "dir/a.go"));
}
