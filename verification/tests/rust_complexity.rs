use crap_analyzer::cargo::complexity::{analyze_source, cyclomatic_count, functions_of, CfgMeta, Construct, RustItem};
use crap_analyzer::cargo::error::Error;
use crap_analyzer::merge::FunctionComplexity;

// Each test writes the parsed form of the source it names in its comment.

fn fn_item(name: &str, line: usize, constructs: Vec<Construct>) -> RustItem {
    RustItem::Fn {
        name: name.to_owned(),
        start_line: line,
        end_line: line,
        test_attr: false,
        cfgs: Vec::new(),
        has_body: true,
        constructs,
        nested: Vec::new(),
    }
}

fn with_cfg(item: RustItem, cfg: CfgMeta) -> RustItem {
    match item {
        RustItem::Fn { name, start_line, end_line, test_attr, mut cfgs, has_body, constructs, nested } => {
            cfgs.push(cfg);
            RustItem::Fn { name, start_line, end_line, test_attr, cfgs, has_body, constructs, nested }
        }
        RustItem::Impl { self_ty, mut cfgs, items } => {
            cfgs.push(cfg);
            RustItem::Impl { self_ty, cfgs, items }
        }
        RustItem::Trait { name, mut cfgs, items } => {
            cfgs.push(cfg);
            RustItem::Trait { name, cfgs, items }
        }
        RustItem::Mod { mut cfgs, items } => {
            cfgs.push(cfg);
            RustItem::Mod { cfgs, items }
        }
        other => other,
    }
}

fn test_fn(name: &str, constructs: Vec<Construct>) -> RustItem {
    match fn_item(name, 1, constructs) {
        RustItem::Fn { name, start_line, end_line, cfgs, has_body, constructs, nested, .. } => {
            RustItem::Fn { name, start_line, end_line, test_attr: true, cfgs, has_body, constructs, nested }
        }
        other => other,
    }
}

fn ident(name: &str) -> CfgMeta {
    CfgMeta::Path(Some(name.to_owned()))
}

fn list(name: &str, items: Vec<CfgMeta>) -> CfgMeta {
    CfgMeta::List(Some(name.to_owned()), items)
}

fn impl_of(ty: Option<&str>, items: Vec<RustItem>) -> RustItem {
    RustItem::Impl { self_ty: ty.map(str::to_owned), cfgs: Vec::new(), items }
}

fn trait_of(name: &str, items: Vec<RustItem>) -> RustItem {
    RustItem::Trait { name: name.to_owned(), cfgs: Vec::new(), items }
}

fn mod_of(items: Vec<RustItem>) -> RustItem {
    RustItem::Mod { cfgs: Vec::new(), items }
}

fn struct_item() -> RustItem {
    RustItem::Other { items: Vec::new() }
}

fn cyclo(items: Vec<RustItem>) -> Vec<FunctionComplexity> {
    functions_of("t.rs", &items)
}

fn names(fns: &[FunctionComplexity]) -> Vec<&str> {
    fns.iter().map(|f| f.name.as_str()).collect()
}

// fn trivial() { let x = 1; }
#[test]
fn complexity_straight_line_is_one() {
    let fns = cyclo(vec![fn_item("trivial", 1, vec![])]);
    assert_eq!(fns.len(), 1);
    assert_eq!(fns[0].complexity, 1);
    assert_eq!(fns[0].name, "trivial");
}

// fn f(x: i32) { if x > 0 { x; } }
#[test]
fn complexity_if_adds_one() {
    let fns = cyclo(vec![fn_item("f", 1, vec![Construct::If])]);
    assert_eq!(fns[0].complexity, 2);
}

// fn f(a: bool, b: bool) { let _ = a && b; }
#[test]
fn and_adds_one() {
    let fns = cyclo(vec![fn_item("f", 1, vec![Construct::LogicalAnd])]);
    assert_eq!(fns[0].complexity, 2);
}

// fn f(x: i32) { match x { 0 => {}, 1 => {}, _ => {} } }
#[test]
fn three_match_arms_add_three() {
    let arms = vec![Construct::MatchArm, Construct::MatchArm, Construct::MatchArm];
    assert_eq!(cyclo(vec![fn_item("f", 1, arms)])[0].complexity, 4);
}

// #[test] fn t() { if true {} } fn keep() {}
fn test_and_keep() -> Vec<RustItem> {
    vec![test_fn("t", vec![Construct::If]), fn_item("keep", 1, vec![])]
}

#[test]
fn complexity_test_functions_are_skipped() {
    let fns = cyclo(test_and_keep());
    assert_eq!(names(&fns), vec!["keep"]);
}

#[test]
fn mod_test_functions_are_skipped() {
    let fns = cyclo(test_and_keep());
    assert_eq!(fns.len(), 1);
    assert_eq!(fns[0].name, "keep");
}

// #[cfg(test)] fn helper() { if true {} } fn keep() {}
fn cfg_test_helper() -> Vec<RustItem> {
    vec![with_cfg(fn_item("helper", 1, vec![Construct::If]), ident("test")), fn_item("keep", 1, vec![])]
}

#[test]
fn complexity_cfg_test_helper_is_skipped() {
    assert_eq!(names(&cyclo(cfg_test_helper())), vec!["keep"]);
}

#[test]
fn mod_cfg_test_helper_is_skipped() {
    let fns = cyclo(cfg_test_helper());
    assert_eq!(fns.len(), 1);
    assert_eq!(fns[0].name, "keep");
}

// struct Foo; #[cfg(test)] impl Foo { fn bar(&self) { if true {} } }
fn cfg_test_impl() -> Vec<RustItem> {
    vec![
        struct_item(),
        with_cfg(impl_of(Some("Foo"), vec![fn_item("bar", 1, vec![Construct::If])]), ident("test")),
    ]
}

#[test]
fn complexity_cfg_test_impl_is_skipped() {
    assert!(cyclo(cfg_test_impl()).is_empty());
}

#[test]
fn mod_cfg_test_impl_is_skipped() {
    assert!(cyclo(cfg_test_impl()).is_empty());
}

// #[cfg(all(test, feature = "x"))] fn helper() { if true {} } fn keep() {}
fn cfg_all_test() -> Vec<RustItem> {
    let cfg = list("all", vec![ident("test"), CfgMeta::Other]);
    vec![with_cfg(fn_item("helper", 1, vec![Construct::If]), cfg), fn_item("keep", 1, vec![])]
}

#[test]
fn complexity_cfg_all_test_is_skipped() {
    assert_eq!(names(&cyclo(cfg_all_test())), vec!["keep"]);
}

#[test]
fn mod_cfg_all_test_is_skipped() {
    let fns = cyclo(cfg_all_test());
    assert_eq!(fns.len(), 1);
    assert_eq!(fns[0].name, "keep");
}

// #[cfg(any(test, unix))] fn f() { if true {} }
fn cfg_any_test_or_unix() -> Vec<RustItem> {
    vec![with_cfg(fn_item("f", 1, vec![Construct::If]), list("any", vec![ident("test"), ident("unix")]))]
}

#[test]
fn complexity_cfg_any_test_or_unix_is_kept() {
    assert_eq!(names(&cyclo(cfg_any_test_or_unix())), vec!["f"]);
}

#[test]
fn mod_cfg_any_test_or_unix_is_kept() {
    let fns = cyclo(cfg_any_test_or_unix());
    assert_eq!(fns.len(), 1);
    assert_eq!(fns[0].name, "f");
}

// #[cfg(test)] mod tests { fn helper() { if true {} } } fn keep() {}
fn cfg_test_mod() -> Vec<RustItem> {
    vec![
        with_cfg(mod_of(vec![fn_item("helper", 1, vec![Construct::If])]), ident("test")),
        fn_item("keep", 1, vec![]),
    ]
}

#[test]
fn complexity_cfg_test_mod_is_skipped() {
    assert_eq!(names(&cyclo(cfg_test_mod())), vec!["keep"]);
}

#[test]
fn mod_cfg_test_mod_is_skipped() {
    let fns = cyclo(cfg_test_mod());
    assert_eq!(fns.len(), 1);
    assert_eq!(fns[0].name, "keep");
}

// struct Foo; impl Foo { fn bar(&self) { if true {} } }
fn foo_impl() -> Vec<RustItem> {
    vec![struct_item(), impl_of(Some("Foo"), vec![fn_item("bar", 1, vec![Construct::If])])]
}

#[test]
fn complexity_impl_methods_are_prefixed() {
    let fns = cyclo(foo_impl());
    assert_eq!(fns[0].name, "Foo::bar");
    assert_eq!(fns[0].complexity, 2);
}

#[test]
fn mod_impl_methods_are_prefixed() {
    let fns = cyclo(foo_impl());
    assert_eq!(fns[0].name, "Foo::bar");
    assert_eq!(fns[0].complexity, 2);
}

// fn f() { loop { break; } }
#[test]
fn loop_adds_one() {
    assert_eq!(cyclo(vec![fn_item("f", 1, vec![Construct::Loop])])[0].complexity, 2);
}

// fn f(a: i32, b: i32) { let _ = a & b; }
#[test]
fn bitwise_and_does_not_add() {
    assert_eq!(cyclo(vec![fn_item("f", 1, vec![])])[0].complexity, 1);
}

// fn f() { let _ = || { if true {} }; }
#[test]
fn closure_decisions_fold_into_enclosing_fn() {
    let fns = cyclo(vec![fn_item("f", 1, vec![Construct::Closure, Construct::If])]);
    assert_eq!(fns.len(), 1);
    assert_eq!(fns[0].complexity, 2);
}

// fn outer() { fn inner() { if true {} } }
fn outer_inner() -> Vec<RustItem> {
    let inner = fn_item("inner", 1, vec![Construct::If]);
    match fn_item("outer", 1, vec![]) {
        RustItem::Fn { name, start_line, end_line, test_attr, cfgs, has_body, constructs, .. } => {
            vec![RustItem::Fn { name, start_line, end_line, test_attr, cfgs, has_body, constructs, nested: vec![inner] }]
        }
        other => vec![other],
    }
}

#[test]
fn complexity_nested_fn_is_scored_separately() {
    let fns = cyclo(outer_inner());
    assert_eq!(fns.len(), 2);
    assert_eq!(fns[0].name, "outer");
    assert_eq!(fns[0].complexity, 1);
    assert_eq!(fns[1].name, "inner");
    assert_eq!(fns[1].complexity, 2);
}

#[test]
fn mod_nested_fn_is_scored_separately() {
    let fns = cyclo(outer_inner());
    assert_eq!(fns.len(), 2);
    assert_eq!(fns[0].name, "outer");
    assert_eq!(fns[0].complexity, 1);
    assert_eq!(fns[1].name, "inner");
    assert_eq!(fns[1].complexity, 2);
}

// trait T { fn m(&self) { if true {} } }
fn trait_default() -> Vec<RustItem> {
    vec![trait_of("T", vec![fn_item("m", 1, vec![Construct::If])])]
}

#[test]
fn complexity_trait_default_is_scored() {
    let fns = cyclo(trait_default());
    assert_eq!(fns.len(), 1);
    assert_eq!(fns[0].name, "T::m");
    assert_eq!(fns[0].complexity, 2);
}

#[test]
fn mod_trait_default_is_scored() {
    let fns = cyclo(trait_default());
    assert_eq!(fns.len(), 1);
    assert_eq!(fns[0].name, "T::m");
    assert_eq!(fns[0].complexity, 2);
}

// fn f() { m!(if true {}); }  (the macro body parses as an `if`)
#[test]
fn parseable_macro_tokens_add_decisions() {
    assert_eq!(cyclo(vec![fn_item("f", 1, vec![Construct::If])])[0].complexity, 2);
}

// fn f() { opaque!(@@@); }  (the macro body does not parse)
#[test]
fn opaque_macro_tokens_do_not_add() {
    assert_eq!(cyclo(vec![fn_item("f", 1, vec![])])[0].complexity, 1);
}

// #[cfg(any(test))] fn helper() { if true {} } fn keep() {}
#[test]
fn cfg_any_test_only_is_skipped() {
    let helper = with_cfg(fn_item("helper", 1, vec![Construct::If]), list("any", vec![ident("test")]));
    let fns = cyclo(vec![helper, fn_item("keep", 1, vec![])]);
    assert_eq!(fns.len(), 1);
    assert_eq!(fns[0].name, "keep");
}

// #[cfg(feature = "x")] fn f() { if true {} }
#[test]
fn cfg_feature_is_kept() {
    let fns = cyclo(vec![with_cfg(fn_item("f", 1, vec![Construct::If]), CfgMeta::Other)]);
    assert_eq!(fns.len(), 1);
    assert_eq!(fns[0].name, "f");
}

// mod inner { fn f() { if true {} } }
#[test]
fn nested_mod_functions_are_scored() {
    let fns = cyclo(vec![mod_of(vec![fn_item("f", 1, vec![Construct::If])])]);
    assert_eq!(fns.len(), 1);
    assert_eq!(fns[0].name, "f");
}

// #[cfg(test)] trait T { fn m(&self) { if true {} } }
#[test]
fn cfg_test_trait_is_skipped() {
    let t = with_cfg(trait_of("T", vec![fn_item("m", 1, vec![Construct::If])]), ident("test"));
    assert!(cyclo(vec![t]).is_empty());
}

// struct Foo; impl Foo { #[test] fn t() { if true {} } fn keep(&self) {} }
#[test]
fn test_impl_method_is_skipped() {
    let i = impl_of(Some("Foo"), vec![test_fn("t", vec![Construct::If]), fn_item("keep", 1, vec![])]);
    let fns = cyclo(vec![struct_item(), i]);
    assert_eq!(fns.len(), 1);
    assert_eq!(fns[0].name, "Foo::keep");
}

// trait T { fn m(&self); }
#[test]
fn trait_declaration_without_default_is_skipped() {
    let m = match fn_item("m", 1, vec![]) {
        RustItem::Fn { name, start_line, end_line, test_attr, cfgs, constructs, nested, .. } => {
            RustItem::Fn { name, start_line, end_line, test_attr, cfgs, has_body: false, constructs, nested }
        }
        other => other,
    };
    assert!(cyclo(vec![trait_of("T", vec![m])]).is_empty());
}

// trait T { #[test] fn t(&self) { if true {} } fn keep(&self) {} }
#[test]
fn test_trait_method_is_skipped() {
    let t = trait_of("T", vec![test_fn("t", vec![Construct::If]), fn_item("keep", 1, vec![])]);
    let fns = cyclo(vec![t]);
    assert_eq!(fns.len(), 1);
    assert_eq!(fns[0].name, "T::keep");
}

// impl (u8, u8) { fn m() {} }
#[test]
fn tuple_impl_method_is_unprefixed() {
    let fns = cyclo(vec![impl_of(None, vec![fn_item("m", 1, vec![])])]);
    assert_eq!(fns.len(), 1);
    assert_eq!(fns[0].name, "m");
}

// The README's cyclomatic rules on the constructs that the tests above
// do not reach.

#[test]
fn match_guard_and_let_else_each_add_one() {
    let cs = [Construct::MatchArm, Construct::MatchGuard, Construct::MatchArm, Construct::LetElse];
    assert_eq!(cyclomatic_count(&cs), 5);
}

#[test]
fn else_closures_async_and_labels_add_nothing() {
    let cs = [Construct::If, Construct::Else, Construct::Closure, Construct::AsyncBlock, Construct::LabeledJump];
    assert_eq!(cyclomatic_count(&cs), 2);
}

#[test]
fn each_branch_construct_adds_one() {
    let cs = [
        Construct::ForLoop,
        Construct::While,
        Construct::Loop,
        Construct::LogicalOr,
        Construct::LogicalAnd,
        Construct::Try,
    ];
    assert_eq!(cyclomatic_count(&cs), 7);
}

#[test]
fn rows_carry_file_and_span() {
    let fns = functions_of("src/a.rs", &[fn_item("f", 3, vec![])]);
    assert_eq!(fns[0].file, "src/a.rs");
    assert_eq!((fns[0].start_line, fns[0].end_line), (3, 3));
}

#[test]
fn test_function_hides_what_it_contains() {
    let inner = fn_item("inner", 1, vec![]);
    let outer = match test_fn("outer", vec![]) {
        RustItem::Fn { name, start_line, end_line, test_attr, cfgs, has_body, constructs, .. } => {
            RustItem::Fn { name, start_line, end_line, test_attr, cfgs, has_body, constructs, nested: vec![inner] }
        }
        other => other,
    };
    assert!(cyclo(vec![outer]).is_empty());
}

#[test]
fn unparsable_source_is_a_parse_error_naming_the_file() {
    match analyze_source("src/bad.rs", Err("expected `fn`".to_owned())) {
        Err(Error::Parse(m)) => assert_eq!(m, "src/bad.rs: expected `fn`"),
        other => panic!("unexpected {other:?}"),
    }
    let rows = analyze_source("src/ok.rs", Ok(vec![fn_item("f", 2, vec![Construct::If])]));
    assert_eq!(rows.map(|r| r.len()).unwrap_or(0), 1);
}
