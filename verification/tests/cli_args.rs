use crap_analyzer::cargo::cli::{parse_args, Action, ThresholdCheck};
use crap_analyzer::cargo::error::Error;
use crap_analyzer::merge::MissingPolicy;

fn argv(args: &[&str]) -> Vec<String> {
    std::iter::once("cargo-crap")
        .chain(args.iter().copied())
        .map(str::to_owned)
        .collect()
}

fn check(text: &str) -> ThresholdCheck {
    match text.parse::<f64>() {
        Err(_) => ThresholdCheck::Unparsable,
        Ok(v) if !v.is_finite() || v < 0.0 => ThresholdCheck::OutOfRange,
        Ok(_) => ThresholdCheck::Valid,
    }
}

fn parse(args: &[&str]) -> Result<Action, Error> {
    let raw = argv(args);
    let checks: Vec<ThresholdCheck> = raw.iter().map(|a| check(a)).collect();
    parse_args(raw, &checks)
}

fn usage(r: Result<Action, Error>) -> String {
    match r {
        Err(Error::Usage(m)) => m,
        _ => String::new(),
    }
}

#[test]
fn strips_cargo_subcommand_and_parses_flags() {
    let action = parse(&["crap", "--lcov", "lcov.info", "--summary"]);
    assert!(matches!(
        action,
        Ok(Action::Run(ref args))
            if args.lcov == "lcov.info" && args.summary && !args.fail_above
    ));
}

#[test]
fn help_and_version_short_circuit() {
    assert!(matches!(parse(&["--help"]), Ok(Action::Help)));
    assert!(matches!(parse(&["crap", "-V"]), Ok(Action::Version)));
}

#[test]
fn missing_lcov_is_usage() {
    assert!(parse(&[]).is_err());
}

#[test]
fn workspace_conflicts_with_package() {
    let err = parse(&["--lcov", "x.info", "--workspace", "-p", "core"]);
    assert!(err.is_err());
}

#[test]
fn unknown_flag_is_usage() {
    assert!(parse(&["--lcov", "x", "--nope"]).is_err());
}

#[test]
fn parses_missing_policy() {
    let action = parse(&["--lcov", "x", "--missing", "skip"]);
    assert!(matches!(
        action,
        Ok(Action::Run(ref args)) if args.missing == MissingPolicy::Skip
    ));
}

#[test]
fn usage_messages_name_the_problem() {
    assert_eq!(usage(parse(&[])), "missing required --lcov <file>");
    assert_eq!(
        usage(parse(&["--lcov", "x", "--workspace", "-p", "a"])),
        "--workspace conflicts with --package / -p"
    );
    assert_eq!(usage(parse(&["--lcov", "x", "--nope"])), "unknown flag `--nope`");
    assert_eq!(usage(parse(&["--lcov", "x", "stray"])), "unexpected argument `stray`");
    assert_eq!(usage(parse(&["--lcov"])), "--lcov requires a value");
    assert_eq!(usage(parse(&["--lcov", "x", "--threshold", "abc"])), "invalid --threshold `abc`");
    assert_eq!(
        usage(parse(&["--lcov", "x", "--threshold", "-1"])),
        "--threshold must be a non-negative number"
    );
    assert_eq!(
        usage(parse(&["--lcov", "x", "--missing", "maybe"])),
        "invalid --missing `maybe` (pessimistic|optimistic|skip)"
    );
    assert_eq!(usage(parse(&["--threshold", "abc", "--nope"])), "invalid --threshold `abc`");
}

#[test]
fn run_options_are_collected() {
    match parse(&["--lcov", "c.info", "--path", "src", "--threshold", "12.5", "-p", "a", "--package", "b", "--fail-above"]) {
        Ok(Action::Run(args)) => {
            assert_eq!(args.path, "src");
            assert_eq!(args.threshold.as_deref(), Some("12.5"));
            assert_eq!(args.packages, vec!["a".to_owned(), "b".to_owned()]);
            assert!(args.fail_above);
            assert!(!args.workspace);
            assert_eq!(args.missing, MissingPolicy::Pessimistic);
        }
        _ => panic!("expected a run"),
    }
    match parse(&["--lcov", "c.info"]) {
        Ok(Action::Run(args)) => {
            assert_eq!(args.path, ".");
            assert!(args.threshold.is_none());
        }
        _ => panic!("expected a run"),
    }
    assert!(matches!(parse(&["--lcov", "x", "-h", "--nope"]), Ok(Action::Help)));
}
