use crap_analyzer::error::Error;
use crap_analyzer::language::ReportFormat;
use crap_analyzer::merge::{CoverageJoin, MissingPolicy};
use crap_analyzer::metric::Metric;
use crap_analyzer::process::{
    color_from_env, exit_code, help_or_version, reject_summary_json, HelpOrVersion,
};
use crap_analyzer::ranges::merge_ranges;
use crap_analyzer::score::Risk;

#[test]
fn parses_metric_names() {
    assert_eq!("cyclomatic".parse::<Metric>().ok(), Some(Metric::Cyclomatic));
    assert_eq!("cognitive".parse::<Metric>().ok(), Some(Metric::Cognitive));
    assert!("nope".parse::<Metric>().is_err());
}

#[test]
fn displays_metric_names() {
    assert_eq!(Metric::Cyclomatic.to_string(), "cyclomatic");
    assert_eq!(Metric::Cognitive.to_string(), "cognitive");
}

#[test]
fn invalid_metric_message_quotes_the_value() {
    assert_eq!(
        "nope".parse::<Metric>().unwrap_err(),
        "invalid --metric `nope`"
    );
}

#[test]
fn parses_and_displays_report_format() {
    let parsed = [
        ("text", Some(ReportFormat::Text)),
        ("json", Some(ReportFormat::Json)),
        ("nope", None),
    ];
    for (input, expected) in parsed {
        assert_eq!(input.parse::<ReportFormat>().ok(), expected);
    }
    for format in [ReportFormat::Text, ReportFormat::Json] {
        assert_eq!(format.to_string().parse::<ReportFormat>().ok(), Some(format));
    }
}

#[test]
fn invalid_format_message_quotes_the_value() {
    assert_eq!(
        "xml".parse::<ReportFormat>().unwrap_err(),
        "invalid --format `xml`"
    );
}

#[test]
fn parses_and_displays_missing_policy() {
    let parsed = [
        ("pessimistic", Some(MissingPolicy::Pessimistic)),
        ("optimistic", Some(MissingPolicy::Optimistic)),
        ("skip", Some(MissingPolicy::Skip)),
        ("nope", None),
    ];
    for (input, expected) in parsed {
        assert_eq!(input.parse::<MissingPolicy>().ok(), expected);
    }
    for policy in [
        MissingPolicy::Pessimistic,
        MissingPolicy::Optimistic,
        MissingPolicy::Skip,
    ] {
        assert_eq!(policy.to_string().parse::<MissingPolicy>().ok(), Some(policy));
    }
}

#[test]
fn invalid_missing_message_quotes_the_value() {
    assert_eq!(
        "maybe".parse::<MissingPolicy>().unwrap_err(),
        "invalid --missing `maybe`"
    );
}

#[test]
fn coverage_join_display_matches_as_str() {
    for join in [
        CoverageJoin::Measured,
        CoverageJoin::Missing,
        CoverageJoin::Ambiguous,
    ] {
        assert_eq!(join.to_string(), join.as_str());
    }
    assert_eq!(CoverageJoin::Ambiguous.as_str(), "ambiguous");
}

#[test]
fn merge_ranges_collapses_overlap_and_adjacent() {
    assert_eq!(merge_ranges(vec![]), vec![]);
    assert_eq!(merge_ranges(vec![(3, 5)]), vec![(3, 5)]);
    assert_eq!(
        merge_ranges(vec![(10, 12), (1, 4), (3, 6), (8, 9)]),
        vec![(1, 6), (8, 12)]
    );
}

#[test]
fn merge_ranges_keeps_gapped_ranges_apart() {
    assert_eq!(merge_ranges(vec![(5, 6), (1, 2)]), vec![(1, 2), (5, 6)]);
    assert_eq!(merge_ranges(vec![(1, 2), (3, 3)]), vec![(1, 3)]);
}

#[test]
fn parses_and_displays_risk_names() {
    assert_eq!("low".parse::<Risk>().ok(), Some(Risk::Low));
    assert_eq!("acceptable".parse::<Risk>().ok(), Some(Risk::Acceptable));
    assert_eq!("moderate".parse::<Risk>().ok(), Some(Risk::Moderate));
    assert_eq!("high".parse::<Risk>().ok(), Some(Risk::High));
    assert!("nope".parse::<Risk>().is_err());
    assert_eq!(Risk::Low.to_string(), "low");
    assert_eq!(Risk::Acceptable.to_string(), "acceptable");
    assert_eq!(Risk::Moderate.to_string(), "moderate");
    assert_eq!(Risk::High.to_string(), "high");
}

#[test]
fn help_or_version_detects_short_and_long() {
    assert_eq!(
        help_or_version(&["bin".into(), "-h".into()]),
        Some(HelpOrVersion::Help)
    );
    assert_eq!(
        help_or_version(&["bin".into(), "--version".into()]),
        Some(HelpOrVersion::Version)
    );
    assert_eq!(help_or_version(&["bin".into(), "--summary".into()]), None);
}

#[test]
fn help_flag_in_program_position_is_ignored() {
    assert_eq!(help_or_version(&["-h".into()]), None);
    assert_eq!(
        help_or_version(&["bin".into(), "-V".into(), "--help".into()]),
        Some(HelpOrVersion::Help)
    );
}

#[test]
fn reject_summary_json_conflicts() {
    assert!(reject_summary_json(true, ReportFormat::Json).is_err());
    assert!(reject_summary_json(true, ReportFormat::Text).is_ok());
    assert!(reject_summary_json(false, ReportFormat::Json).is_ok());
    assert_eq!(
        reject_summary_json(true, ReportFormat::Json).unwrap_err(),
        "--summary conflicts with --format json"
    );
}

#[test]
fn color_from_env_requires_tty_and_no_color_unset() {
    assert!(color_from_env(true, true));
    assert!(!color_from_env(true, false));
    assert!(!color_from_env(false, true));
    assert!(!color_from_env(false, false));
}

#[test]
fn exit_code_reflects_write_and_gate() {
    assert_eq!(exit_code(false, false), 2);
    assert_eq!(exit_code(false, true), 2);
    assert_eq!(exit_code(true, true), 1);
    assert_eq!(exit_code(true, false), 0);
}

#[test]
fn source_is_set_only_for_io() {
    let io = Error::io("x", std::io::Error::other("e"));
    assert!(io.source().is_some());
    assert!(Error::coverage("c").source().is_none());
    assert!(Error::resolve("r").source().is_none());
    assert!(Error::collect("p").source().is_none());
}

#[test]
fn display_covers_every_variant() {
    assert_eq!(Error::coverage("c").to_string(), "c");
    assert_eq!(Error::resolve("r").to_string(), "r");
    assert_eq!(Error::collect("p").to_string(), "p");
    assert!(Error::io("x", std::io::Error::other("e")).to_string().contains('x'));
}

#[test]
fn io_error_text_follows_the_path() {
    assert_eq!(
        Error::io("dir/a.go", std::io::Error::other("boom")).to_string(),
        "dir/a.go: boom"
    );
}

#[test]
fn default_threshold_is_fifteen_for_both_metrics() {
    assert_eq!(f64::from(Metric::Cyclomatic.default_threshold()).to_bits(), 15.0_f64.to_bits());
    assert_eq!(f64::from(Metric::Cognitive.default_threshold()).to_bits(), 15.0_f64.to_bits());
}
