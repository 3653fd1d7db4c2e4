use crap_analyzer::cargo::cli::ThresholdCheck;
use crap_analyzer::score::{risk_counts, Risk};
use crap_analyzer::threshold::{parse_threshold, preset_value, ThresholdChoice, ThresholdPreset};

fn check(text: &str) -> ThresholdCheck {
    match text.parse::<f64>() {
        Err(_) => ThresholdCheck::Unparsable,
        Ok(v) if !v.is_finite() || v < 0.0 => ThresholdCheck::OutOfRange,
        Ok(_) => ThresholdCheck::Valid,
    }
}

fn value(text: &str) -> Result<f64, String> {
    match parse_threshold(text, check(text))? {
        ThresholdChoice::Preset(p) => Ok(f64::from(preset_value(p))),
        ThresholdChoice::Number => text.parse::<f64>().map_err(|e| e.to_string()),
    }
}

#[test]
fn presets_and_numbers() {
    assert_eq!(value("strict").unwrap_or(-1.0).to_bits(), 8.0_f64.to_bits());
    assert_eq!(value("lenient").unwrap_or(-1.0).to_bits(), 25.0_f64.to_bits());
    assert_eq!(value("15").unwrap_or(-1.0).to_bits(), 15.0_f64.to_bits());
    assert!(value("nope").is_err());
    assert!(value("-1").is_err());
}

#[test]
fn threshold_messages() {
    assert_eq!(value("nope"), Err("invalid --threshold `nope`".to_owned()));
    assert_eq!(value("inf"), Err("--threshold must be a non-negative number or strict|lenient".to_owned()));
    assert_eq!(parse_threshold("strict", ThresholdCheck::Unparsable), Ok(ThresholdChoice::Preset(ThresholdPreset::Strict)));
}

#[test]
fn risk_bands_are_counted() {
    let counts = risk_counts(&[Risk::Low, Risk::High, Risk::Acceptable, Risk::High, Risk::Moderate]);
    assert_eq!((counts.low, counts.acceptable, counts.moderate, counts.high), (1, 1, 1, 2));
    let none = risk_counts(&[]);
    assert_eq!(none.low + none.acceptable + none.moderate + none.high, 0);
}
