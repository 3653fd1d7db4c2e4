//! Named and numeric pass/fail thresholds as the command lines accept them.
use crate::cargo::cli::ThresholdCheck;
use crate::text::{concat, owned, str_eq};
use vstd::prelude::*;

verus! {

/// A named threshold.
#[derive(Debug, Clone, Copy, PartialEq, Eq, Structural)]
pub enum ThresholdPreset {
    /// `strict`: scores above 8 fail.
    Strict,
    /// `lenient`: scores above 25 fail.
    Lenient,
}

/// The score a named threshold stands for.
pub open spec fn preset_score(p: ThresholdPreset) -> nat {
    match p {
        ThresholdPreset::Strict => 8,
        ThresholdPreset::Lenient => 25,
    }
}

/// The score a named threshold stands for.
pub fn preset_value(p: ThresholdPreset) -> (v: u32)
    ensures
        v == preset_score(p),
{
    match p {
        ThresholdPreset::Strict => 8,
        ThresholdPreset::Lenient => 25,
    }
}

/// A threshold as given: a name, or a number whose text the caller reads.
#[derive(Debug, Clone, Copy, PartialEq, Eq, Structural)]
pub enum ThresholdChoice {
    /// A named threshold.
    Preset(ThresholdPreset),
    /// A finite, non-negative number (the text that was given).
    Number,
}

/// The named threshold `text` names.
pub open spec fn preset_named(text: Seq<char>) -> Option<ThresholdPreset> {
    if text == "strict"@ {
        Some(ThresholdPreset::Strict)
    } else if text == "lenient"@ {
        Some(ThresholdPreset::Lenient)
    } else {
        None
    }
}

/// What a `--threshold` value means: a name first, else a number, where
/// `check` says how `text` reads as a number.
pub open spec fn threshold_choice(text: Seq<char>, check: ThresholdCheck) -> Result<ThresholdChoice, Seq<char>> {
    match preset_named(text) {
        Some(p) => Ok(ThresholdChoice::Preset(p)),
        None => match check {
            ThresholdCheck::Valid => Ok(ThresholdChoice::Number),
            ThresholdCheck::Unparsable => Err("invalid --threshold `"@ + text + "`"@),
            ThresholdCheck::OutOfRange => Err("--threshold must be a non-negative number or strict|lenient"@),
        },
    }
}

/// The named threshold `text` names, if it names one.
pub fn named_threshold(text: &str) -> (r: Option<ThresholdPreset>)
    ensures
        r == preset_named(text@),
{
    proof {
        reveal_strlit("strict");
        reveal_strlit("lenient");
    }
    if str_eq(text, "strict") {
        Some(ThresholdPreset::Strict)
    } else if str_eq(text, "lenient") {
        Some(ThresholdPreset::Lenient)
    } else {
        None
    }
}

/// Reads a `--threshold` value: `strict`, `lenient`, or a finite,
/// non-negative number (`check` says how `text` reads as one).
pub fn parse_threshold(text: &str, check: ThresholdCheck) -> (r: Result<ThresholdChoice, String>)
    ensures
        match threshold_choice(text@, check) {
            Ok(c) => r == Ok::<ThresholdChoice, String>(c),
            Err(m) => r matches Err(x) && x@ == m,
        },
{
    if let Some(p) = named_threshold(text) {
        return Ok(ThresholdChoice::Preset(p));
    }
    match check {
        ThresholdCheck::Valid => Ok(ThresholdChoice::Number),
        ThresholdCheck::Unparsable => {
            let head = concat("invalid --threshold `", text);
            Err(concat(head.as_str(), "`"))
        },
        ThresholdCheck::OutOfRange => Err(owned("--threshold must be a non-negative number or strict|lenient")),
    }
}

} // verus!
