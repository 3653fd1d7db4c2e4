//! Argument short-circuits, flag conflicts, and exit codes shared by the
//! frontend binaries.
use crate::language::ReportFormat;
use crate::text::{owned, str_eq};
use vstd::prelude::*;

verus! {

/// Short-circuit argument result before full parsing.
#[derive(Debug, Clone, Copy, PartialEq, Eq, Structural)]
pub enum HelpOrVersion {
    /// `-h` / `--help`.
    Help,
    /// `-V` / `--version`.
    Version,
}

/// Some argument after the program name is `short` or `long`.
pub open spec fn has_flag_spec(raw: Seq<String>, short: Seq<char>, long: Seq<char>) -> bool {
    exists|i: int| 1 <= i < raw.len() && (#[trigger] raw[i]@ == short || raw[i]@ == long)
}

fn has_flag(raw: &[String], short: &str, long: &str) -> (r: bool)
    ensures
        r == has_flag_spec(raw@, short@, long@),
{
    let mut i: usize = 1;
    while i < raw.len()
        invariant
            1 <= i,
            forall|j: int| 1 <= j < i && j < raw@.len() ==> !(#[trigger] raw@[j]@ == short@ || raw@[j]@
                == long@),
        decreases raw.len() - i,
    {
        if str_eq(raw[i].as_str(), short) || str_eq(raw[i].as_str(), long) {
            assert(raw@[i as int]@ == short@ || raw@[i as int]@ == long@);
            return true;
        }
        i = i + 1;
    }
    false
}

/// Returns help or version when those flags appear after the program name;
/// help wins when both do.
pub fn help_or_version(raw: &[String]) -> (r: Option<HelpOrVersion>)
    ensures
        has_flag_spec(raw@, "-h"@, "--help"@) ==> r == Some(HelpOrVersion::Help),
        !has_flag_spec(raw@, "-h"@, "--help"@) && has_flag_spec(raw@, "-V"@, "--version"@) ==> r
            == Some(HelpOrVersion::Version),
        !has_flag_spec(raw@, "-h"@, "--help"@) && !has_flag_spec(raw@, "-V"@, "--version"@) ==> r
            is None,
{
    if has_flag(raw, "-h", "--help") {
        return Some(HelpOrVersion::Help);
    }
    if has_flag(raw, "-V", "--version") {
        return Some(HelpOrVersion::Version);
    }
    None
}

/// Rejects a summary combined with the JSON format.
pub fn reject_summary_json(summary: bool, format: ReportFormat) -> (r: Result<(), String>)
    ensures
        summary && format == ReportFormat::Json ==> (r matches Err(m) && m@
            == "--summary conflicts with --format json"@),
        !(summary && format == ReportFormat::Json) ==> r is Ok,
{
    if summary && format == ReportFormat::Json {
        return Err(owned("--summary conflicts with --format json"));
    }
    Ok(())
}

/// Color is used only when allowed by the environment and stdout is a terminal.
pub fn color_from_env(allow_color: bool, is_tty: bool) -> (r: bool)
    ensures
        r == (allow_color && is_tty),
{
    allow_color && is_tty
}

/// Exit status of a run: two when the report could not be emitted, one
/// when the fail-above gate tripped, and zero otherwise.
pub fn exit_code(write_ok: bool, gate_failed: bool) -> (code: u8)
    ensures
        !write_ok ==> code == 2,
        write_ok && gate_failed ==> code == 1,
        write_ok && !gate_failed ==> code == 0,
{
    if !write_ok {
        2
    } else if gate_failed {
        1
    } else {
        0
    }
}

} // verus!
