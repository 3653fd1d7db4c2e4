//! Complexity metrics and source spans for Go functions.
use crate::error::Error;
use crate::go::cognitive::{self, capped, cognitive};
use crate::go::cyclomatic::{self, cyclomatic};
use crate::go::structure::{problem_text, structure_check};
use crate::go::visitor::{self, metric_value, rows_for};
use crate::merge::FunctionComplexity;
use crate::metric::Metric;
use vstd::prelude::*;

verus! {

/// The selected metric of a function body.
pub fn count_metric(metric: Metric, body: &[u8]) -> (n: usize)
    ensures
        n == metric_value(metric, body@),
{
    match metric {
        Metric::Cyclomatic => cyclomatic::count(body),
        Metric::Cognitive => cognitive::count(body),
    }
}

/// Parses `source` as if it lived at `path`: every named function with its
/// lines and complexity, or a collect error when the source fails the
/// structural scan.
pub fn analyze_source(path: &str, source: &str, metric: Metric) -> (r: Result<
    Vec<FunctionComplexity>,
    Error,
>)
    ensures
        structure_check(vstd::utf8::encode_utf8(source@)) matches Err(p) ==> (r matches Err(
            Error::Collect(m),
        ) && m@ == path@ + ": "@ + problem_text(p)),
        structure_check(vstd::utf8::encode_utf8(source@)) is Ok ==> (r matches Ok(rows) && rows_for(
            rows@,
            path@,
            vstd::utf8::encode_utf8(source@),
            metric,
        )),
{
    visitor::analyze_source(path, source, metric)
}

} // verus!
