//! Complexity metric selection shared by language frontends.
use crate::text::{concat, str_eq};
use vstd::prelude::*;

verus! {

/// Which complexity metric to apply to each function body.
#[derive(Debug, Clone, Copy, PartialEq, Eq, Structural)]
pub enum Metric {
    /// Cyclomatic complexity (one plus each decision point).
    Cyclomatic,
    /// Cognitive complexity (nesting-weighted control flow).
    Cognitive,
}

/// The command-line name of a metric.
pub open spec fn metric_name(m: Metric) -> Seq<char> {
    match m {
        Metric::Cyclomatic => "cyclomatic"@,
        Metric::Cognitive => "cognitive"@,
    }
}

/// The message for a metric name that is not recognised.
pub open spec fn invalid_metric_message(value: Seq<char>) -> Seq<char> {
    "invalid --metric `"@ + value + "`"@
}

impl Metric {
    /// Parses a metric from its command-line name.
    pub fn parse(value: &str) -> (r: Result<Metric, String>)
        ensures
            value@ == metric_name(Metric::Cyclomatic) ==> r == Ok::<Metric, String>(Metric::Cyclomatic),
            value@ == metric_name(Metric::Cognitive) ==> r == Ok::<Metric, String>(Metric::Cognitive),
            value@ != metric_name(Metric::Cyclomatic) && value@ != metric_name(Metric::Cognitive) ==> (
            r matches Err(e) && e@ == invalid_metric_message(value@)),
    {
        proof {
            reveal_strlit("cyclomatic");
            reveal_strlit("cognitive");
            assert("cyclomatic"@.len() != "cognitive"@.len());
        }
        if str_eq(value, "cyclomatic") {
            Ok(Metric::Cyclomatic)
        } else if str_eq(value, "cognitive") {
            Ok(Metric::Cognitive)
        } else {
            let head = concat("invalid --metric `", value);
            Err(concat(head.as_str(), "`"))
        }
    }

    /// The command-line name of this metric.
    pub fn as_str(self) -> (s: &'static str)
        ensures
            s@ == metric_name(self),
    {
        match self {
            Metric::Cyclomatic => "cyclomatic",
            Metric::Cognitive => "cognitive",
        }
    }

    /// The command-line name of this metric, owned.
    pub fn to_string(&self) -> (s: String)
        ensures
            s@ == metric_name(*self),
    {
        String::from_str(self.as_str())
    }
}

impl std::str::FromStr for Metric {
    type Err = String;

    fn from_str(value: &str) -> (r: Result<Metric, String>)
        ensures
            value@ == metric_name(Metric::Cyclomatic) ==> r == Ok::<Metric, String>(Metric::Cyclomatic),
            value@ == metric_name(Metric::Cognitive) ==> r == Ok::<Metric, String>(Metric::Cognitive),
            value@ != metric_name(Metric::Cyclomatic) && value@ != metric_name(Metric::Cognitive) ==> (
            r matches Err(e) && e@ == invalid_metric_message(value@)),
    {
        Metric::parse(value)
    }
}

/// Each metric has a name of its own, so the name a metric is shown with
/// reads back as that metric.
pub proof fn lemma_metric_names_differ(a: Metric, b: Metric)
    ensures
        metric_name(a) == metric_name(b) ==> a == b,
{
    reveal_strlit("cyclomatic");
    reveal_strlit("cognitive");
    assert(metric_name(Metric::Cyclomatic).len() != metric_name(Metric::Cognitive).len());
}

impl Metric {
    /// The default pass/fail threshold: 15 for either metric.
    pub fn default_threshold(self) -> (g: u32)
        ensures
            g == 15,
    {
        match self {
            Metric::Cyclomatic => 15,
            Metric::Cognitive => 15,
        }
    }
}

} // verus!
