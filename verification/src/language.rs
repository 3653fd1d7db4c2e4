//! Report format selection and analysis targets shared by the frontends.
use crate::text::{concat, str_eq};
use vstd::prelude::*;

verus! {

/// How the finished report is written to stdout.
#[derive(Debug, Clone, Copy, PartialEq, Eq, Structural)]
pub enum ReportFormat {
    /// Human table or summary counts.
    Text,
    /// Versioned JSON envelope.
    Json,
}

/// The command-line name of a report format.
pub open spec fn format_name(f: ReportFormat) -> Seq<char> {
    match f {
        ReportFormat::Text => "text"@,
        ReportFormat::Json => "json"@,
    }
}

/// The message for a format name that is not recognised.
pub open spec fn invalid_format_message(value: Seq<char>) -> Seq<char> {
    "invalid --format `"@ + value + "`"@
}

impl ReportFormat {
    /// Parses a report format from its command-line name.
    pub fn parse(value: &str) -> (r: Result<ReportFormat, String>)
        ensures
            value@ == format_name(ReportFormat::Text) ==> r == Ok::<ReportFormat, String>(ReportFormat::Text),
            value@ == format_name(ReportFormat::Json) ==> r == Ok::<ReportFormat, String>(ReportFormat::Json),
            value@ != format_name(ReportFormat::Text) && value@ != format_name(ReportFormat::Json)
                ==> (r matches Err(e) && e@ == invalid_format_message(value@)),
    {
        proof {
            reveal_strlit("text");
            reveal_strlit("json");
            assert("text"@[0] != "json"@[0]);
        }
        if str_eq(value, "text") {
            Ok(ReportFormat::Text)
        } else if str_eq(value, "json") {
            Ok(ReportFormat::Json)
        } else {
            let head = concat("invalid --format `", value);
            Err(concat(head.as_str(), "`"))
        }
    }

    /// The command-line name of this format.
    pub fn as_str(self) -> (s: &'static str)
        ensures
            s@ == format_name(self),
    {
        match self {
            ReportFormat::Text => "text",
            ReportFormat::Json => "json",
        }
    }

    /// The command-line name of this format, owned.
    pub fn to_string(&self) -> (s: String)
        ensures
            s@ == format_name(*self),
    {
        String::from_str(self.as_str())
    }
}

impl std::str::FromStr for ReportFormat {
    type Err = String;

    fn from_str(value: &str) -> (r: Result<ReportFormat, String>)
        ensures
            value@ == format_name(ReportFormat::Text) ==> r == Ok::<ReportFormat, String>(ReportFormat::Text),
            value@ == format_name(ReportFormat::Json) ==> r == Ok::<ReportFormat, String>(ReportFormat::Json),
            value@ != format_name(ReportFormat::Text) && value@ != format_name(ReportFormat::Json)
                ==> (r matches Err(e) && e@ == invalid_format_message(value@)),
    {
        ReportFormat::parse(value)
    }
}

/// One source tree a language frontend asks the pipeline to analyze.
#[derive(Debug, Clone, PartialEq, Eq)]
pub struct Target {
    /// Directory to walk for sources.
    pub root: String,
    /// Package name when a workspace member was selected.
    pub crate_name: Option<String>,
    /// Nested roots the walker must not enter.
    pub skip: Vec<String>,
    /// Feature names treated as enabled when evaluating `#[cfg]`.
    pub enabled_features: Vec<String>,
}

/// Each report format has a name of its own, so the name a format is shown
/// with reads back as that format.
pub proof fn lemma_format_names_differ(a: ReportFormat, b: ReportFormat)
    ensures
        format_name(a) == format_name(b) ==> a == b,
{
    reveal_strlit("text");
    reveal_strlit("json");
    assert("text"@[0] != "json"@[0]);
}

} // verus!
