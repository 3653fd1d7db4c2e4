//! Risk bands of a change-risk score.
use crate::text::{concat, str_eq};
use vstd::prelude::*;

verus! {

/// Fixed risk band of a score.
#[derive(Debug, Clone, Copy, PartialEq, Eq, Structural)]
pub enum Risk {
    /// Score at or below 8.
    Low,
    /// Score above 8 and at or below 15.
    Acceptable,
    /// Score above 15 and at or below 25.
    Moderate,
    /// Score above 25, or a non-finite score.
    High,
}

/// The name of a risk band.
pub open spec fn risk_name(r: Risk) -> Seq<char> {
    match r {
        Risk::Low => "low"@,
        Risk::Acceptable => "acceptable"@,
        Risk::Moderate => "moderate"@,
        Risk::High => "high"@,
    }
}

/// The message for a risk name that is not recognised.
pub open spec fn invalid_risk_message(value: Seq<char>) -> Seq<char> {
    "invalid risk `"@ + value + "`"@
}

impl Risk {
    /// Parses a risk band from its name.
    pub fn parse(value: &str) -> (r: Result<Risk, String>)
        ensures
            value@ == risk_name(Risk::Low) ==> r == Ok::<Risk, String>(Risk::Low),
            value@ == risk_name(Risk::Acceptable) ==> r == Ok::<Risk, String>(Risk::Acceptable),
            value@ == risk_name(Risk::Moderate) ==> r == Ok::<Risk, String>(Risk::Moderate),
            value@ == risk_name(Risk::High) ==> r == Ok::<Risk, String>(Risk::High),
            value@ != risk_name(Risk::Low) && value@ != risk_name(Risk::Acceptable) && value@
                != risk_name(Risk::Moderate) && value@ != risk_name(Risk::High) ==> (r matches Err(
                e,
            ) && e@ == invalid_risk_message(value@)),
    {
        proof {
            reveal_strlit("low");
            reveal_strlit("acceptable");
            reveal_strlit("moderate");
            reveal_strlit("high");
            assert("low"@[0] != "acceptable"@[0]);
            assert("low"@[0] != "moderate"@[0]);
            assert("low"@[0] != "high"@[0]);
            assert("acceptable"@[0] != "moderate"@[0]);
            assert("acceptable"@[0] != "high"@[0]);
            assert("moderate"@[0] != "high"@[0]);
        }
        if str_eq(value, "low") {
            Ok(Risk::Low)
        } else if str_eq(value, "acceptable") {
            Ok(Risk::Acceptable)
        } else if str_eq(value, "moderate") {
            Ok(Risk::Moderate)
        } else if str_eq(value, "high") {
            Ok(Risk::High)
        } else {
            let head = concat("invalid risk `", value);
            Err(concat(head.as_str(), "`"))
        }
    }

    /// The name of this risk band.
    pub fn as_str(self) -> (s: &'static str)
        ensures
            s@ == risk_name(self),
    {
        match self {
            Risk::Low => "low",
            Risk::Acceptable => "acceptable",
            Risk::Moderate => "moderate",
            Risk::High => "high",
        }
    }

    /// The name of this risk band, owned.
    pub fn to_string(&self) -> (s: String)
        ensures
            s@ == risk_name(*self),
    {
        String::from_str(self.as_str())
    }
}

impl std::str::FromStr for Risk {
    type Err = String;

    fn from_str(value: &str) -> (r: Result<Risk, String>)
        ensures
            value@ == risk_name(Risk::Low) ==> r == Ok::<Risk, String>(Risk::Low),
            value@ == risk_name(Risk::Acceptable) ==> r == Ok::<Risk, String>(Risk::Acceptable),
            value@ == risk_name(Risk::Moderate) ==> r == Ok::<Risk, String>(Risk::Moderate),
            value@ == risk_name(Risk::High) ==> r == Ok::<Risk, String>(Risk::High),
            value@ != risk_name(Risk::Low) && value@ != risk_name(Risk::Acceptable) && value@
                != risk_name(Risk::Moderate) && value@ != risk_name(Risk::High) ==> (r matches Err(
                e,
            ) && e@ == invalid_risk_message(value@)),
    {
        Risk::parse(value)
    }
}

/// Each risk band has a name of its own, so the name a band is shown with
/// reads back as that band.
pub proof fn lemma_risk_names_differ(a: Risk, b: Risk)
    ensures
        risk_name(a) == risk_name(b) ==> a == b,
{
    reveal_strlit("low");
    reveal_strlit("acceptable");
    reveal_strlit("moderate");
    reveal_strlit("high");
    assert(risk_name(Risk::Low).len() == 3);
    assert(risk_name(Risk::Acceptable).len() == 10);
    assert(risk_name(Risk::Moderate).len() == 8);
    assert(risk_name(Risk::High).len() == 4);
}

/// How many scores fall in each risk band.
#[derive(Debug, Clone, Copy, PartialEq, Eq)]
pub struct RiskCounts {
    pub low: usize,
    pub acceptable: usize,
    pub moderate: usize,
    pub high: usize,
}

/// How many of the first `n` bands are `r`.
pub open spec fn band_count(risks: Seq<Risk>, r: Risk, n: nat) -> nat
    decreases n,
{
    if n == 0 || n > risks.len() {
        0
    } else {
        band_count(risks, r, (n - 1) as nat) + if risks[n - 1] == r { 1nat } else { 0nat }
    }
}

/// Counts one more score in band `risk`.
pub fn increment_risk(counts: &mut RiskCounts, risk: Risk)
    requires
        old(counts).low < usize::MAX,
        old(counts).acceptable < usize::MAX,
        old(counts).moderate < usize::MAX,
        old(counts).high < usize::MAX,
    ensures
        final(counts).low == old(counts).low + if risk == Risk::Low { 1int } else { 0int },
        final(counts).acceptable == old(counts).acceptable + if risk == Risk::Acceptable { 1int } else { 0int },
        final(counts).moderate == old(counts).moderate + if risk == Risk::Moderate { 1int } else { 0int },
        final(counts).high == old(counts).high + if risk == Risk::High { 1int } else { 0int },
{
    match risk {
        Risk::Low => counts.low = counts.low + 1,
        Risk::Acceptable => counts.acceptable = counts.acceptable + 1,
        Risk::Moderate => counts.moderate = counts.moderate + 1,
        Risk::High => counts.high = counts.high + 1,
    }
}

/// How many of `risks` fall in each band.
pub fn risk_counts(risks: &[Risk]) -> (c: RiskCounts)
    ensures
        c.low == band_count(risks@, Risk::Low, risks@.len() as nat),
        c.acceptable == band_count(risks@, Risk::Acceptable, risks@.len() as nat),
        c.moderate == band_count(risks@, Risk::Moderate, risks@.len() as nat),
        c.high == band_count(risks@, Risk::High, risks@.len() as nat),
{
    let mut counts = RiskCounts { low: 0, acceptable: 0, moderate: 0, high: 0 };
    let mut k: usize = 0;
    while k < risks.len()
        invariant
            k <= risks@.len(),
            counts.low == band_count(risks@, Risk::Low, k as nat),
            counts.acceptable == band_count(risks@, Risk::Acceptable, k as nat),
            counts.moderate == band_count(risks@, Risk::Moderate, k as nat),
            counts.high == band_count(risks@, Risk::High, k as nat),
            counts.low + counts.acceptable + counts.moderate + counts.high == k,
        decreases risks.len() - k,
    {
        increment_risk(&mut counts, risks[k]);
        k = k + 1;
    }
    counts
}

/// Every score falls in exactly one band: the band counts add up to the
/// number of scores.
pub proof fn lemma_bands_partition(risks: Seq<Risk>, n: nat)
    requires
        n <= risks.len(),
    ensures
        band_count(risks, Risk::Low, n) + band_count(risks, Risk::Acceptable, n) + band_count(risks, Risk::Moderate, n)
            + band_count(risks, Risk::High, n) == n,
    decreases n,
{
    if n > 0 {
        lemma_bands_partition(risks, (n - 1) as nat);
    }
}

} // verus!
