//! Join function spans with coverage line hits.
use crate::coverage::{span_count, FileCoverage, LineRatio};
use crate::path::{components, components_spec, parts_eq, texts};
use crate::path_index::{lookup_spec, Lookup, Parts, PathIndex};
use crate::ranges::{merge_ranges, merge_ranges_spec};
use crate::text::{concat, decimal, decimal_string, owned, str_eq};
use vstd::prelude::*;

verus! {

/// How to treat a function with no matching coverage data.
#[derive(Debug, Clone, Copy, PartialEq, Eq, Structural)]
pub enum MissingPolicy {
    /// Score as 0% covered.
    Pessimistic,
    /// Score as 100% covered.
    Optimistic,
    /// Drop the function from the report.
    Skip,
}

/// How the coverage of a joined function was obtained.
#[derive(Debug, Clone, Copy, PartialEq, Eq, Structural)]
pub enum CoverageJoin {
    /// Line hits came from a unique coverage path match.
    Measured,
    /// No path match or an empty instrumented span; the missing policy applied.
    Missing,
    /// Unresolved equal-rank path tie; the missing policy applied.
    Ambiguous,
}

/// One function's complexity and inclusive line span.
#[derive(Debug, Clone, PartialEq, Eq)]
pub struct FunctionComplexity {
    /// Source path as supplied to the walker.
    pub file: String,
    /// Free function name, or a qualified method name.
    pub name: String,
    /// One-based first line of the function.
    pub start_line: usize,
    /// One-based last line of the function body.
    pub end_line: usize,
    /// Selected metric value.
    pub complexity: usize,
}

/// A function plus the package it was walked from.
#[derive(Debug, Clone, PartialEq, Eq)]
pub struct LocatedFn {
    /// Complexity row.
    pub function: FunctionComplexity,
    /// Package name, if known (report display).
    pub crate_name: Option<String>,
    /// Path-index join key when it differs from the package name.
    pub join_key: Option<String>,
}

/// A function after the coverage join, before scoring.
#[derive(Debug, Clone, PartialEq, Eq)]
pub struct JoinedFn {
    /// Complexity row.
    pub function: FunctionComplexity,
    /// Package name, if known.
    pub crate_name: Option<String>,
    /// Covered over instrumented lines (policy ratios for missing data).
    pub coverage: LineRatio,
    /// How the coverage was obtained.
    pub coverage_join: CoverageJoin,
}

/// Text of an optional owned string.
pub open spec fn opt_string(o: Option<String>) -> Option<Seq<char>> {
    match o {
        Some(s) => Some(s@),
        None => None,
    }
}

/// Two function rows with the same content.
pub open spec fn same_fn(a: FunctionComplexity, b: FunctionComplexity) -> bool {
    a.file@ == b.file@ && a.name@ == b.name@ && a.start_line == b.start_line && a.end_line
        == b.end_line && a.complexity == b.complexity
}

/// `inner` lies within `outer` and is strictly smaller.
pub open spec fn is_nested_spec(outer: FunctionComplexity, inner: FunctionComplexity) -> bool {
    outer.start_line <= inner.start_line && inner.end_line <= outer.end_line && (inner.start_line
        > outer.start_line || inner.end_line < outer.end_line)
}

/// Spans of the functions among the first `n` that share `cur`'s file and nest inside it.
pub open spec fn nested_ranges(fns: Seq<LocatedFn>, cur: FunctionComplexity, n: nat) -> Seq<
    (usize, usize),
>
    decreases n,
{
    if n == 0 || n > fns.len() {
        Seq::empty()
    } else {
        let prev = nested_ranges(fns, cur, (n - 1) as nat);
        let other = fns[n - 1].function;
        if components_spec(other.file@) == components_spec(cur.file@) && is_nested_spec(cur, other) {
            prev.push((other.start_line, other.end_line))
        } else {
            prev
        }
    }
}

/// Lines of nested functions, coalesced, that an outer function is not charged for.
pub open spec fn exclusion(fns: Seq<LocatedFn>, i: int) -> Seq<(usize, usize)> {
    merge_ranges_spec(nested_ranges(fns, fns[i].function, fns.len()))
}

/// Package key used for the path lookup: the join key, else the package name.
pub open spec fn lookup_name(f: LocatedFn) -> Option<Seq<char>> {
    match f.join_key {
        Some(k) => Some(k@),
        None => opt_string(f.crate_name),
    }
}

/// Coverage assigned by the missing-data policy.
pub open spec fn policy_row(missing: MissingPolicy, join: CoverageJoin) -> Option<(LineRatio, CoverageJoin)> {
    match missing {
        MissingPolicy::Pessimistic => Some((LineRatio::none_covered(), join)),
        MissingPolicy::Optimistic => Some((LineRatio::all_covered(), join)),
        MissingPolicy::Skip => None,
    }
}

/// Coverage outcome of function `i`, or `None` when it is dropped.
pub open spec fn row_outcome(ix: PathIndex, fns: Seq<LocatedFn>, i: int, missing: MissingPolicy) -> Option<
    (LineRatio, CoverageJoin),
> {
    let f = fns[i].function;
    let ex = exclusion(fns, i);
    match lookup_spec(ix.keys(), components_spec(f.file@), lookup_name(fns[i])) {
        Lookup::Found(k) => {
            let e = ix.entries(k as int);
            let total = span_count(e, f.start_line, f.end_line, ex, false);
            if total == 0 {
                policy_row(missing, CoverageJoin::Missing)
            } else {
                Some(
                    (
                        LineRatio {
                            covered: span_count(e, f.start_line, f.end_line, ex, true) as usize,
                            total: total as usize,
                        },
                        CoverageJoin::Measured,
                    ),
                )
            }
        },
        Lookup::Ambiguous => policy_row(missing, CoverageJoin::Ambiguous),
        Lookup::Missing => policy_row(missing, CoverageJoin::Missing),
    }
}

/// Indices and outcomes of the kept rows among the first `n` functions.
pub open spec fn expected_rows(ix: PathIndex, fns: Seq<LocatedFn>, missing: MissingPolicy, n: nat) -> Seq<
    (int, LineRatio, CoverageJoin),
>
    decreases n,
{
    if n == 0 || n > fns.len() {
        Seq::empty()
    } else {
        let prev = expected_rows(ix, fns, missing, (n - 1) as nat);
        match row_outcome(ix, fns, n - 1, missing) {
            Some(o) => prev.push((n - 1, o.0, o.1)),
            None => prev,
        }
    }
}

/// Whether `rows` are exactly the joined rows of `fns` against `ix`.
pub open spec fn rows_match(rows: Seq<JoinedFn>, ix: PathIndex, fns: Seq<LocatedFn>, missing: MissingPolicy) -> bool {
    let exp = expected_rows(ix, fns, missing, fns.len());
    &&& rows.len() == exp.len()
    &&& forall|m: int|
        0 <= m < rows.len() ==> {
            let e = #[trigger] exp[m];
            &&& 0 <= e.0 < fns.len()
            &&& same_fn(rows[m].function, fns[e.0].function)
            &&& opt_string(rows[m].crate_name) == opt_string(fns[e.0].crate_name)
            &&& rows[m].coverage == e.1
            &&& rows[m].coverage_join == e.2
        }
}

impl FunctionComplexity {
    /// A copy of this row.
    pub fn copy(&self) -> (r: FunctionComplexity)
        ensures
            same_fn(r, *self),
    {
        FunctionComplexity {
            file: self.file.clone(),
            name: self.name.clone(),
            start_line: self.start_line,
            end_line: self.end_line,
            complexity: self.complexity,
        }
    }
}

fn copy_opt(o: &Option<String>) -> (r: Option<String>)
    ensures
        opt_string(r) == opt_string(*o),
{
    match o {
        Some(s) => Some(s.clone()),
        None => None,
    }
}

/// Whether `inner` lies inside `outer` and is strictly smaller.
pub fn is_nested(outer: &FunctionComplexity, inner: &FunctionComplexity) -> (r: bool)
    ensures
        r == is_nested_spec(*outer, *inner),
{
    let strictly_smaller = inner.start_line > outer.start_line || inner.end_line < outer.end_line;
    outer.start_line <= inner.start_line && inner.end_line <= outer.end_line && strictly_smaller
}

fn policy_coverage(missing: MissingPolicy, join: CoverageJoin) -> (r: Option<(LineRatio, CoverageJoin)>)
    ensures
        r == policy_row(missing, join),
{
    match missing {
        MissingPolicy::Pessimistic => Some((LineRatio { covered: 0, total: 1 }, join)),
        MissingPolicy::Optimistic => Some((LineRatio { covered: 1, total: 1 }, join)),
        MissingPolicy::Skip => None,
    }
}

fn nested_excludes(functions: &[LocatedFn], keys: &Vec<Vec<String>>, i: usize) -> (r: Vec<(usize, usize)>)
    requires
        i < functions.len(),
        keys.len() == functions.len(),
        forall|j: int| 0 <= j < keys.len() ==> texts(#[trigger] keys@[j]@) == components_spec(functions@[j].function.file@),
    ensures
        r@ == exclusion(functions@, i as int),
{
    let cur = &functions[i].function;
    let mut raw: Vec<(usize, usize)> = Vec::new();
    let mut j: usize = 0;
    while j < functions.len()
        invariant
            j <= functions.len(),
            i < functions.len(),
            keys.len() == functions.len(),
            *cur == functions@[i as int].function,
            forall|m: int| 0 <= m < keys.len() ==> texts(#[trigger] keys@[m]@) == components_spec(functions@[m].function.file@),
            raw@ == nested_ranges(functions@, *cur, j as nat),
        decreases functions.len() - j,
    {
        let other = &functions[j].function;
        assert(texts(keys@[j as int]@) == components_spec(functions@[j as int].function.file@));
        assert(texts(keys@[i as int]@) == components_spec(functions@[i as int].function.file@));
        if parts_eq(keys[i].as_slice(), keys[j].as_slice()) && is_nested(cur, other) {
            raw.push((other.start_line, other.end_line));
        }
        j = j + 1;
    }
    merge_ranges(raw)
}

fn coverage_for(index: &PathIndex, item: &LocatedFn, key: &Vec<String>, exclude: &Vec<(usize, usize)>, missing: MissingPolicy) -> (r: Option<(LineRatio, CoverageJoin)>)
    requires
        texts(key@) == components_spec(item.function.file@),
    ensures
        r == ({
            let f = item.function;
            match lookup_spec(index.keys(), components_spec(f.file@), lookup_name(*item)) {
                Lookup::Found(k) => {
                    let e = index.entries(k as int);
                    let total = span_count(e, f.start_line, f.end_line, exclude@, false);
                    if total == 0 {
                        policy_row(missing, CoverageJoin::Missing)
                    } else {
                        Some(
                            (
                                LineRatio {
                                    covered: span_count(e, f.start_line, f.end_line, exclude@, true) as usize,
                                    total: total as usize,
                                },
                                CoverageJoin::Measured,
                            ),
                        )
                    }
                },
                Lookup::Ambiguous => policy_row(missing, CoverageJoin::Ambiguous),
                Lookup::Missing => policy_row(missing, CoverageJoin::Missing),
            }
        }),
{
    let name: Option<&str> = match &item.join_key {
        Some(k) => Some(k.as_str()),
        None => match &item.crate_name {
            Some(c) => Some(c.as_str()),
            None => None,
        },
    };
    let found = index.lookup(key.as_slice(), name);
    match found {
        Lookup::Found(k) => {
            let file = index.coverage_at(k);
            match file.coverage_in_span_excluding(item.function.start_line, item.function.end_line, exclude.as_slice()) {
                Some(ratio) => Some((ratio, CoverageJoin::Measured)),
                None => policy_coverage(missing, CoverageJoin::Missing),
            }
        },
        Lookup::Ambiguous => policy_coverage(missing, CoverageJoin::Ambiguous),
        Lookup::Missing => policy_coverage(missing, CoverageJoin::Missing),
    }
}

/// Joins every function with its coverage, in input order.
///
/// Each function is matched to the best coverage key (see
/// [`PathIndex::lookup`]); its ratio counts the instrumented lines of its span
/// minus the spans of functions nested inside it. Functions without usable
/// coverage take the missing-data policy, and `Skip` drops them.
pub fn join(functions: &[LocatedFn], index: &PathIndex, missing: MissingPolicy) -> (r: Vec<JoinedFn>)
    ensures
        rows_match(r@, *index, functions@, missing),
{
    let mut keys: Vec<Vec<String>> = Vec::new();
    let mut k: usize = 0;
    while k < functions.len()
        invariant
            k <= functions.len(),
            keys.len() == k,
            forall|j: int| 0 <= j < k ==> texts(#[trigger] keys@[j]@) == components_spec(functions@[j].function.file@),
        decreases functions.len() - k,
    {
        keys.push(components(functions[k].function.file.as_str()));
        k = k + 1;
    }
    let mut out: Vec<JoinedFn> = Vec::new();
    let mut i: usize = 0;
    while i < functions.len()
        invariant
            i <= functions.len(),
            keys.len() == functions.len(),
            forall|j: int| 0 <= j < keys.len() ==> texts(#[trigger] keys@[j]@) == components_spec(functions@[j].function.file@),
            out@.len() == expected_rows(*index, functions@, missing, i as nat).len(),
            forall|m: int|
                0 <= m < out@.len() ==> {
                    let e = #[trigger] expected_rows(*index, functions@, missing, i as nat)[m];
                    &&& 0 <= e.0 < functions@.len()
                    &&& same_fn(out@[m].function, functions@[e.0].function)
                    &&& opt_string(out@[m].crate_name) == opt_string(functions@[e.0].crate_name)
                    &&& out@[m].coverage == e.1
                    &&& out@[m].coverage_join == e.2
                },
        decreases functions.len() - i,
    {
        let item = &functions[i];
        let exclude = nested_excludes(functions, &keys, i);
        assert(texts(keys@[i as int]@) == components_spec(functions@[i as int].function.file@));
        let outcome = coverage_for(index, item, &keys[i], &exclude, missing);
        let ghost prev = expected_rows(*index, functions@, missing, i as nat);
        assert(outcome == row_outcome(*index, functions@, i as int, missing));
        match outcome {
            Some((coverage, coverage_join)) => {
                out.push(JoinedFn {
                    function: item.function.copy(),
                    crate_name: copy_opt(&item.crate_name),
                    coverage,
                    coverage_join,
                });
                assert(expected_rows(*index, functions@, missing, i as nat + 1) == prev.push((i as int, coverage, coverage_join)));
            },
            None => {
                assert(expected_rows(*index, functions@, missing, i as nat + 1) == prev);
            },
        }
        i = i + 1;
    }
    out
}

/// Number of rows whose coverage came from an unresolved path tie.
pub fn ambiguous_join_count(entries: &[JoinedFn]) -> (n: usize)
    ensures
        n == ambiguous_count(entries@),
{
    let mut n: usize = 0;
    let mut k: usize = 0;
    while k < entries.len()
        invariant
            k <= entries.len(),
            n == ambiguous_count(entries@.take(k as int)),
            n <= k,
        decreases entries.len() - k,
    {
        assert(entries@.take(k as int + 1).drop_last() =~= entries@.take(k as int));
        if entries[k].coverage_join == CoverageJoin::Ambiguous {
            n = n + 1;
        }
        k = k + 1;
    }
    assert(entries@.take(entries.len() as int) =~= entries@);
    n
}

/// Rows whose coverage join was ambiguous.
pub open spec fn ambiguous_count(rows: Seq<JoinedFn>) -> nat
    decreases rows.len(),
{
    if rows.len() == 0 {
        0
    } else {
        ambiguous_count(rows.drop_last()) + if rows.last().coverage_join == CoverageJoin::Ambiguous {
            1nat
        } else {
            0nat
        }
    }
}

/// The command-line name of a missing-data policy.
pub open spec fn policy_name(p: MissingPolicy) -> Seq<char> {
    match p {
        MissingPolicy::Pessimistic => "pessimistic"@,
        MissingPolicy::Optimistic => "optimistic"@,
        MissingPolicy::Skip => "skip"@,
    }
}

/// The message for a policy name that is not recognised.
pub open spec fn invalid_policy_message(value: Seq<char>) -> Seq<char> {
    "invalid --missing `"@ + value + "`"@
}

impl MissingPolicy {
    /// Parses a policy from its command-line name.
    pub fn parse(value: &str) -> (r: Result<MissingPolicy, String>)
        ensures
            value@ == policy_name(MissingPolicy::Pessimistic) ==> r == Ok::<MissingPolicy, String>(
                MissingPolicy::Pessimistic,
            ),
            value@ == policy_name(MissingPolicy::Optimistic) ==> r == Ok::<MissingPolicy, String>(
                MissingPolicy::Optimistic,
            ),
            value@ == policy_name(MissingPolicy::Skip) ==> r == Ok::<MissingPolicy, String>(
                MissingPolicy::Skip,
            ),
            value@ != policy_name(MissingPolicy::Pessimistic) && value@ != policy_name(
                MissingPolicy::Optimistic,
            ) && value@ != policy_name(MissingPolicy::Skip) ==> (r matches Err(e) && e@
                == invalid_policy_message(value@)),
    {
        proof {
            reveal_strlit("pessimistic");
            reveal_strlit("optimistic");
            reveal_strlit("skip");
            assert("pessimistic"@[0] != "optimistic"@[0]);
            assert("pessimistic"@[0] != "skip"@[0]);
            assert("optimistic"@[0] != "skip"@[0]);
        }
        if str_eq(value, "pessimistic") {
            Ok(MissingPolicy::Pessimistic)
        } else if str_eq(value, "optimistic") {
            Ok(MissingPolicy::Optimistic)
        } else if str_eq(value, "skip") {
            Ok(MissingPolicy::Skip)
        } else {
            let head = concat("invalid --missing `", value);
            Err(concat(head.as_str(), "`"))
        }
    }

    /// The command-line name of this policy.
    pub fn as_str(self) -> (s: &'static str)
        ensures
            s@ == policy_name(self),
    {
        match self {
            MissingPolicy::Pessimistic => "pessimistic",
            MissingPolicy::Optimistic => "optimistic",
            MissingPolicy::Skip => "skip",
        }
    }

    /// The command-line name of this policy, owned.
    pub fn to_string(&self) -> (s: String)
        ensures
            s@ == policy_name(*self),
    {
        String::from_str(self.as_str())
    }
}

impl std::str::FromStr for MissingPolicy {
    type Err = String;

    fn from_str(value: &str) -> (r: Result<MissingPolicy, String>)
        ensures
            value@ == policy_name(MissingPolicy::Pessimistic) ==> r == Ok::<MissingPolicy, String>(
                MissingPolicy::Pessimistic,
            ),
            value@ == policy_name(MissingPolicy::Optimistic) ==> r == Ok::<MissingPolicy, String>(
                MissingPolicy::Optimistic,
            ),
            value@ == policy_name(MissingPolicy::Skip) ==> r == Ok::<MissingPolicy, String>(
                MissingPolicy::Skip,
            ),
            value@ != policy_name(MissingPolicy::Pessimistic) && value@ != policy_name(
                MissingPolicy::Optimistic,
            ) && value@ != policy_name(MissingPolicy::Skip) ==> (r matches Err(e) && e@
                == invalid_policy_message(value@)),
    {
        MissingPolicy::parse(value)
    }
}

/// The stable token of a join outcome.
pub open spec fn join_name(j: CoverageJoin) -> Seq<char> {
    match j {
        CoverageJoin::Measured => "measured"@,
        CoverageJoin::Missing => "missing"@,
        CoverageJoin::Ambiguous => "ambiguous"@,
    }
}

impl CoverageJoin {
    /// Stable JSON and command-line token for this join outcome.
    pub fn as_str(self) -> (s: &'static str)
        ensures
            s@ == join_name(self),
    {
        match self {
            CoverageJoin::Measured => "measured",
            CoverageJoin::Missing => "missing",
            CoverageJoin::Ambiguous => "ambiguous",
        }
    }

    /// The token of this join outcome, owned.
    pub fn to_string(&self) -> (s: String)
        ensures
            s@ == join_name(*self),
    {
        String::from_str(self.as_str())
    }
}

/// The warning printed when some rows used the missing policy because of
/// ambiguous coverage paths; empty when none did.
pub open spec fn ambiguous_warning_text(count: nat) -> Seq<char> {
    if count == 0 {
        Seq::empty()
    } else {
        decimal(count) + " function(s) used --missing due to ambiguous coverage paths."@
    }
}

/// Warning line for rows joined through an ambiguous path tie; empty when
/// there are none.
pub fn ambiguous_join_warning(entries: &[JoinedFn]) -> (s: String)
    ensures
        s@ == ambiguous_warning_text(ambiguous_count(entries@)),
{
    let count = ambiguous_join_count(entries);
    if count == 0 {
        String::new()
    } else {
        let n = decimal_string(count);
        concat(n.as_str(), " function(s) used --missing due to ambiguous coverage paths.")
    }
}

/// The plain content of a joined row.
pub struct JoinedView {
    pub file: Seq<char>,
    pub name: Seq<char>,
    pub start_line: usize,
    pub end_line: usize,
    pub complexity: usize,
    pub crate_name: Option<Seq<char>>,
    pub coverage: LineRatio,
    pub coverage_join: CoverageJoin,
}

/// The plain content of `r`.
pub open spec fn joined_view(r: JoinedFn) -> JoinedView {
    JoinedView {
        file: r.function.file@,
        name: r.function.name@,
        start_line: r.function.start_line,
        end_line: r.function.end_line,
        complexity: r.function.complexity,
        crate_name: opt_string(r.crate_name),
        coverage: r.coverage,
        coverage_join: r.coverage_join,
    }
}

/// The plain contents of `rows`, in order.
pub open spec fn joined_views(rows: Seq<JoinedFn>) -> Seq<JoinedView> {
    Seq::new(rows.len(), |m: int| joined_view(rows[m]))
}

/// The rows of `vs` whose coverage was measured, in order.
pub open spec fn measured_views(vs: Seq<JoinedView>) -> Seq<JoinedView>
    decreases vs.len(),
{
    if vs.len() == 0 {
        Seq::empty()
    } else {
        let prev = measured_views(vs.drop_last());
        if vs.last().coverage_join == CoverageJoin::Measured {
            prev.push(vs.last())
        } else {
            prev
        }
    }
}

/// The row that an expected outcome `e` stands for.
spec fn expected_view(fns: Seq<LocatedFn>, e: (int, LineRatio, CoverageJoin)) -> JoinedView {
    let f = fns[e.0].function;
    JoinedView {
        file: f.file@,
        name: f.name@,
        start_line: f.start_line,
        end_line: f.end_line,
        complexity: f.complexity,
        crate_name: opt_string(fns[e.0].crate_name),
        coverage: e.1,
        coverage_join: e.2,
    }
}

/// The expected outcomes whose coverage was measured, in order.
spec fn measured_outcomes(es: Seq<(int, LineRatio, CoverageJoin)>) -> Seq<(int, LineRatio, CoverageJoin)>
    decreases es.len(),
{
    if es.len() == 0 {
        Seq::empty()
    } else {
        let prev = measured_outcomes(es.drop_last());
        if es.last().2 == CoverageJoin::Measured {
            prev.push(es.last())
        } else {
            prev
        }
    }
}

/// A policy that scores missing data keeps every function, in order.
proof fn lemma_scoring_policy_keeps_all(ix: PathIndex, fns: Seq<LocatedFn>, missing: MissingPolicy, n: nat)
    requires
        missing != MissingPolicy::Skip,
        n <= fns.len(),
    ensures
        expected_rows(ix, fns, missing, n).len() == n,
        forall|k: int|
            0 <= k < n ==> {
                let e = #[trigger] expected_rows(ix, fns, missing, n)[k];
                &&& e.0 == k
                &&& row_outcome(ix, fns, k, missing) == Some((e.1, e.2))
            },
    decreases n,
{
    if n > 0 {
        lemma_scoring_policy_keeps_all(ix, fns, missing, (n - 1) as nat);
    }
}

/// Skipping keeps exactly the measured outcomes of the pessimistic join.
proof fn lemma_skip_keeps_measured(ix: PathIndex, fns: Seq<LocatedFn>, n: nat)
    requires
        n <= fns.len(),
    ensures
        expected_rows(ix, fns, MissingPolicy::Skip, n) == measured_outcomes(
            expected_rows(ix, fns, MissingPolicy::Pessimistic, n),
        ),
    decreases n,
{
    if n > 0 {
        lemma_skip_keeps_measured(ix, fns, (n - 1) as nat);
        let p = expected_rows(ix, fns, MissingPolicy::Pessimistic, n);
        let prev = expected_rows(ix, fns, MissingPolicy::Pessimistic, (n - 1) as nat);
        lemma_scoring_policy_keeps_all(ix, fns, MissingPolicy::Pessimistic, n);
        assert(p == prev.push(p.last()));
        assert(p.drop_last() =~= prev);
    }
}

/// Filtering outcomes by measurement commutes with viewing them as rows.
proof fn lemma_measured_views_of(fns: Seq<LocatedFn>, es: Seq<(int, LineRatio, CoverageJoin)>)
    ensures
        measured_views(Seq::new(es.len(), |m: int| expected_view(fns, es[m]))) == Seq::new(
            measured_outcomes(es).len(),
            |m: int| expected_view(fns, measured_outcomes(es)[m]),
        ),
    decreases es.len(),
{
    let vs = Seq::new(es.len(), |m: int| expected_view(fns, es[m]));
    if es.len() > 0 {
        lemma_measured_views_of(fns, es.drop_last());
        assert(vs.drop_last() =~= Seq::new(es.drop_last().len(), |m: int| expected_view(fns, es.drop_last()[m])));
        let prev = measured_outcomes(es.drop_last());
        if es.last().2 == CoverageJoin::Measured {
            assert(measured_outcomes(es) == prev.push(es.last()));
            assert(Seq::new(prev.push(es.last()).len(), |m: int| expected_view(fns, prev.push(es.last())[m]))
                =~= Seq::new(prev.len(), |m: int| expected_view(fns, prev[m])).push(expected_view(fns, es.last())));
        }
    } else {
        assert(vs =~= Seq::<JoinedView>::empty());
        assert(Seq::new(measured_outcomes(es).len(), |m: int| expected_view(fns, measured_outcomes(es)[m]))
            =~= Seq::<JoinedView>::empty());
    }
}

/// The rows of a join, viewed, are its expected outcomes viewed.
proof fn lemma_rows_are_expected(rows: Seq<JoinedFn>, ix: PathIndex, fns: Seq<LocatedFn>, missing: MissingPolicy)
    requires
        rows_match(rows, ix, fns, missing),
    ensures
        joined_views(rows) == ({
            let exp = expected_rows(ix, fns, missing, fns.len());
            Seq::new(exp.len(), |m: int| expected_view(fns, exp[m]))
        }),
{
    let exp = expected_rows(ix, fns, missing, fns.len());
    assert forall|m: int| 0 <= m < rows.len() implies joined_view(rows[m]) == expected_view(fns, exp[m]) by {
        let e = exp[m];
        assert(same_fn(rows[m].function, fns[e.0].function));
    }
    assert(joined_views(rows) =~= Seq::new(exp.len(), |m: int| expected_view(fns, exp[m])));
}

/// Row `p` of a pessimistic join and row `o` of an optimistic join both
/// stand for function `f` with the same join outcome; measured, they have
/// the same ratio, and otherwise `p` is 0% and `o` is 100%.
pub open spec fn scored_rows_agree(p: JoinedFn, o: JoinedFn, f: LocatedFn) -> bool {
    &&& same_fn(p.function, f.function)
    &&& same_fn(o.function, f.function)
    &&& p.coverage_join == o.coverage_join
    &&& (p.coverage_join == CoverageJoin::Measured ==> p.coverage == o.coverage)
    &&& (p.coverage_join != CoverageJoin::Measured ==> p.coverage == LineRatio::none_covered() && o.coverage
        == LineRatio::all_covered())
}

/// The missing-data policy decides only the rows whose coverage could not
/// be measured. Pessimistic and optimistic joins keep every function, in
/// order, with the same join outcome; a measured row has the same ratio
/// under both, and any other row is 0% under the pessimistic policy and
/// 100% under the optimistic one. Skipping keeps exactly the measured rows.
pub proof fn lemma_policy_decides_only_unmeasured_rows(
    ix: PathIndex,
    fns: Seq<LocatedFn>,
    pess: Seq<JoinedFn>,
    opt: Seq<JoinedFn>,
    skip: Seq<JoinedFn>,
)
    requires
        rows_match(pess, ix, fns, MissingPolicy::Pessimistic),
        rows_match(opt, ix, fns, MissingPolicy::Optimistic),
        rows_match(skip, ix, fns, MissingPolicy::Skip),
    ensures
        pess.len() == fns.len(),
        opt.len() == fns.len(),
        forall|m: int| 0 <= m < fns.len() ==> #[trigger] scored_rows_agree(pess[m], opt[m], fns[m]),
        joined_views(skip) == measured_views(joined_views(pess)),
{
    let n = fns.len();
    lemma_scoring_policy_keeps_all(ix, fns, MissingPolicy::Pessimistic, n);
    lemma_scoring_policy_keeps_all(ix, fns, MissingPolicy::Optimistic, n);
    let ep = expected_rows(ix, fns, MissingPolicy::Pessimistic, n);
    let eo = expected_rows(ix, fns, MissingPolicy::Optimistic, n);
    assert forall|m: int| 0 <= m < fns.len() implies #[trigger] scored_rows_agree(pess[m], opt[m], fns[m]) by {
        let a = ep[m];
        let b = eo[m];
        assert(a.0 == m && b.0 == m);
        assert(row_outcome(ix, fns, m, MissingPolicy::Pessimistic) == Some((a.1, a.2)));
        assert(row_outcome(ix, fns, m, MissingPolicy::Optimistic) == Some((b.1, b.2)));
    }
    lemma_skip_keeps_measured(ix, fns, n);
    lemma_rows_are_expected(pess, ix, fns, MissingPolicy::Pessimistic);
    lemma_rows_are_expected(skip, ix, fns, MissingPolicy::Skip);
    lemma_measured_views_of(fns, ep);
}

/// Each missing-coverage policy has a name of its own, so the name a
/// policy is shown with reads back as that policy.
pub proof fn lemma_policy_names_differ(a: MissingPolicy, b: MissingPolicy)
    ensures
        policy_name(a) == policy_name(b) ==> a == b,
{
    reveal_strlit("pessimistic");
    reveal_strlit("optimistic");
    reveal_strlit("skip");
    assert(policy_name(MissingPolicy::Pessimistic).len() == 11);
    assert(policy_name(MissingPolicy::Optimistic).len() == 10);
    assert(policy_name(MissingPolicy::Skip).len() == 4);
}

} // verus!
