//! Command-line flags of the Rust frontend.
//!
//! The threshold is a floating-point number; reading one is left to the
//! caller, which says for each argument how it reads as a threshold.
use crate::cargo::error::Error;
use crate::merge::MissingPolicy;
use crate::text::{concat, owned, str_eq};
use vstd::prelude::*;

verus! {

/// How an argument reads as a `--threshold` value.
#[derive(Debug, Clone, Copy, PartialEq, Eq, Structural)]
pub enum ThresholdCheck {
    /// A finite, non-negative number.
    Valid,
    /// Not a number at all.
    Unparsable,
    /// A number that is negative, infinite, or not a number.
    OutOfRange,
}

/// Options for one analysis run.
#[derive(Debug, Clone)]
pub struct Args {
    /// LCOV coverage file.
    pub lcov: String,
    /// Directory to walk when packages are not selected.
    pub path: String,
    /// The `--threshold` text given last, when one was given.
    pub threshold: Option<String>,
    /// Analyze every workspace member.
    pub workspace: bool,
    /// Selected package names (`-p`).
    pub packages: Vec<String>,
    /// Print counts only.
    pub summary: bool,
    /// Exit 1 when any function exceeds the threshold.
    pub fail_above: bool,
    /// Policy for functions with no coverage data.
    pub missing: MissingPolicy,
}

/// What the process should do after parsing argv.
#[derive(Debug, Clone)]
pub enum Action {
    /// Print help and exit 0.
    Help,
    /// Print the version and exit 0.
    Version,
    /// Run analysis with these options.
    Run(Args),
}

/// The content of [`Args`].
pub struct ArgsView {
    pub lcov: Seq<char>,
    pub path: Seq<char>,
    pub threshold: Option<Seq<char>>,
    pub workspace: bool,
    pub packages: Seq<Seq<char>>,
    pub summary: bool,
    pub fail_above: bool,
    pub missing: MissingPolicy,
}

/// The content of an [`Action`].
pub enum ActionView {
    Help,
    Version,
    Run(ArgsView),
}

/// The texts of a list of strings.
pub open spec fn texts_of(v: Seq<String>) -> Seq<Seq<char>> {
    Seq::new(v.len(), |k: int| v[k]@)
}

pub open spec fn args_view(a: Args) -> ArgsView {
    ArgsView {
        lcov: a.lcov@,
        path: a.path@,
        threshold: match a.threshold {
            Some(t) => Some(t@),
            None => None,
        },
        workspace: a.workspace,
        packages: texts_of(a.packages@),
        summary: a.summary,
        fail_above: a.fail_above,
        missing: a.missing,
    }
}

/// Options before any flag: no coverage file, the current directory, the
/// default threshold, pessimistic about missing coverage.
pub open spec fn default_args() -> ArgsView {
    ArgsView {
        lcov: Seq::empty(),
        path: "."@,
        threshold: None,
        workspace: false,
        packages: Seq::empty(),
        summary: false,
        fail_above: false,
        missing: MissingPolicy::Pessimistic,
    }
}

impl Default for Args {
    fn default() -> (r: Self)
        ensures
            args_view(r) == default_args(),
    {
        let r = Args {
            lcov: String::new(),
            path: owned("."),
            threshold: None,
            workspace: false,
            packages: Vec::new(),
            summary: false,
            fail_above: false,
            missing: MissingPolicy::Pessimistic,
        };
        assert(texts_of(r.packages@) =~= Seq::<Seq<char>>::empty());
        r
    }
}

/// The policy a `--missing` value names.
pub open spec fn missing_named(t: Seq<char>) -> Option<MissingPolicy> {
    if t == "pessimistic"@ {
        Some(MissingPolicy::Pessimistic)
    } else if t == "optimistic"@ {
        Some(MissingPolicy::Optimistic)
    } else if t == "skip"@ {
        Some(MissingPolicy::Skip)
    } else {
        None
    }
}

/// A flag that takes the next argument as its value.
pub open spec fn takes_value(arg: Seq<char>) -> bool {
    arg == "-p"@ || arg == "--package"@ || arg == "--lcov"@ || arg == "--path"@ || arg
        == "--threshold"@ || arg == "--missing"@
}

/// One step of the scan.
pub enum Scan {
    /// Go on at the given position with these options.
    Go(ArgsView, int),
    /// Stop with this outcome.
    End(Result<ActionView, Seq<char>>),
}

/// A flag that takes a value, applied with value `v`.
pub open spec fn value_step(arg: Seq<char>, v: Seq<char>, check: ThresholdCheck, a: ArgsView, k: int) -> Scan {
    if arg == "--lcov"@ {
        Scan::Go(ArgsView { lcov: v, ..a }, k + 2)
    } else if arg == "--path"@ {
        Scan::Go(ArgsView { path: v, ..a }, k + 2)
    } else if arg == "--threshold"@ {
        match check {
            ThresholdCheck::Valid => Scan::Go(ArgsView { threshold: Some(v), ..a }, k + 2),
            ThresholdCheck::Unparsable => Scan::End(Err("invalid --threshold `"@ + v + "`"@)),
            ThresholdCheck::OutOfRange => Scan::End(Err("--threshold must be a non-negative number"@)),
        }
    } else if arg == "--missing"@ {
        match missing_named(v) {
            Some(m) => Scan::Go(ArgsView { missing: m, ..a }, k + 2),
            None => Scan::End(Err("invalid --missing `"@ + v + "` (pessimistic|optimistic|skip)"@)),
        }
    } else {
        Scan::Go(ArgsView { packages: a.packages.push(v), ..a }, k + 2)
    }
}

/// The argument at `k`, applied to `a`.
pub open spec fn scan_step(raw: Seq<Seq<char>>, checks: Seq<ThresholdCheck>, k: int, a: ArgsView) -> Scan {
    let arg = raw[k];
    if arg == "-h"@ || arg == "--help"@ {
        Scan::End(Ok(ActionView::Help))
    } else if arg == "-V"@ || arg == "--version"@ {
        Scan::End(Ok(ActionView::Version))
    } else if arg == "--summary"@ {
        Scan::Go(ArgsView { summary: true, ..a }, k + 1)
    } else if arg == "--fail-above"@ {
        Scan::Go(ArgsView { fail_above: true, ..a }, k + 1)
    } else if arg == "--workspace"@ {
        Scan::Go(ArgsView { workspace: true, ..a }, k + 1)
    } else if takes_value(arg) {
        if k + 1 >= raw.len() {
            Scan::End(Err(arg + " requires a value"@))
        } else {
            value_step(arg, raw[k + 1], checks[k + 1], a, k)
        }
    } else if arg.len() > 0 && arg[0] == '-' {
        Scan::End(Err("unknown flag `"@ + arg + "`"@))
    } else {
        Scan::End(Err("unexpected argument `"@ + arg + "`"@))
    }
}

/// The options once every argument is read: the required coverage file,
/// and no package selection beside `--workspace`.
pub open spec fn finish(a: ArgsView) -> Result<ActionView, Seq<char>> {
    if a.lcov.len() == 0 {
        Err("missing required --lcov <file>"@)
    } else if a.workspace && a.packages.len() > 0 {
        Err("--workspace conflicts with --package / -p"@)
    } else {
        Ok(ActionView::Run(a))
    }
}

/// The arguments from `k` on, applied to `a`.
pub open spec fn scan(raw: Seq<Seq<char>>, checks: Seq<ThresholdCheck>, k: int, a: ArgsView) -> Result<ActionView, Seq<char>>
    decreases raw.len() - k,
{
    if k < 0 || k >= raw.len() {
        finish(a)
    } else {
        match scan_step(raw, checks, k, a) {
            Scan::End(r) => r,
            Scan::Go(b, n) => if k < n {
                scan(raw, checks, n, b)
            } else {
                finish(b)
            },
        }
    }
}

/// Where the flags start: after the program name, and after a `crap`
/// subcommand word right behind it.
pub open spec fn first_flag(raw: Seq<Seq<char>>) -> int {
    if raw.len() > 1 && raw[1] == "crap"@ {
        2
    } else {
        1
    }
}

/// What an argv (program name first) asks for.
pub open spec fn parsed(raw: Seq<Seq<char>>, checks: Seq<ThresholdCheck>) -> Result<ActionView, Seq<char>> {
    scan(raw, checks, first_flag(raw), default_args())
}

/// The outcome of [`parse_args`] read against [`parsed`].
pub open spec fn action_matches(r: Result<Action, Error>, s: Result<ActionView, Seq<char>>) -> bool {
    match s {
        Ok(ActionView::Help) => r matches Ok(Action::Help),
        Ok(ActionView::Version) => r matches Ok(Action::Version),
        Ok(ActionView::Run(v)) => r matches Ok(Action::Run(a)) && args_view(a) == v,
        Err(m) => r matches Err(e) && e matches Error::Usage(x) && x@ == m,
    }
}

fn usage_quoted(head: &str, v: &str, tail: &str) -> (e: Error)
    ensures
        e matches Error::Usage(m) && m@ == head@ + v@ + tail@,
{
    let a = concat(head, v);
    Error::Usage(concat(a.as_str(), tail))
}

fn missing_policy(t: &str) -> (r: Option<MissingPolicy>)
    ensures
        r == missing_named(t@),
{
    proof {
        reveal_strlit("pessimistic");
        reveal_strlit("optimistic");
        reveal_strlit("skip");
    }
    if str_eq(t, "pessimistic") {
        Some(MissingPolicy::Pessimistic)
    } else if str_eq(t, "optimistic") {
        Some(MissingPolicy::Optimistic)
    } else if str_eq(t, "skip") {
        Some(MissingPolicy::Skip)
    } else {
        None
    }
}

fn validate(args: Args) -> (r: Result<Action, Error>)
    ensures
        action_matches(r, finish(args_view(args))),
{
    if args.lcov.as_str().unicode_len() == 0 {
        return Err(Error::Usage(owned("missing required --lcov <file>")));
    }
    if args.workspace && args.packages.len() > 0 {
        return Err(Error::Usage(owned("--workspace conflicts with --package / -p")));
    }
    Ok(Action::Run(args))
}

/// Parses an argv (program name first), with `checks[k]` saying how
/// `raw[k]` reads as a threshold.
pub fn parse_args(raw: Vec<String>, checks: &[ThresholdCheck]) -> (r: Result<Action, Error>)
    requires
        checks@.len() == raw@.len(),
    ensures
        action_matches(r, parsed(texts_of(raw@), checks@)),
{
    let ghost rv = texts_of(raw@);
    let n = raw.len();
    let mut k: usize = 1;
    if n > 1 && str_eq(raw[1].as_str(), "crap") {
        k = 2;
    }
    proof {
        reveal_strlit("crap");
        assert(n > 1 ==> rv[1] == raw@[1]@);
    }
    let mut args = Args::default();
    while k < n
        invariant
            n == raw@.len(),
            checks@.len() == n,
            rv == texts_of(raw@),
            1 <= k,
            scan(rv, checks@, k as int, args_view(args)) == parsed(rv, checks@),
        decreases n - k,
    {
        let arg = raw[k].as_str();
        assert(rv[k as int] == arg@);
        proof {
            reveal_strlit("-h");
            reveal_strlit("--help");
            reveal_strlit("-V");
            reveal_strlit("--version");
            reveal_strlit("--summary");
            reveal_strlit("--fail-above");
            reveal_strlit("--workspace");
            reveal_strlit("-p");
            reveal_strlit("--package");
            reveal_strlit("--lcov");
            reveal_strlit("--path");
            reveal_strlit("--threshold");
            reveal_strlit("--missing");
        }
        if str_eq(arg, "-h") || str_eq(arg, "--help") {
            return Ok(Action::Help);
        } else if str_eq(arg, "-V") || str_eq(arg, "--version") {
            return Ok(Action::Version);
        } else if str_eq(arg, "--summary") {
            args.summary = true;
            k = k + 1;
        } else if str_eq(arg, "--fail-above") {
            args.fail_above = true;
            k = k + 1;
        } else if str_eq(arg, "--workspace") {
            args.workspace = true;
            k = k + 1;
        } else if str_eq(arg, "-p") || str_eq(arg, "--package") || str_eq(arg, "--lcov") || str_eq(
            arg,
            "--path",
        ) || str_eq(arg, "--threshold") || str_eq(arg, "--missing") {
            if k + 1 >= n {
                return Err(Error::Usage(concat(arg, " requires a value")));
            }
            let v = raw[k + 1].as_str();
            assert(rv[k + 1] == v@);
            if str_eq(arg, "--lcov") {
                args.lcov = owned(v);
            } else if str_eq(arg, "--path") {
                args.path = owned(v);
            } else if str_eq(arg, "--threshold") {
                match checks[k + 1] {
                    ThresholdCheck::Valid => {
                        args.threshold = Some(owned(v));
                    },
                    ThresholdCheck::Unparsable => {
                        return Err(usage_quoted("invalid --threshold `", v, "`"));
                    },
                    ThresholdCheck::OutOfRange => {
                        return Err(Error::Usage(owned("--threshold must be a non-negative number")));
                    },
                }
            } else if str_eq(arg, "--missing") {
                match missing_policy(v) {
                    Some(m) => {
                        args.missing = m;
                    },
                    None => {
                        return Err(
                            usage_quoted("invalid --missing `", v, "` (pessimistic|optimistic|skip)"),
                        );
                    },
                }
            } else {
                let ghost before = args.packages@;
                args.packages.push(owned(v));
                assert(texts_of(args.packages@) =~= texts_of(before).push(v@));
            }
            k = k + 2;
        } else {
            let first_dash = arg.unicode_len() > 0 && arg.get_char(0) == '-';
            if first_dash {
                return Err(usage_quoted("unknown flag `", arg, "`"));
            }
            return Err(usage_quoted("unexpected argument `", arg, "`"));
        }
    }
    validate(args)
}

/// `--help` or `--version` as the first flag answers at once, whatever
/// follows it.
pub proof fn lemma_help_short_circuits(raw: Seq<Seq<char>>, checks: Seq<ThresholdCheck>)
    requires
        first_flag(raw) < raw.len(),
    ensures
        (raw[first_flag(raw)] == "-h"@ || raw[first_flag(raw)] == "--help"@) ==> parsed(raw, checks)
            == Ok::<ActionView, Seq<char>>(ActionView::Help),
        (raw[first_flag(raw)] == "-V"@ || raw[first_flag(raw)] == "--version"@) ==> parsed(raw, checks)
            == Ok::<ActionView, Seq<char>>(ActionView::Version),
{
    reveal_strlit("-h");
    reveal_strlit("--help");
    reveal_strlit("-V");
    reveal_strlit("--version");
    assert("-h"@[1] != "-V"@[1]);
    assert("--help"@[2] != "--version"@[2]);
}

impl Args {
    /// Whether workspace members were asked for (`--workspace` or `-p`).
    pub open spec fn uses_packages_spec(&self) -> bool {
        self.workspace || self.packages@.len() > 0
    }

    /// Whether workspace members were asked for (`--workspace` or `-p`).
    pub fn uses_packages(&self) -> (r: bool)
        ensures
            r == self.uses_packages_spec(),
    {
        self.workspace || self.packages.len() > 0
    }
}

} // verus!
