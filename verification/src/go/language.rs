//! The Go frontend's decisions: which targets to walk, what each read
//! source file contributes, and how failed files end a collection.
use crate::chars::join;
use crate::error::Error;
use crate::go::build_tag::{skip_file, skipped, tag_texts};
use crate::go::complexity::analyze_source;
use crate::go::module_resolve::{
    nested_module_roots, nested_module_roots_upto, package_selection, selected_packages, unknown_package_message, Package,
};
use crate::go::structure::{problem_text, structure_check};
use crate::go::visitor::rows_for;
use crate::language::Target;
use crate::merge::{opt_string, FunctionComplexity, LocatedFn};
use crate::metric::Metric;
use crate::text::{concat, decimal, decimal_string, owned};
use vstd::prelude::*;

verus! {

/// The Go frontend's options.
#[derive(Debug, Clone, PartialEq, Eq)]
pub struct GoLanguage {
    /// Analyze every package under the module.
    pub workspace: bool,
    /// Selected package import paths (`-p`).
    pub packages: Vec<String>,
    /// Build tags treated as enabled for `//go:build`.
    pub tags: Vec<String>,
}

/// The texts of a list of strings.
pub open spec fn texts(v: Seq<String>) -> Seq<Seq<char>> {
    Seq::new(v.len(), |k: int| v[k]@)
}

/// `t` walks `pkg`: its root, its import path as package name, the other
/// packages nested under it skipped, and the enabled tags as features.
pub open spec fn package_target(t: Target, pkg: Package, all: Seq<Package>, tags: Seq<String>) -> bool {
    &&& t.root@ == pkg.root@
    &&& opt_string(t.crate_name) == Some(pkg.name@)
    &&& texts(t.skip@) == nested_module_roots_upto(pkg.root@, all, all.len() as nat)
    &&& texts(t.enabled_features@) == texts(tags)
}

fn copy_texts(v: &Vec<String>) -> (r: Vec<String>)
    ensures
        texts(r@) == texts(v@),
{
    let mut out: Vec<String> = Vec::new();
    let mut k: usize = 0;
    while k < v.len()
        invariant
            k <= v@.len(),
            out@.len() == k,
            forall|q: int| 0 <= q < k ==> (#[trigger] out@[q])@ == v@[q]@,
        decreases v.len() - k,
    {
        out.push(owned(v[k].as_str()));
        k = k + 1;
    }
    assert(texts(out@) =~= texts(v@));
    out
}

impl GoLanguage {
    /// Whether packages were asked for (`--workspace` or `-p`).
    pub fn uses_packages(&self) -> (r: bool)
        ensures
            r == (self.workspace || self.packages@.len() > 0),
    {
        self.workspace || self.packages.len() > 0
    }

    /// One target per package, in package order.
    pub fn targets_from_packages(&self, packages: &[Package]) -> (r: Vec<Target>)
        ensures
            r@.len() == packages@.len(),
            forall|k: int| 0 <= k < r@.len() ==> package_target(#[trigger] r@[k], packages@[k], packages@, self.tags@),
    {
        let mut out: Vec<Target> = Vec::new();
        let mut k: usize = 0;
        while k < packages.len()
            invariant
                k <= packages@.len(),
                out@.len() == k,
                forall|q: int| 0 <= q < k ==> package_target(#[trigger] out@[q], packages@[q], packages@, self.tags@),
            decreases packages.len() - k,
        {
            let pkg = &packages[k];
            let skip = nested_module_roots(pkg.root.as_str(), packages);
            let t = Target {
                root: pkg.root.clone(),
                crate_name: Some(pkg.name.clone()),
                skip,
                enabled_features: copy_texts(&self.tags),
            };
            assert(texts(t.skip@) =~= Seq::new(t.skip@.len(), |m: int| t.skip@[m]@));
            out.push(t);
            k = k + 1;
        }
        out
    }

    /// The single target for a plain directory walk of `root`.
    pub fn path_target(&self, root: &str) -> (t: Target)
        ensures
            t.root@ == root@,
            t.crate_name is None,
            t.skip@.len() == 0,
            texts(t.enabled_features@) == texts(self.tags@),
    {
        Target { root: owned(root), crate_name: None, skip: Vec::new(), enabled_features: copy_texts(&self.tags) }
    }

    /// Whether the packages of the module tree are walked: they were asked
    /// for, or the analysis root is itself a module root.
    pub fn walks_packages(&self, root_has_go_mod: bool) -> (r: bool)
        ensures
            r == (self.workspace || self.packages@.len() > 0 || root_has_go_mod),
    {
        self.uses_packages() || root_has_go_mod
    }

    /// The targets to walk under `root`. `root_has_go_mod` tells whether
    /// `root` holds a `go.mod`; `all` is every package of the module tree
    /// under `root`, which is needed whenever packages are walked.
    ///
    /// `--workspace` walks every package, `-p` the named ones in the order
    /// given (an unknown name is a resolve error), a module root without
    /// flags every package, and anything else `root` itself.
    pub fn resolve_targets(&self, root: &str, root_has_go_mod: bool, all: Option<&[Package]>) -> (r: Result<
        Vec<Target>,
        Error,
    >)
        requires
            (self.workspace || self.packages@.len() > 0 || root_has_go_mod) ==> all is Some,
        ensures
            !(self.workspace || self.packages@.len() > 0 || root_has_go_mod) ==> (r matches Ok(v) && v@.len() == 1
                && v@[0].root@ == root@ && v@[0].crate_name is None && v@[0].skip@.len() == 0 && texts(
                v@[0].enabled_features@,
            ) == texts(self.tags@)),
            (self.workspace || (self.packages@.len() == 0 && root_has_go_mod)) ==> (r matches Ok(v)
                && v@.len() == all->Some_0@.len() && forall|k: int|
                0 <= k < v@.len() ==> package_target(#[trigger] v@[k], all->Some_0@[k], all->Some_0@, self.tags@)),
            (!self.workspace && self.packages@.len() > 0) ==> match package_selection(
                all->Some_0@,
                self.packages@,
                self.packages@.len() as nat,
            ) {
                Ok(pkgs) => r matches Ok(v) && v@.len() == pkgs.len() && forall|k: int|
                    0 <= k < v@.len() ==> package_target(#[trigger] v@[k], pkgs[k], pkgs, self.tags@),
                Err(name) => r matches Err(e) && e matches Error::Resolve(m) && m@ == unknown_package_message(name),
            },
    {
        if !self.walks_packages(root_has_go_mod) {
            let mut out: Vec<Target> = Vec::new();
            out.push(self.path_target(root));
            return Ok(out);
        }
        let packages = match all {
            Some(p) => p,
            None => {
                return Ok(Vec::new());
            },
        };
        if self.workspace || self.packages.len() == 0 {
            return Ok(self.targets_from_packages(packages));
        }
        match selected_packages(self.packages.as_slice(), packages) {
            Ok(picked) => Ok(self.targets_from_packages(picked.as_slice())),
            Err(e) => Err(e),
        }
    }
}

/// What one source file came to.
#[derive(Debug, Clone, Copy, PartialEq, Eq, Structural)]
pub enum FileOutcome {
    /// Its functions were collected.
    Collected,
    /// A build constraint excludes it.
    Skipped,
    /// It could not be read or parsed.
    Failed,
}

/// Counts one file's outcome: a collected file as succeeded, a failed one
/// as failed, a skipped one not at all.
pub fn apply_file_outcome(outcome: FileOutcome, succeeded: &mut usize, failed: &mut usize)
    requires
        *old(succeeded) < usize::MAX,
        *old(failed) < usize::MAX,
    ensures
        *final(succeeded) == *old(succeeded) + if outcome == FileOutcome::Collected { 1int } else { 0int },
        *final(failed) == *old(failed) + if outcome == FileOutcome::Failed { 1int } else { 0int },
{
    match outcome {
        FileOutcome::Collected => *succeeded = *succeeded + 1,
        FileOutcome::Skipped => {},
        FileOutcome::Failed => *failed = *failed + 1,
    }
}

/// The message for a collection in which files failed.
pub open spec fn failure_message(lang: Seq<char>, failed: nat, succeeded: nat, details: Seq<Seq<char>>) -> Seq<char> {
    "failed to parse "@ + decimal(failed) + " of "@ + decimal(failed + succeeded) + " "@ + lang
        + " file(s)\n"@ + join(details, "\n"@)
}

fn join_lines(parts: &[String]) -> (r: String)
    ensures
        r@ == join(texts(parts@), "\n"@),
{
    let mut out = String::new();
    let mut k: usize = 0;
    while k < parts.len()
        invariant
            k <= parts@.len(),
            out@ == join(texts(parts@).take(k as int), "\n"@),
        decreases parts.len() - k,
    {
        let ghost prev = texts(parts@).take(k as int);
        assert(texts(parts@).take(k + 1).drop_last() =~= prev);
        if k > 0 {
            out = concat(out.as_str(), "\n");
        } else {
            assert(texts(parts@).take(1) =~= seq![parts@[0]@]);
        }
        out = concat(out.as_str(), parts[k].as_str());
        k = k + 1;
    }
    assert(texts(parts@).take(parts@.len() as int) =~= texts(parts@));
    out
}

/// "failed to parse F of T L file(s)" and then each detail on its own line.
pub fn collect_failure(lang: &str, failed: usize, succeeded: usize, details: &[String]) -> (r: String)
    requires
        failed + succeeded <= usize::MAX,
    ensures
        r@ == failure_message(lang@, failed as nat, succeeded as nat, texts(details@)),
{
    let a = concat("failed to parse ", decimal_string(failed).as_str());
    let b = concat(a.as_str(), " of ");
    let c = concat(b.as_str(), decimal_string(failed + succeeded).as_str());
    let d = concat(c.as_str(), " ");
    let e = concat(d.as_str(), lang);
    let f = concat(e.as_str(), " file(s)\n");
    concat(f.as_str(), join_lines(details).as_str())
}

/// The detail line for a file that was passed over.
pub open spec fn skip_detail(file: Seq<char>, why: Seq<char>) -> Seq<char> {
    "skipping "@ + file + ": "@ + why
}

/// The functions added to `before` to give `after`.
pub open spec fn added_rows(before: Seq<LocatedFn>, after: Seq<LocatedFn>) -> Seq<FunctionComplexity> {
    Seq::new((after.len() - before.len()) as nat, |k: int| after[before.len() + k].function)
}

/// `after` is `before` followed by the functions found in `source` (read
/// as `file`), each under package `crate_name`.
pub open spec fn collected(before: Seq<LocatedFn>, after: Seq<LocatedFn>, file: Seq<char>, source: Seq<char>, crate_name: Option<Seq<char>>, metric: Metric) -> bool {
    &&& before.len() <= after.len()
    &&& forall|k: int| 0 <= k < before.len() ==> after[k] == before[k]
    &&& rows_for(added_rows(before, after), file, vstd::utf8::encode_utf8(source), metric)
    &&& forall|k: int|
        before.len() <= k < after.len() ==> {
            &&& opt_string((#[trigger] after[k]).crate_name) == crate_name
            &&& after[k].join_key is None
        }
}

pub open spec fn name_view(n: Option<&str>) -> Option<Seq<char>> {
    match n {
        Some(s) => Some(s@),
        None => None,
    }
}

/// Analyzes the text of `file`: its functions are added under
/// `crate_name`, or a detail line says why it failed.
pub fn analyze_into(
    file: &str,
    source: &str,
    crate_name: Option<&str>,
    metric: Metric,
    functions: &mut Vec<LocatedFn>,
    details: &mut Vec<String>,
) -> (r: FileOutcome)
    ensures
        match structure_check(vstd::utf8::encode_utf8(source@)) {
            Err(p) => {
                &&& r == FileOutcome::Failed
                &&& final(functions)@ == old(functions)@
                &&& texts(final(details)@) == texts(old(details)@).push(skip_detail(file@, file@ + ": "@ + problem_text(p)))
            },
            Ok(_) => {
                &&& r == FileOutcome::Collected
                &&& texts(final(details)@) == texts(old(details)@)
                &&& collected(old(functions)@, final(functions)@, file@, source@, name_view(crate_name), metric)
            },
        },
{
    match analyze_source(file, source, metric) {
        Ok(found) => {
            let ghost before = functions@;
            let mut k: usize = 0;
            while k < found.len()
                invariant
                    k <= found@.len(),
                    functions@.len() == before.len() + k,
                    forall|q: int| 0 <= q < before.len() ==> functions@[q] == before[q],
                    forall|q: int| 0 <= q < k ==> crate::merge::same_fn(#[trigger] functions@[before.len() + q].function, found@[q]),
                    forall|q: int|
                        before.len() <= q < functions@.len() ==> {
                            &&& opt_string((#[trigger] functions@[q]).crate_name) == name_view(crate_name)
                            &&& functions@[q].join_key is None
                        },
                decreases found.len() - k,
            {
                let name = match crate_name {
                    Some(n) => Some(owned(n)),
                    None => None,
                };
                functions.push(LocatedFn { function: found[k].copy(), crate_name: name, join_key: None });
                k = k + 1;
            }
            proof {
                let added = added_rows(before, functions@);
                assert(added.len() == found@.len());
                assert forall|q: int| 0 <= q < added.len() implies crate::merge::same_fn(#[trigger] added[q], found@[q]) by {
                    assert(added[q] == functions@[before.len() + q].function);
                }
            }
            FileOutcome::Collected
        },
        Err(e) => {
            let why = e.to_string();
            let head = concat("skipping ", file);
            let head2 = concat(head.as_str(), ": ");
            let ghost before = details@;
            details.push(concat(head2.as_str(), why.as_str()));
            assert(texts(details@) =~= texts(before).push(details@.last()@));
            FileOutcome::Failed
        },
    }
}

/// What the text of a Go file contributes: nothing when a build constraint
/// excludes it, else its functions or a detail line.
pub fn take_source(
    file: &str,
    source: &str,
    crate_name: Option<&str>,
    metric: Metric,
    tags: &[String],
    host: &str,
    functions: &mut Vec<LocatedFn>,
    details: &mut Vec<String>,
) -> (r: FileOutcome)
    ensures
        skipped(source@, tag_texts(tags@), host@) ==> (r == FileOutcome::Skipped && final(functions)@
            == old(functions)@ && final(details)@ == old(details)@),
        !skipped(source@, tag_texts(tags@), host@) ==> match structure_check(vstd::utf8::encode_utf8(source@)) {
            Err(p) => {
                &&& r == FileOutcome::Failed
                &&& final(functions)@ == old(functions)@
                &&& texts(final(details)@) == texts(old(details)@).push(skip_detail(file@, file@ + ": "@ + problem_text(p)))
            },
            Ok(_) => {
                &&& r == FileOutcome::Collected
                &&& texts(final(details)@) == texts(old(details)@)
                &&& collected(old(functions)@, final(functions)@, file@, source@, name_view(crate_name), metric)
            },
        },
{
    if skip_file(source, tags, host) {
        return FileOutcome::Skipped;
    }
    analyze_into(file, source, crate_name, metric, functions, details)
}

/// A file that could not be read: a detail line with the reason.
pub fn read_failed(file: &str, reason: &str, details: &mut Vec<String>) -> (r: FileOutcome)
    ensures
        r == FileOutcome::Failed,
        texts(final(details)@) == texts(old(details)@).push(skip_detail(file@, reason@)),
{
    let head = concat("skipping ", file);
    let head2 = concat(head.as_str(), ": ");
    let ghost before = details@;
    details.push(concat(head2.as_str(), reason));
    assert(texts(details@) =~= texts(before).push(details@.last()@));
    FileOutcome::Failed
}

/// The end of a collection: the functions when no file failed, else a
/// collect error naming the failures.
pub fn finish_collect(functions: Vec<LocatedFn>, details: &[String], succeeded: usize, failed: usize) -> (r: Result<Vec<LocatedFn>, Error>)
    requires
        failed + succeeded <= usize::MAX,
    ensures
        failed == 0 ==> (r matches Ok(v) && v@ == functions@),
        failed > 0 ==> (r matches Err(e) && e matches Error::Collect(m) && m@ == failure_message(
            "Go"@,
            failed as nat,
            succeeded as nat,
            texts(details@),
        )),
{
    if failed > 0 {
        return Err(Error::Collect(collect_failure("Go", failed, succeeded, details)));
    }
    Ok(functions)
}

} // verus!
