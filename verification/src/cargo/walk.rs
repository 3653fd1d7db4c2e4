//! Which directories a Rust source walk enters and which files it keeps.
use crate::path::texts;
use crate::rust_path::{
    file_name, file_name_of, path_parts, path_starts_with, rust_parts, same_path,
};
use crate::text::{chars_of, str_eq};
use vstd::prelude::*;

verus! {

/// Directory names skipped at any depth.
pub open spec fn always_skipped(name: Seq<char>) -> bool {
    name == "target"@ || name == ".git"@
}

/// First components, relative to the analysis root, that are never scored.
pub open spec fn default_excluded(name: Seq<char>) -> bool {
    name == "tests"@ || name == "benches"@ || name == "examples"@
}

/// A directory is skipped when it is a nested member root, or (below the
/// root) when it is named `target` or `.git`.
pub open spec fn skips_dir(dir: Seq<char>, root: Seq<char>, nested: Seq<Seq<char>>) -> bool {
    if exists|k: int| 0 <= k < nested.len() && rust_parts(dir) == rust_parts(#[trigger] nested[k]) {
        true
    } else if rust_parts(dir) == rust_parts(root) {
        false
    } else {
        match file_name(dir) {
            Some(n) => always_skipped(n),
            None => false,
        }
    }
}

/// `path`'s first component below `root` is `tests`, `benches` or `examples`.
pub open spec fn excluded_under(path: Seq<char>, root: Seq<char>) -> bool {
    let a = rust_parts(path);
    let b = rust_parts(root);
    path_starts_with(path, root) && a.len() > b.len() && default_excluded(a[b.len() as int])
}

/// A file name whose extension (`Path::extension`) is `rs`: it ends in
/// `.rs` after at least one other character.
pub open spec fn rs_name(name: Seq<char>) -> bool {
    name.len() >= 4 && name.subrange(name.len() - 3, name.len() as int) == ".rs"@
}

/// Whether a walk under `root` skips directory `dir`.
pub fn skip_dir(dir: &str, root: &str, nested_skip: &[String]) -> (r: bool)
    ensures
        r == skips_dir(dir@, root@, texts(nested_skip@)),
{
    let mut k: usize = 0;
    while k < nested_skip.len()
        invariant
            k <= nested_skip.len(),
            forall|m: int| 0 <= m < k ==> rust_parts(dir@) != rust_parts(#[trigger] texts(nested_skip@)[m]),
        decreases nested_skip.len() - k,
    {
        if same_path(dir, nested_skip[k].as_str()) {
            assert(texts(nested_skip@)[k as int] == nested_skip@[k as int]@);
            return true;
        }
        assert(texts(nested_skip@)[k as int] == nested_skip@[k as int]@);
        k = k + 1;
    }
    if same_path(dir, root) {
        return false;
    }
    match file_name_of(dir) {
        Some(name) => str_eq(name.as_str(), "target") || str_eq(name.as_str(), ".git"),
        None => false,
    }
}

/// Whether `path`, relative to `root`, starts in an excluded directory.
pub fn excluded_rel(path: &str, root: &str) -> (r: bool)
    ensures
        r == excluded_under(path@, root@),
{
    let a = path_parts(path);
    let b = path_parts(root);
    if !crate::rust_path::starts_with_path(path, root) {
        return false;
    }
    if a.len() <= b.len() {
        return false;
    }
    let first = &a[b.len()];
    assert(texts(a@)[b@.len() as int] == first@);
    str_eq(first.as_str(), "tests") || str_eq(first.as_str(), "benches") || str_eq(
        first.as_str(),
        "examples",
    )
}

/// Whether `path` names a Rust source file.
pub fn is_rust_file(path: &str) -> (r: bool)
    ensures
        r == (file_name(path@) matches Some(n) && rs_name(n)),
{
    proof {
        reveal_strlit(".rs");
    }
    match file_name_of(path) {
        Some(name) => crate::text::ends_with_text(name.as_str(), ".rs") && chars_of(name.as_str()).len() >= 4,
        None => false,
    }
}

} // verus!
