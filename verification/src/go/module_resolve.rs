//! Go packages and modules: import paths, selection, uniqueness, and the
//! `module` line of `go.mod`.
use crate::chars::{char_lines, split_lines, split_lines_of, starts_with, trim_chars, trimmed};
use crate::error::Error;
use crate::path::texts;
use crate::rust_path::{
    file_name, file_name_of, path_parts, path_starts_with, rust_parts, same_path,
    starts_with_path,
};
use crate::text::{
    chars_of, concat, ends_with_text, lemma_text_lt_asymmetric, lemma_text_lt_transitive, owned,
    starts_with_text, str_eq, string_from, text_before, text_lt,
};
use vstd::prelude::*;

verus! {

/// A Go package directory discovered under a module root.
#[derive(Debug, Clone, PartialEq, Eq)]
pub struct Package {
    /// Import path used as the report package name.
    pub name: String,
    /// Directory that contains the package's `.go` files.
    pub root: String,
}

/// Roots of the first `n` packages that lie strictly under `root`.
pub open spec fn nested_module_roots_upto(root: Seq<char>, all: Seq<Package>, n: nat) -> Seq<Seq<char>>
    decreases n,
{
    if n == 0 || n > all.len() {
        Seq::empty()
    } else {
        let prev = nested_module_roots_upto(root, all, (n - 1) as nat);
        let r = all[n - 1].root@;
        if rust_parts(r) != rust_parts(root) && path_starts_with(r, root) {
            prev.push(r)
        } else {
            prev
        }
    }
}

/// Nested module roots under `root` that a walk must not enter.
pub fn nested_module_roots(root: &str, all: &[Package]) -> (r: Vec<String>)
    ensures
        Seq::new(r@.len(), |k: int| r@[k]@) == nested_module_roots_upto(root@, all@, all@.len() as nat),
{
    let mut out: Vec<String> = Vec::new();
    let mut k: usize = 0;
    while k < all.len()
        invariant
            k <= all.len(),
            Seq::new(out@.len(), |m: int| out@[m]@) == nested_module_roots_upto(root@, all@, k as nat),
        decreases all.len() - k,
    {
        let other = all[k].root.as_str();
        let ghost before = Seq::new(out@.len(), |m: int| out@[m]@);
        if !same_path(other, root) && starts_with_path(other, root) {
            out.push(all[k].root.clone());
            assert(Seq::new(out@.len(), |m: int| out@[m]@) =~= before.push(all@[k as int].root@));
        }
        k = k + 1;
    }
    out
}

/// Index of the first package named `name` at or after `k`.
pub open spec fn package_from(all: Seq<Package>, name: Seq<char>, k: int) -> Option<int>
    decreases all.len() - k,
{
    if 0 <= k < all.len() {
        if all[k].name@ == name {
            Some(k)
        } else {
            package_from(all, name, k + 1)
        }
    } else {
        None
    }
}

/// The packages named by the first `n` names, or the first name without one.
pub open spec fn package_selection(all: Seq<Package>, names: Seq<String>, n: nat) -> Result<Seq<Package>, Seq<char>>
    decreases n,
{
    if n == 0 || n > names.len() {
        Ok(Seq::empty())
    } else {
        match package_selection(all, names, (n - 1) as nat) {
            Err(e) => Err(e),
            Ok(v) => match package_from(all, names[n - 1]@, 0) {
                Some(k) => Ok(v.push(all[k])),
                None => Err(names[n - 1]@),
            },
        }
    }
}

/// The message for a package name that no package has.
pub open spec fn unknown_package_message(name: Seq<char>) -> Seq<char> {
    "unknown package `"@ + name + "`"@
}

pub proof fn lemma_package_selection_fails(all: Seq<Package>, names: Seq<String>, n: nat, m: nat)
    requires
        n <= m <= names.len(),
        package_selection(all, names, n) is Err,
    ensures
        package_selection(all, names, m) == package_selection(all, names, n),
    decreases m - n,
{
    if n < m {
        lemma_package_selection_fails(all, names, n, (m - 1) as nat);
    }
}

fn find_package(all: &[Package], name: &str) -> (r: Option<usize>)
    ensures
        match r {
            Some(k) => package_from(all@, name@, 0) == Some(k as int) && k < all@.len(),
            None => package_from(all@, name@, 0) is None,
        },
{
    let mut k: usize = 0;
    while k < all.len()
        invariant
            k <= all.len(),
            package_from(all@, name@, k as int) == package_from(all@, name@, 0),
        decreases all.len() - k,
    {
        if str_eq(all[k].name.as_str(), name) {
            return Some(k);
        }
        k = k + 1;
    }
    None
}

/// The packages named by `names` (import paths), in that order; fails with a
/// resolve error on the first name that no package has.
pub fn selected_packages(names: &[String], all: &[Package]) -> (r: Result<Vec<Package>, Error>)
    ensures
        match r {
            Ok(v) => package_selection(all@, names@, names@.len() as nat) == Ok::<Seq<Package>, Seq<char>>(v@),
            Err(e) => exists|n: Seq<char>|
                package_selection(all@, names@, names@.len() as nat) == Err::<Seq<Package>, Seq<char>>(n)
                    && (e matches Error::Resolve(m) && m@ == unknown_package_message(n)),
        },
{
    let mut selected: Vec<Package> = Vec::new();
    let mut i: usize = 0;
    while i < names.len()
        invariant
            i <= names.len(),
            package_selection(all@, names@, i as nat) == Ok::<Seq<Package>, Seq<char>>(selected@),
        decreases names.len() - i,
    {
        match find_package(all, names[i].as_str()) {
            Some(k) => {
                let pkg = Package { name: all[k].name.clone(), root: all[k].root.clone() };
                assert(pkg == all@[k as int]);
                selected.push(pkg);
            },
            None => {
                proof {
                    lemma_package_selection_fails(all@, names@, (i + 1) as nat, names@.len() as nat);
                }
                let head = concat("unknown package `", names[i].as_str());
                let message = concat(head.as_str(), "`");
                return Err(Error::Resolve(message));
            },
        }
        i = i + 1;
    }
    Ok(selected)
}

/// The message for a package name used twice.
pub open spec fn duplicate_message(name: Seq<char>, first: Seq<char>, second: Seq<char>) -> Seq<char> {
    "duplicate package name `"@ + name + "` at "@ + first + " and "@ + second
}

/// Fails when two packages share a name, naming the first repeat found in
/// package order and the earlier package it repeats.
pub fn ensure_unique_names(packages: &[Package]) -> (r: Result<(), Error>)
    ensures
        r is Ok <==> forall|i: int, j: int|
            0 <= j < i < packages@.len() ==> packages@[j].name@ != packages@[i].name@,
        r matches Err(e) ==> exists|i: int, j: int|
            0 <= j < i < packages@.len() && packages@[j].name@ == packages@[i].name@ && (forall|q: int, p: int|
                0 <= p < q < i ==> packages@[p].name@ != packages@[q].name@) && (forall|p: int|
                0 <= p < j ==> packages@[p].name@ != packages@[i].name@) && (e matches Error::Resolve(m)
                && m@ == duplicate_message(packages@[i].name@, packages@[j].root@, packages@[i].root@)),
{
    let mut i: usize = 0;
    while i < packages.len()
        invariant
            i <= packages.len(),
            forall|q: int, p: int| 0 <= p < q < i ==> packages@[p].name@ != packages@[q].name@,
        decreases packages.len() - i,
    {
        match find_package(&packages[0..i], packages[i].name.as_str()) {
            Some(j) => {
                let head = concat("duplicate package name `", packages[i].name.as_str());
                let head = concat(head.as_str(), "` at ");
                let head = concat(head.as_str(), packages[j].root.as_str());
                let head = concat(head.as_str(), " and ");
                let message = concat(head.as_str(), packages[i].root.as_str());
                proof {
                    lemma_found_first(packages@.subrange(0, i as int), packages@[i as int].name@, j as int);
                }
                return Err(Error::Resolve(message));
            },
            None => {
                proof {
                    lemma_not_found(packages@.subrange(0, i as int), packages@[i as int].name@);
                    assert forall|q: int, p: int| 0 <= p < q < i + 1 implies packages@[p].name@
                        != packages@[q].name@ by {
                        if q == i {
                            assert(packages@.subrange(0, i as int)[p] == packages@[p]);
                        }
                    }
                }
            },
        }
        i = i + 1;
    }
    Ok(())
}

pub proof fn lemma_found_first(all: Seq<Package>, name: Seq<char>, j: int)
    requires
        package_from(all, name, 0) == Some(j),
    ensures
        0 <= j < all.len(),
        all[j].name@ == name,
        forall|p: int| 0 <= p < j ==> all[p].name@ != name,
{
    lemma_package_from(all, name, 0);
}

pub proof fn lemma_not_found(all: Seq<Package>, name: Seq<char>)
    requires
        package_from(all, name, 0) is None,
    ensures
        forall|p: int| 0 <= p < all.len() ==> all[p].name@ != name,
{
    lemma_package_from(all, name, 0);
}

pub proof fn lemma_package_from(all: Seq<Package>, name: Seq<char>, k: int)
    requires
        0 <= k,
    ensures
        package_from(all, name, k) matches Some(j) ==> k <= j < all.len() && all[j].name@ == name
            && forall|p: int| k <= p < j ==> all[p].name@ != name,
        package_from(all, name, k) is None ==> forall|p: int| k <= p < all.len() ==> all[p].name@ != name,
    decreases all.len() - k,
{
    if k < all.len() && all[k].name@ != name {
        lemma_package_from(all, name, k + 1);
    }
}

/// The import path of a package directory: the module path, followed by
/// the directory's path relative to the module root when it is below it.
pub open spec fn import_path_of(dir: Seq<char>, module_root: Seq<char>, module_name: Seq<char>) -> Seq<char> {
    let a = rust_parts(dir);
    let b = rust_parts(module_root);
    if path_starts_with(dir, module_root) && a.len() > b.len() {
        module_name + seq!['/'] + crate::go::module_resolve::slash_join(a.subrange(b.len() as int, a.len() as int))
    } else {
        module_name
    }
}

/// Components joined with `/`.
pub open spec fn slash_join(parts: Seq<Seq<char>>) -> Seq<char>
    decreases parts.len(),
{
    if parts.len() == 0 {
        Seq::empty()
    } else if parts.len() == 1 {
        parts[0]
    } else {
        slash_join(parts.drop_last()) + seq!['/'] + parts.last()
    }
}

/// The import path of package directory `dir` in the module at `module_root`.
pub fn import_path(dir: &str, module_root: &str, module_name: &str) -> (r: String)
    ensures
        r@ == import_path_of(dir@, module_root@, module_name@),
{
    let a = path_parts(dir);
    let b = path_parts(module_root);
    if !starts_with_path(dir, module_root) || a.len() <= b.len() {
        return owned(module_name);
    }
    let mut rel: Vec<char> = Vec::new();
    let mut k = b.len();
    let ghost parts = texts(a@);
    while k < a.len()
        invariant
            b.len() <= k <= a.len(),
            b@.len() < a@.len(),
            parts == texts(a@),
            rel@ == (if k == b.len() { Seq::<char>::empty() } else { slash_join(parts.subrange(b@.len() as int, k as int)) }),
        decreases a.len() - k,
    {
        let piece = chars_of(a[k].as_str());
        let ghost prev = parts.subrange(b@.len() as int, k as int);
        assert(parts.subrange(b@.len() as int, k + 1).drop_last() =~= prev);
        if k > b.len() {
            rel.push('/');
        } else {
            assert(parts.subrange(b@.len() as int, k + 1) =~= seq![parts[k as int]]);
        }
        let mut j: usize = 0;
        let ghost base = rel@;
        while j < piece.len()
            invariant
                j <= piece.len(),
                rel@ == base + piece@.subrange(0, j as int),
            decreases piece.len() - j,
        {
            rel.push(piece[j]);
            proof {
                assert(piece@.subrange(0, j + 1) =~= piece@.subrange(0, j as int).push(piece@[j as int]));
            }
            j = j + 1;
        }
        assert(piece@.subrange(0, piece@.len() as int) =~= piece@);
        k = k + 1;
    }
    let tail = string_from(rel.as_slice());
    let head = concat(module_name, "/");
    proof {
        reveal_strlit("/");
        assert(parts.subrange(b@.len() as int, a@.len() as int) == texts(a@).subrange(b@.len() as int, a@.len() as int));
    }
    concat(head.as_str(), tail.as_str())
}

/// The module path named by one `go.mod` line, if the line declares one.
pub open spec fn module_line(line: Seq<char>) -> Option<Seq<char>> {
    let t = trimmed(line);
    if starts_with(t, "module"@) && trimmed(t.skip("module"@.len() as int)).len() > 0 {
        Some(trimmed(t.skip("module"@.len() as int)))
    } else {
        None
    }
}

/// The module path of the first line of `text` that declares one.
pub open spec fn module_from_lines(lines: Seq<Seq<char>>, k: int) -> Option<Seq<char>>
    decreases lines.len() - k,
{
    if 0 <= k < lines.len() {
        match module_line(lines[k]) {
            Some(m) => Some(m),
            None => module_from_lines(lines, k + 1),
        }
    } else {
        None
    }
}

fn module_line_name(line: &[char]) -> (r: Option<Vec<char>>)
    ensures
        match r {
            Some(m) => module_line(line@) == Some(m@),
            None => module_line(line@) is None,
        },
{
    let t = trim_chars(line);
    let word = chars_of("module");
    if word.len() > t.len() {
        return None;
    }
    let mut k: usize = 0;
    while k < word.len()
        invariant
            k <= word.len() <= t.len(),
            word@ == "module"@,
            t@ == trimmed(line@),
            forall|m: int| 0 <= m < k ==> t@[m] == word@[m],
        decreases word.len() - k,
    {
        if t[k] != word[k] {
            assert(t@.subrange(0, word@.len() as int)[k as int] != word@[k as int]);
            return None;
        }
        k = k + 1;
    }
    assert(t@.subrange(0, word@.len() as int) =~= "module"@);
    let mut rest: Vec<char> = Vec::new();
    let mut j = word.len();
    while j < t.len()
        invariant
            word.len() <= j <= t.len(),
            rest@ == t@.subrange(word@.len() as int, j as int),
        decreases t.len() - j,
    {
        rest.push(t[j]);
        proof {
            assert(t@.subrange(word@.len() as int, j + 1) =~= t@.subrange(word@.len() as int, j as int).push(t@[j as int]));
        }
        j = j + 1;
    }
    assert(rest@ =~= t@.skip("module"@.len() as int));
    let name = trim_chars(rest.as_slice());
    if name.len() == 0 {
        None
    } else {
        Some(name)
    }
}

/// The message for a `go.mod` without a module line.
pub open spec fn missing_module_message(path: Seq<char>) -> Seq<char> {
    path + ": missing module path"@
}

/// The module path declared in `go.mod` text read from `path`.
pub fn module_path_from_text(text: &str, path: &str) -> (r: Result<String, Error>)
    ensures
        match module_from_lines(split_lines(text@), 0) {
            Some(m) => r matches Ok(s) && s@ == m,
            None => r matches Err(Error::Resolve(msg)) && msg@ == missing_module_message(path@),
        },
{
    let cs = chars_of(text);
    let lines = split_lines_of(cs.as_slice());
    let mut k: usize = 0;
    while k < lines.len()
        invariant
            k <= lines.len(),
            char_lines(lines@) == split_lines(text@),
            module_from_lines(char_lines(lines@), k as int) == module_from_lines(char_lines(lines@), 0),
        decreases lines.len() - k,
    {
        assert(char_lines(lines@)[k as int] == lines@[k as int]@);
        if let Some(name) = module_line_name(lines[k].as_slice()) {
            return Ok(string_from(name.as_slice()));
        }
        k = k + 1;
    }
    Err(Error::Resolve(concat(path, ": missing module path")))
}

/// A Go source file that is not a test: its name ends in `.go` after at
/// least one character and does not end in `_test.go`.
pub open spec fn go_source_name(name: Seq<char>) -> bool {
    name.len() >= 4 && name.subrange(name.len() - 3, name.len() as int) == ".go"@ && !(name.len()
        >= 8 && name.subrange(name.len() - 8, name.len() as int) == "_test.go"@)
}

/// Whether `path` names a non-test Go source file.
pub fn is_go_source_path(path: &str) -> (r: bool)
    ensures
        r == (file_name(path@) matches Some(n) && go_source_name(n)),
{
    proof {
        reveal_strlit(".go");
        reveal_strlit("_test.go");
    }
    match file_name_of(path) {
        Some(name) => ends_with_text(name.as_str(), ".go") && chars_of(name.as_str()).len() >= 4
            && !ends_with_text(name.as_str(), "_test.go"),
        None => false,
    }
}

/// Directory names that package discovery never enters.
pub open spec fn skipped_dir_name(name: Seq<char>) -> bool {
    name == "vendor"@ || name == ".git"@ || name == "testdata"@
}

/// Whether the last component of `path` is `vendor`, `.git` or `testdata`.
pub fn is_skip_dir_name(path: &str) -> (r: bool)
    ensures
        r == (file_name(path@) matches Some(n) && skipped_dir_name(n)),
{
    match file_name_of(path) {
        Some(name) => str_eq(name.as_str(), "vendor") || str_eq(name.as_str(), ".git") || str_eq(
            name.as_str(),
            "testdata",
        ),
        None => false,
    }
}

/// The roots a package walk skips are other packages' roots, each
/// strictly below the package's own root.
pub proof fn lemma_nested_module_roots_are_children(root: Seq<char>, all: Seq<Package>, n: nat)
    ensures
        forall|k: int|
            0 <= k < nested_module_roots_upto(root, all, n).len() ==> {
                let r = #[trigger] nested_module_roots_upto(root, all, n)[k];
                &&& crate::rust_path::path_starts_with(r, root)
                &&& crate::rust_path::rust_parts(r) != crate::rust_path::rust_parts(root)
                &&& exists|j: int| 0 <= j < all.len() && all[j].root@ == r
            },
    decreases n,
{
    if n > 0 && n <= all.len() {
        lemma_nested_module_roots_are_children(root, all, (n - 1) as nat);
        let prev = nested_module_roots_upto(root, all, (n - 1) as nat);
        let cur = nested_module_roots_upto(root, all, n);
        assert forall|k: int| 0 <= k < cur.len() implies {
            let r = #[trigger] cur[k];
            &&& crate::rust_path::path_starts_with(r, root)
            &&& crate::rust_path::rust_parts(r) != crate::rust_path::rust_parts(root)
            &&& exists|j: int| 0 <= j < all.len() && all[j].root@ == r
        } by {
            if k < prev.len() {
                assert(cur[k] == prev[k]);
            } else {
                assert(all[n - 1].root@ == cur[k]);
            }
        }
    }
}

/// The first index at or after `k` whose key sorts after `key`.
pub open spec fn first_after(keys: Seq<Seq<char>>, key: Seq<char>, k: int) -> int
    decreases keys.len() - k,
{
    if 0 <= k < keys.len() && !text_lt(key, keys[k]) {
        first_after(keys, key, k + 1)
    } else {
        k
    }
}

/// Names of a list of packages.
pub open spec fn package_names(v: Seq<Package>) -> Seq<Seq<char>> {
    Seq::new(v.len(), |k: int| v[k].name@)
}

/// `v` sorted by name, packages of equal names kept in their order
/// (insertion of each package after every package not named after it).
pub open spec fn sorted_by_name(v: Seq<Package>) -> Seq<Package>
    decreases v.len(),
{
    if v.len() == 0 {
        Seq::empty()
    } else {
        let prev = sorted_by_name(v.drop_last());
        prev.insert(first_after(package_names(prev), v.last().name@, 0), v.last())
    }
}

/// Packages sorted by name; packages of equal names keep their order.
pub fn sort_by_name(packages: Vec<Package>) -> (r: Vec<Package>)
    ensures
        r@ == sorted_by_name(packages@),
{
    let ghost input = packages@;
    let total = packages.len();
    let mut rest = packages;
    let mut out: Vec<Package> = Vec::new();
    let mut n: usize = 0;
    while rest.len() > 0
        invariant
            n + rest@.len() == input.len(),
            input.len() == total,
            rest@ == input.subrange(n as int, input.len() as int),
            out@ == sorted_by_name(input.take(n as int)),
        decreases rest.len(),
    {
        let p = rest.remove(0);
        let mut i: usize = 0;
        while i < out.len() && !text_before(p.name.as_str(), out[i].name.as_str())
            invariant
                i <= out@.len(),
                first_after(package_names(out@), p.name@, i as int) == first_after(package_names(out@), p.name@, 0),
            decreases out.len() - i,
        {
            assert(package_names(out@)[i as int] == out@[i as int].name@);
            i = i + 1;
        }
        proof {
            if i < out@.len() {
                assert(package_names(out@)[i as int] == out@[i as int].name@);
            }
            assert(input.take(n + 1).drop_last() =~= input.take(n as int));
            assert(input.take(n + 1).last() == p);
        }
        out.insert(i, p);
        n = n + 1;
    }
    assert(input.take(input.len() as int) =~= input);
    out
}

/// Packages as a module lists them: sorted by name, and refused when two
/// share a name.
pub fn order_packages(packages: Vec<Package>) -> (r: Result<Vec<Package>, Error>)
    ensures
        ({
            let s = sorted_by_name(packages@);
            &&& r is Ok <==> forall|i: int, j: int| 0 <= j < i < s.len() ==> s[j].name@ != s[i].name@
            &&& r matches Ok(v) ==> v@ == s
        }),
{
    let sorted = sort_by_name(packages);
    match ensure_unique_names(sorted.as_slice()) {
        Ok(()) => Ok(sorted),
        Err(e) => Err(e),
    }
}

/// Import paths of a list of `(root, import path)` modules.
pub open spec fn module_names(v: Seq<(String, String)>) -> Seq<Seq<char>> {
    Seq::new(v.len(), |k: int| v[k].1@)
}

/// Modules sorted by import path, equal paths kept in their order.
pub open spec fn sorted_by_module(v: Seq<(String, String)>) -> Seq<(String, String)>
    decreases v.len(),
{
    if v.len() == 0 {
        Seq::empty()
    } else {
        let prev = sorted_by_module(v.drop_last());
        prev.insert(first_after(module_names(prev), v.last().1@, 0), v.last())
    }
}

/// Modules `(root, import path)` sorted by import path; modules of equal
/// paths keep their order.
pub fn sort_modules(modules: Vec<(String, String)>) -> (r: Vec<(String, String)>)
    ensures
        r@ == sorted_by_module(modules@),
{
    let ghost input = modules@;
    let total = modules.len();
    let mut rest = modules;
    let mut out: Vec<(String, String)> = Vec::new();
    let mut n: usize = 0;
    while rest.len() > 0
        invariant
            n + rest@.len() == input.len(),
            input.len() == total,
            rest@ == input.subrange(n as int, input.len() as int),
            out@ == sorted_by_module(input.take(n as int)),
        decreases rest.len(),
    {
        let m = rest.remove(0);
        let mut i: usize = 0;
        while i < out.len() && !text_before(m.1.as_str(), out[i].1.as_str())
            invariant
                i <= out@.len(),
                first_after(module_names(out@), m.1@, i as int) == first_after(module_names(out@), m.1@, 0),
            decreases out.len() - i,
        {
            assert(module_names(out@)[i as int] == out@[i as int].1@);
            i = i + 1;
        }
        proof {
            if i < out@.len() {
                assert(module_names(out@)[i as int] == out@[i as int].1@);
            }
            assert(input.take(n + 1).drop_last() =~= input.take(n as int));
            assert(input.take(n + 1).last() == m);
        }
        out.insert(i, m);
        n = n + 1;
    }
    assert(input.take(input.len() as int) =~= input);
    out
}

/// Positions before `first_after(keys, key, k)` (from `k` on) hold keys
/// that do not sort after `key`, and the position itself, if inside, holds
/// one that does.
proof fn lemma_first_after(keys: Seq<Seq<char>>, key: Seq<char>, k: int)
    requires
        0 <= k <= keys.len(),
    ensures
        k <= first_after(keys, key, k) <= keys.len(),
        forall|m: int| k <= m < first_after(keys, key, k) ==> !text_lt(key, #[trigger] keys[m]),
        first_after(keys, key, k) < keys.len() ==> text_lt(key, keys[first_after(keys, key, k)]),
    decreases keys.len() - k,
{
    if k < keys.len() && !text_lt(key, keys[k]) {
        lemma_first_after(keys, key, k + 1);
    }
}

/// Sorting by name keeps every package, as often as it came, and leaves no
/// package after one whose name sorts after its own.
pub proof fn lemma_sorted_by_name(v: Seq<Package>)
    ensures
        sorted_by_name(v).to_multiset() =~= v.to_multiset(),
        forall|i: int, j: int|
            0 <= i < j < sorted_by_name(v).len() ==> !text_lt(
                #[trigger] sorted_by_name(v)[j].name@,
                #[trigger] sorted_by_name(v)[i].name@,
            ),
    decreases v.len(),
{
    broadcast use vstd::seq_lib::group_to_multiset_ensures;
    if v.len() > 0 {
        let prev = sorted_by_name(v.drop_last());
        lemma_sorted_by_name(v.drop_last());
        let x = v.last();
        let keys = package_names(prev);
        let p = first_after(keys, x.name@, 0);
        lemma_first_after(keys, x.name@, 0);
        let s = prev.insert(p, x);
        assert(s == sorted_by_name(v));
        assert(s.remove(p) =~= prev);
        assert(s[p] == x);
        assert(s.to_multiset().remove(x) =~= prev.to_multiset());
        assert(s.to_multiset().count(x) > 0);
        assert(v.drop_last().push(x) =~= v);
        assert(s.to_multiset() =~= prev.to_multiset().insert(x));
        assert forall|i: int, j: int| 0 <= i < j < s.len() implies !text_lt(#[trigger] s[j].name@, #[trigger] s[i].name@) by {
            if j < p {
                assert(s[i] == prev[i] && s[j] == prev[j]);
            } else if j == p {
                assert(s[i] == prev[i]);
                assert(keys[i] == prev[i].name@);
                assert(!text_lt(x.name@, keys[i]));
            } else if i == p {
                assert(s[j] == prev[j - 1]);
                assert(keys[p] == prev[p].name@);
                assert(text_lt(x.name@, prev[p].name@));
                if j - 1 > p {
                    assert(!text_lt(prev[j - 1].name@, prev[p].name@));
                }
                if text_lt(prev[j - 1].name@, x.name@) {
                    if j - 1 == p {
                        lemma_text_lt_asymmetric(x.name@, prev[p].name@);
                    } else {
                        lemma_text_lt_transitive(prev[j - 1].name@, x.name@, prev[p].name@);
                    }
                }
            } else if i < p {
                assert(s[i] == prev[i] && s[j] == prev[j - 1]);
            } else {
                assert(s[i] == prev[i - 1] && s[j] == prev[j - 1]);
            }
        }
    }
}

/// The modules that coverprofile keys are moved under: those found under
/// the analysis root, else the module enclosing it, when there is one.
pub fn remap_modules(found: Vec<(String, String)>, enclosing: Option<(String, String)>) -> (r: Vec<
    (String, String),
>)
    ensures
        found@.len() > 0 ==> r@ == found@,
        found@.len() == 0 ==> r@ == match enclosing {
            Some(m) => seq![m],
            None => Seq::<(String, String)>::empty(),
        },
{
    if found.len() > 0 {
        return found;
    }
    let mut out: Vec<(String, String)> = Vec::new();
    match enclosing {
        Some(m) => {
            out.push(m);
            assert(out@ =~= seq![m]);
        },
        None => {
            assert(out@ =~= Seq::<(String, String)>::empty());
        },
    }
    out
}

/// What a directory of a module tree is to the package walk.
pub enum PackageDir {
    /// The root of a nested module: not walked, its packages are its own.
    NestedModule,
    /// Walked; the package it holds, if it holds `.go` sources.
    Walked(Option<Package>),
}

/// Whether some entry of `names` is a Go source file (not a test).
pub open spec fn has_go_source(names: Seq<String>) -> bool {
    exists|k: int| 0 <= k < names.len() && (file_name((#[trigger] names[k])@) matches Some(n) && go_source_name(n))
}

/// Directory `dir` of the module rooted at `module_root` named
/// `module_name`: a nested module when it is not the root and holds a
/// `go.mod`; otherwise walked, and a package (named by its import path)
/// when one of its entries `entries` is a Go source file.
pub fn package_dir(dir: &str, module_root: &str, module_name: &str, has_go_mod: bool, entries: &[String]) -> (r:
    PackageDir)
    ensures
        rust_parts(dir@) != rust_parts(module_root@) && has_go_mod ==> r is NestedModule,
        !(rust_parts(dir@) != rust_parts(module_root@) && has_go_mod) ==> match r {
            PackageDir::NestedModule => false,
            PackageDir::Walked(p) => (p is Some <==> has_go_source(entries@)) && (p matches Some(pkg) ==> pkg.name@
                == import_path_of(dir@, module_root@, module_name@) && pkg.root@ == dir@),
        },
{
    if !same_path(dir, module_root) && has_go_mod {
        return PackageDir::NestedModule;
    }
    let mut k: usize = 0;
    while k < entries.len()
        invariant
            k <= entries@.len(),
            !(rust_parts(dir@) != rust_parts(module_root@) && has_go_mod),
            forall|j: int|
                0 <= j < k ==> !(file_name((#[trigger] entries@[j])@) matches Some(n) && go_source_name(n)),
        decreases entries.len() - k,
    {
        if is_go_source_path(entries[k].as_str()) {
            return PackageDir::Walked(Some(Package { name: import_path(dir, module_root, module_name), root: owned(dir) }));
        }
        k = k + 1;
    }
    PackageDir::Walked(None)
}

/// Whether the package walk enters entry `path`: a directory whose name is
/// not skipped.
pub fn walks_into(path: &str, is_dir: bool) -> (r: bool)
    ensures
        r == (is_dir && !(file_name(path@) matches Some(n) && skipped_dir_name(n))),
{
    is_dir && !is_skip_dir_name(path)
}

} // verus!
