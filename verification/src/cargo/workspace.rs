//! Workspace members: which packages are selected, and which member roots
//! a walk must not enter.
use crate::cargo::cli::Args;
use crate::cargo::error::Error;
use crate::language::Target;
use crate::cargo::json::{items_view, json_view, lemma_items_view, obj_get, p_document, Json, JsonView};
use crate::rust_path::{
    has_parent, joined, parent_path, path_starts_with, rust_parts, join_path, same_path,
    starts_with_path,
};
use crate::text::{chars_of, concat, owned, str_eq, string_from};
use vstd::prelude::*;

verus! {

/// A workspace package that can be walked for Rust sources.
#[derive(Debug, Clone, PartialEq, Eq)]
pub struct Package {
    /// Cargo package name.
    pub name: String,
    /// Directory that contains this package's manifest.
    pub root: String,
}

/// Roots of the first `n` packages that lie strictly under `root`.
pub open spec fn nested_roots_upto(root: Seq<char>, all: Seq<Package>, n: nat) -> Seq<Seq<char>>
    decreases n,
{
    if n == 0 || n > all.len() {
        Seq::empty()
    } else {
        let prev = nested_roots_upto(root, all, (n - 1) as nat);
        let r = all[n - 1].root@;
        if rust_parts(r) != rust_parts(root) && path_starts_with(r, root) {
            prev.push(r)
        } else {
            prev
        }
    }
}

/// Other member roots nested under `root`, in package order.
pub fn nested_member_roots(root: &str, all: &[Package]) -> (r: Vec<String>)
    ensures
        Seq::new(r@.len(), |k: int| r@[k]@) == nested_roots_upto(root@, all@, all@.len() as nat),
{
    let mut out: Vec<String> = Vec::new();
    let mut k: usize = 0;
    while k < all.len()
        invariant
            k <= all.len(),
            Seq::new(out@.len(), |m: int| out@[m]@) == nested_roots_upto(root@, all@, k as nat),
        decreases all.len() - k,
    {
        let other = all[k].root.as_str();
        let ghost before = Seq::new(out@.len(), |m: int| out@[m]@);
        if !same_path(other, root) && starts_with_path(other, root) {
            out.push(all[k].root.clone());
            assert(Seq::new(out@.len(), |m: int| out@[m]@) =~= before.push(all@[k as int].root@));
        }
        k = k + 1;
    }
    out
}

/// The manifest path of a package root.
pub fn manifest_path(root: &str) -> (r: String)
    ensures
        r@ == joined(root@, "Cargo.toml"@),
{
    join_path(root, "Cargo.toml")
}

/// Index of the first package named `name` at or after `k`.
pub open spec fn find_from(all: Seq<Package>, name: Seq<char>, k: int) -> Option<int>
    decreases all.len() - k,
{
    if 0 <= k < all.len() {
        if all[k].name@ == name {
            Some(k)
        } else {
            find_from(all, name, k + 1)
        }
    } else {
        None
    }
}

/// The packages named by the first `n` names, or the first name without one.
pub open spec fn selection(all: Seq<Package>, names: Seq<String>, n: nat) -> Result<Seq<Package>, Seq<char>>
    decreases n,
{
    if n == 0 || n > names.len() {
        Ok(Seq::empty())
    } else {
        match selection(all, names, (n - 1) as nat) {
            Err(e) => Err(e),
            Ok(v) => match find_from(all, names[n - 1]@, 0) {
                Some(k) => Ok(v.push(all[k])),
                None => Err(names[n - 1]@),
            },
        }
    }
}

fn find_named(all: &[Package], name: &str) -> (r: Option<usize>)
    ensures
        match r {
            Some(k) => find_from(all@, name@, 0) == Some(k as int) && k < all@.len(),
            None => find_from(all@, name@, 0) is None,
        },
{
    let mut k: usize = 0;
    while k < all.len()
        invariant
            k <= all.len(),
            find_from(all@, name@, k as int) == find_from(all@, name@, 0),
        decreases all.len() - k,
    {
        if str_eq(all[k].name.as_str(), name) {
            return Some(k);
        }
        k = k + 1;
    }
    None
}

/// The packages named by `names`, in that order, taking the first package
/// of each name; fails with the first name that no package has.
pub fn selected_members(names: &[String], all: &[Package]) -> (r: Result<Vec<Package>, Error>)
    ensures
        match r {
            Ok(v) => selection(all@, names@, names@.len() as nat) == Ok::<Seq<Package>, Seq<char>>(v@),
            Err(e) => e matches Error::UnknownPackage(n) && selection(all@, names@, names@.len() as nat)
                == Err::<Seq<Package>, Seq<char>>(n@),
        },
{
    let mut selected: Vec<Package> = Vec::new();
    let mut i: usize = 0;
    while i < names.len()
        invariant
            i <= names.len(),
            selection(all@, names@, i as nat) == Ok::<Seq<Package>, Seq<char>>(selected@),
        decreases names.len() - i,
    {
        match find_named(all, names[i].as_str()) {
            Some(k) => {
                let pkg = Package { name: all[k].name.clone(), root: all[k].root.clone() };
                assert(pkg == all@[k as int]);
                selected.push(pkg);
            },
            None => {
                let missing = names[i].clone();
                proof {
                    lemma_selection_fails(all@, names@, (i + 1) as nat, names@.len() as nat);
                }
                return Err(Error::UnknownPackage(missing));
            },
        }
        i = i + 1;
    }
    Ok(selected)
}

/// A selection that fails on a prefix fails the same way on longer prefixes.
pub proof fn lemma_selection_fails(all: Seq<Package>, names: Seq<String>, n: nat, m: nat)
    requires
        n <= m <= names.len(),
        selection(all, names, n) is Err,
    ensures
        selection(all, names, m) == selection(all, names, n),
    decreases m - n,
{
    if n < m {
        lemma_selection_fails(all, names, n, (m - 1) as nat);
    }
}

/// The value under `key` of an object.
pub open spec fn json_field(v: JsonView, key: Seq<char>) -> Option<JsonView> {
    match v {
        JsonView::Object(entries) => obj_get(entries, key),
        _ => None,
    }
}

/// The text under `key`, when it is a string.
pub open spec fn field_str(v: JsonView, key: Seq<char>) -> Option<Seq<char>> {
    match json_field(v, key) {
        Some(JsonView::Str(s)) => Some(s),
        _ => None,
    }
}

/// The items under `key`, when it is an array.
pub open spec fn field_array(v: JsonView, key: Seq<char>) -> Option<Seq<JsonView>> {
    match json_field(v, key) {
        Some(JsonView::Array(items)) => Some(items),
        _ => None,
    }
}

/// The texts of `items`, when every item is a string.
pub open spec fn all_strings(items: Seq<JsonView>) -> Option<Seq<Seq<char>>>
    decreases items.len(),
{
    if items.len() == 0 {
        Some(Seq::empty())
    } else {
        match (all_strings(items.drop_last()), items.last()) {
            (Some(prev), JsonView::Str(s)) => Some(prev.push(s)),
            _ => None,
        }
    }
}

/// The string array under `key`, or why there is none.
pub open spec fn string_ids_of(v: JsonView, key: Seq<char>) -> Result<Seq<Seq<char>>, Seq<char>> {
    match field_array(v, key) {
        None => Err("missing "@ + key + " array"@),
        Some(items) => match all_strings(items) {
            Some(ids) => Ok(ids),
            None => Err(key + " must be strings"@),
        },
    }
}

/// The name and manifest path of a package entry that is a workspace
/// member and names both.
pub open spec fn member_entry(item: JsonView, members: Seq<Seq<char>>) -> Option<(Seq<char>, Seq<char>)> {
    match field_str(item, "id"@) {
        None => None,
        Some(id) => if !members.contains(id) {
            None
        } else {
            match (field_str(item, "name"@), field_str(item, "manifest_path"@)) {
                (Some(name), Some(manifest)) => Some((name, manifest)),
                _ => None,
            }
        },
    }
}

/// The member entries among the first `n` items, in order.
pub open spec fn member_entries(items: Seq<JsonView>, members: Seq<Seq<char>>, n: nat) -> Seq<(Seq<char>, Seq<char>)>
    decreases n,
{
    if n == 0 || n > items.len() {
        Seq::empty()
    } else {
        let prev = member_entries(items, members, (n - 1) as nat);
        match member_entry(items[n - 1], members) {
            Some(e) => prev.push(e),
            None => prev,
        }
    }
}

/// Whether `pkgs` are the packages of `entries`: same names, and each root
/// the entry's manifest path without its final component.
pub open spec fn packages_of(pkgs: Seq<Package>, entries: Seq<(Seq<char>, Seq<char>)>) -> bool {
    &&& pkgs.len() == entries.len()
    &&& forall|k: int| 0 <= k < pkgs.len() ==> {
        &&& (#[trigger] pkgs[k]).name@ == entries[k].0
        &&& rust_parts(pkgs[k].root@) == rust_parts(entries[k].1).drop_last()
    }
}

/// What reading packages from metadata `v` gives: the metadata error, or
/// the member entries, which succeed when each manifest path has a parent.
pub open spec fn metadata_entries(v: JsonView) -> Result<Seq<(Seq<char>, Seq<char>)>, Seq<char>> {
    match string_ids_of(v, "workspace_members"@) {
        Err(e) => Err(e),
        Ok(members) => match field_array(v, "packages"@) {
            None => Err("missing packages array"@),
            Some(items) => {
                let entries = member_entries(items, members, items.len());
                if exists|k: int| 0 <= k < entries.len() && !has_parent(#[trigger] entries[k].1) {
                    Err("manifest_path has no parent"@)
                } else {
                    Ok(entries)
                }
            },
        },
    }
}

fn field_value<'a>(v: &'a Json, key: &str) -> (r: Option<&'a Json>)
    ensures
        match r {
            Some(x) => json_field(json_view(*v), key@) == Some(json_view(*x)),
            None => json_field(json_view(*v), key@) is None,
        },
{
    v.get(key)
}

fn str_field<'a>(v: &'a Json, key: &str) -> (r: Option<&'a str>)
    ensures
        match r {
            Some(s) => field_str(json_view(*v), key@) == Some(s@),
            None => field_str(json_view(*v), key@) is None,
        },
{
    match field_value(v, key) {
        Some(x) => x.as_str(),
        None => None,
    }
}

fn array_field<'a>(v: &'a Json, key: &str) -> (r: Option<&'a [Json]>)
    ensures
        match r {
            Some(s) => field_array(json_view(*v), key@) == Some(items_view(s@)),
            None => field_array(json_view(*v), key@) is None,
        },
{
    match field_value(v, key) {
        Some(x) => x.as_array(),
        None => None,
    }
}

/// The strings of the array under `key`.
fn string_ids(json: &Json, key: &str) -> (r: Result<Vec<String>, Error>)
    ensures
        match r {
            Ok(ids) => string_ids_of(json_view(*json), key@) == Ok::<Seq<Seq<char>>, Seq<char>>(
                Seq::new(ids@.len(), |k: int| ids@[k]@),
            ),
            Err(e) => e matches Error::Metadata(m) && string_ids_of(json_view(*json), key@)
                == Err::<Seq<Seq<char>>, Seq<char>>(m@),
        },
{
    let array = match array_field(json, key) {
        Some(a) => a,
        None => {
            let head = concat("missing ", key);
            let m = concat(head.as_str(), " array");
            proof {
                reveal_strlit("missing ");
                reveal_strlit(" array");
            }
            return Err(Error::Metadata(m));
        },
    };
    proof {
        lemma_items_view(array@);
    }
    let ghost items = items_view(array@);
    let mut ids: Vec<String> = Vec::new();
    let mut k: usize = 0;
    while k < array.len()
        invariant
            k <= array@.len(),
            items == items_view(array@),
            items.len() == array@.len(),
            forall|m: int| 0 <= m < array@.len() ==> #[trigger] items[m] == json_view(array@[m]),
            all_strings(items.subrange(0, k as int)) == Some(Seq::new(ids@.len(), |m: int| ids@[m]@)),
            field_array(json_view(*json), key@) == Some(items),
        decreases array.len() - k,
    {
        let ghost before = Seq::new(ids@.len(), |m: int| ids@[m]@);
        assert(items.subrange(0, k as int + 1).drop_last() =~= items.subrange(0, k as int));
        match array[k].as_str() {
            Some(id) => {
                ids.push(owned(id));
                assert(Seq::new(ids@.len(), |m: int| ids@[m]@) =~= before.push(id@));
            },
            None => {
                proof {
                    assert(items[k as int] == json_view(array@[k as int]));
                    assert(items.subrange(0, k as int + 1).last() == items[k as int]);
                    assert(all_strings(items.subrange(0, k as int + 1)) is None);
                    lemma_all_strings_fails(items, (k + 1) as nat, items.len());
                    assert(items.subrange(0, items.len() as int) =~= items);
                }
                let m = concat(key, " must be strings");
                proof {
                    reveal_strlit(" must be strings");
                }
                return Err(Error::Metadata(m));
            },
        }
        k = k + 1;
    }
    assert(items.subrange(0, array@.len() as int) =~= items);
    Ok(ids)
}

/// Once a prefix has a non-string, every longer prefix has one.
proof fn lemma_all_strings_fails(items: Seq<JsonView>, n: nat, m: nat)
    requires
        n <= m <= items.len(),
        all_strings(items.subrange(0, n as int)) is None,
    ensures
        all_strings(items.subrange(0, m as int)) is None,
    decreases m - n,
{
    if n < m {
        lemma_all_strings_fails(items, n, (m - 1) as nat);
        assert(items.subrange(0, m as int).drop_last() =~= items.subrange(0, m - 1));
    }
}

fn contains_text(ids: &Vec<String>, id: &str) -> (r: bool)
    ensures
        r == Seq::new(ids@.len(), |m: int| ids@[m]@).contains(id@),
{
    let ghost view = Seq::new(ids@.len(), |m: int| ids@[m]@);
    let mut k: usize = 0;
    while k < ids.len()
        invariant
            k <= ids@.len(),
            view == Seq::new(ids@.len(), |m: int| ids@[m]@),
            forall|m: int| 0 <= m < k ==> view[m] != id@,
        decreases ids.len() - k,
    {
        if str_eq(ids[k].as_str(), id) {
            assert(view[k as int] == id@);
            return true;
        }
        k = k + 1;
    }
    false
}

/// The workspace members that metadata `json` lists, in package order, each
/// with the directory of its manifest.
pub fn packages_from_metadata(json: &Json) -> (r: Result<Vec<Package>, Error>)
    ensures
        match metadata_entries(json_view(*json)) {
            Ok(entries) => r matches Ok(pkgs) && packages_of(pkgs@, entries),
            Err(msg) => r matches Err(e) && e matches Error::Metadata(m) && m@ == msg,
        },
{
    let members = match string_ids(json, "workspace_members") {
        Ok(ids) => ids,
        Err(e) => {
            return Err(e);
        },
    };
    let ghost mv = Seq::new(members@.len(), |m: int| members@[m]@);
    let array = match array_field(json, "packages") {
        Some(a) => a,
        None => {
            return Err(Error::Metadata(owned("missing packages array")));
        },
    };
    proof {
        lemma_items_view(array@);
        reveal_strlit("id");
        reveal_strlit("name");
        reveal_strlit("manifest_path");
    }
    let ghost items = items_view(array@);
    let mut out: Vec<Package> = Vec::new();
    let mut k: usize = 0;
    while k < array.len()
        invariant
            k <= array@.len(),
            items == items_view(array@),
            items.len() == array@.len(),
            forall|m: int| 0 <= m < array@.len() ==> #[trigger] items[m] == json_view(array@[m]),
            mv == Seq::new(members@.len(), |m: int| members@[m]@),
            field_array(json_view(*json), "packages"@) == Some(items),
            string_ids_of(json_view(*json), "workspace_members"@) == Ok::<Seq<Seq<char>>, Seq<char>>(mv),
            packages_of(out@, member_entries(items, mv, k as nat)),
            forall|m: int| 0 <= m < member_entries(items, mv, k as nat).len()
                ==> has_parent(#[trigger] member_entries(items, mv, k as nat)[m].1),
        decreases array.len() - k,
    {
        let item = &array[k];
        let id = match str_field(item, "id") {
            Some(id) => id,
            None => {
                k = k + 1;
                continue;
            },
        };
        if !contains_text(&members, id) {
            k = k + 1;
            continue;
        }
        let name = match str_field(item, "name") {
            Some(n) => n,
            None => {
                k = k + 1;
                continue;
            },
        };
        let manifest = match str_field(item, "manifest_path") {
            Some(m) => m,
            None => {
                k = k + 1;
                continue;
            },
        };
        let root = match parent_path(manifest) {
            Some(r) => r,
            None => {
                proof {
                    let idx = member_entries(items, mv, k as nat).len() as int;
                    assert(items[k as int] == json_view(*item));
                    assert(member_entry(items[k as int], mv) == Some((name@, manifest@)));
                    assert(member_entries(items, mv, (k + 1) as nat) == member_entries(items, mv, k as nat).push((name@, manifest@)));
                    lemma_entries_extend(items, mv, (k + 1) as nat, items.len());
                    let all = member_entries(items, mv, items.len());
                    assert(all[idx] == member_entries(items, mv, (k + 1) as nat)[idx]);
                    assert(!has_parent(all[idx].1));
                }
                return Err(Error::Metadata(owned("manifest_path has no parent")));
            },
        };
        let ghost before = out@;
        out.push(Package { name: owned(name), root });
        proof {
            let e = member_entries(items, mv, (k + 1) as nat);
            assert(e == member_entries(items, mv, k as nat).push((name@, manifest@)));
            assert forall|m: int| 0 <= m < out@.len() implies {
                &&& (#[trigger] out@[m]).name@ == e[m].0
                &&& rust_parts(out@[m].root@) == rust_parts(e[m].1).drop_last()
            } by {
                if m < before.len() {
                    assert(out@[m] == before[m]);
                }
            }
        }
        k = k + 1;
    }
    proof {
        assert(member_entries(items, mv, array@.len() as nat) == member_entries(items, mv, items.len()));
    }
    Ok(out)
}

/// Member entries of a prefix stay at the front of longer prefixes.
proof fn lemma_entries_extend(items: Seq<JsonView>, members: Seq<Seq<char>>, n: nat, m: nat)
    requires
        n <= m <= items.len(),
    ensures
        member_entries(items, members, n).len() <= member_entries(items, members, m).len(),
        forall|k: int| 0 <= k < member_entries(items, members, n).len()
            ==> #[trigger] member_entries(items, members, m)[k] == member_entries(items, members, n)[k],
    decreases m - n,
{
    if n < m {
        lemma_entries_extend(items, members, n, (m - 1) as nat);
    }
}

/// What `serde_json` makes of a document: the compact JSON rendering of the
/// value it reads, or the message of its parse error.
pub uninterp spec fn serde_json_reading(text: Seq<char>) -> Result<Seq<char>, Seq<char>>;

/// Reads `text` with `serde_json::from_str` into a `serde_json::Value` and
/// renders that value again as compact JSON text (`Value`'s `Display`); on a
/// parse error, the error's message. Both depend on `text` alone; what they
/// are is named, not described.
#[verifier::external_body]
fn serde_reading(text: &str) -> (r: Result<String, String>)
    ensures
        match r {
            Ok(c) => serde_json_reading(text@) == Ok::<Seq<char>, Seq<char>>(c@),
            Err(m) => serde_json_reading(text@) == Err::<Seq<char>, Seq<char>>(m@),
        },
{
    match serde_json::from_str::<serde_json::Value>(text) {
        Ok(v) => Ok(v.to_string()),
        Err(e) => Err(e.to_string()),
    }
}

/// The metadata document read from `text`: `serde_json`'s reading of it,
/// taken apart as JSON. `serde_json` writes U+007F unescaped inside
/// strings, which [`Json::parse`] refuses as a control character, so it is
/// written as the escape `\u007f` first: the value read is the same.
pub open spec fn metadata_reading(text: Seq<char>) -> Result<JsonView, Seq<char>> {
    match serde_json_reading(text) {
        Err(m) => Err(m),
        Ok(c) => p_document(escape_del(c)),
    }
}

/// The delete character U+007F.
pub open spec fn del_char() -> char {
    0x7f as char
}

/// `t` with every U+007F written as the JSON escape `\u007f`.
pub open spec fn escape_del(t: Seq<char>) -> Seq<char>
    decreases t.len(),
{
    if t.len() == 0 {
        Seq::empty()
    } else if t.last() == del_char() {
        escape_del(t.drop_last()) + seq!['\\', 'u', '0', '0', '7', 'f']
    } else {
        escape_del(t.drop_last()).push(t.last())
    }
}

/// `text` with every U+007F written as the JSON escape `\u007f`.
fn escape_del_text(text: &str) -> (r: String)
    ensures
        r@ == escape_del(text@),
{
    let cs = chars_of(text);
    let mut out: Vec<char> = Vec::new();
    let mut k: usize = 0;
    while k < cs.len()
        invariant
            k <= cs@.len(),
            cs@ == text@,
            out@ == escape_del(cs@.take(k as int)),
        decreases cs.len() - k,
    {
        assert(cs@.take(k as int + 1).drop_last() =~= cs@.take(k as int));
        let c = cs[k];
        if c == '\u{7f}' {
            out.push('\\');
            out.push('u');
            out.push('0');
            out.push('0');
            out.push('7');
            out.push('f');
            assert(out@ =~= escape_del(cs@.take(k as int)).add(seq!['\\', 'u', '0', '0', '7', 'f']));
        } else {
            out.push(c);
        }
        k = k + 1;
    }
    assert(cs@.take(cs@.len() as int) =~= cs@);
    string_from(out.as_slice())
}

/// The metadata document in `text`, read by `serde_json`.
pub fn metadata_from_text(text: &str) -> (r: Result<Json, Error>)
    ensures
        match metadata_reading(text@) {
            Ok(v) => r matches Ok(j) && json_view(j) == v,
            Err(msg) => r matches Err(e) && e matches Error::Metadata(m) && m@ == msg,
        },
{
    match serde_reading(text) {
        Err(m) => Err(Error::Metadata(m)),
        Ok(c) => match Json::parse(escape_del_text(c.as_str()).as_str()) {
            Ok(j) => Ok(j),
            Err(m) => Err(Error::Metadata(m)),
        },
    }
}

/// Every workspace member listed by the metadata text that `cargo metadata`
/// printed.
pub fn all_members(metadata: &str) -> (r: Result<Vec<Package>, Error>)
    ensures
        match metadata_reading(metadata@) {
            Err(msg) => r matches Err(e) && e matches Error::Metadata(m) && m@ == msg,
            Ok(v) => match metadata_entries(v) {
                Ok(entries) => r matches Ok(pkgs) && packages_of(pkgs@, entries),
                Err(msg) => r matches Err(e) && e matches Error::Metadata(m) && m@ == msg,
            },
        },
{
    let json = match metadata_from_text(metadata) {
        Ok(j) => j,
        Err(e) => {
            return Err(e);
        },
    };
    packages_from_metadata(&json)
}

/// The roots a member walk skips are other members' roots, each strictly
/// below the member's own root.
pub proof fn lemma_nested_roots_are_children(root: Seq<char>, all: Seq<Package>, n: nat)
    ensures
        forall|k: int|
            0 <= k < nested_roots_upto(root, all, n).len() ==> {
                let r = #[trigger] nested_roots_upto(root, all, n)[k];
                &&& path_starts_with(r, root)
                &&& rust_parts(r) != rust_parts(root)
                &&& exists|j: int| 0 <= j < all.len() && all[j].root@ == r
            },
    decreases n,
{
    if n > 0 && n <= all.len() {
        lemma_nested_roots_are_children(root, all, (n - 1) as nat);
        let prev = nested_roots_upto(root, all, (n - 1) as nat);
        let cur = nested_roots_upto(root, all, n);
        assert forall|k: int| 0 <= k < cur.len() implies {
            let r = #[trigger] cur[k];
            &&& path_starts_with(r, root)
            &&& rust_parts(r) != rust_parts(root)
            &&& exists|j: int| 0 <= j < all.len() && all[j].root@ == r
        } by {
            if k < prev.len() {
                assert(cur[k] == prev[k]);
            } else {
                assert(all[n - 1].root@ == cur[k]);
            }
        }
    }
}

/// The texts of a list of strings.
pub open spec fn texts_of(v: Seq<String>) -> Seq<Seq<char>> {
    Seq::new(v.len(), |k: int| v[k]@)
}

/// One target per package, in package order: its root, its name, and the
/// other members nested under it skipped.
pub fn targets_from_packages(packages: &[Package]) -> (r: Vec<Target>)
    ensures
        r@.len() == packages@.len(),
        forall|k: int|
            0 <= k < r@.len() ==> {
                &&& (#[trigger] r@[k]).root@ == packages@[k].root@
                &&& crate::merge::opt_string(r@[k].crate_name) == Some(packages@[k].name@)
                &&& texts_of(r@[k].skip@) == nested_roots_upto(packages@[k].root@, packages@, packages@.len() as nat)
                &&& r@[k].enabled_features@.len() == 0
            },
{
    let mut out: Vec<Target> = Vec::new();
    let mut k: usize = 0;
    while k < packages.len()
        invariant
            k <= packages@.len(),
            out@.len() == k,
            forall|q: int|
                0 <= q < k ==> {
                    &&& (#[trigger] out@[q]).root@ == packages@[q].root@
                    &&& crate::merge::opt_string(out@[q].crate_name) == Some(packages@[q].name@)
                    &&& texts_of(out@[q].skip@) == nested_roots_upto(packages@[q].root@, packages@, packages@.len() as nat)
                    &&& out@[q].enabled_features@.len() == 0
                },
        decreases packages.len() - k,
    {
        let pkg = &packages[k];
        let skip = nested_member_roots(pkg.root.as_str(), packages);
        let t = Target {
            root: owned(pkg.root.as_str()),
            crate_name: Some(owned(pkg.name.as_str())),
            skip,
            enabled_features: Vec::new(),
        };
        assert(texts_of(t.skip@) =~= Seq::new(t.skip@.len(), |m: int| t.skip@[m]@));
        out.push(t);
        k = k + 1;
    }
    out
}

/// The directories a run walks: the path given when no members were asked
/// for; else every member (`--workspace`) or the named ones, each with the
/// members nested under it skipped. `all` holds the workspace members and
/// is needed only when members were asked for.
pub fn analysis_targets(args: &Args, all: Option<&[Package]>) -> (r: Result<Vec<Target>, Error>)
    requires
        args.uses_packages_spec() ==> all is Some,
    ensures
        !args.uses_packages_spec() ==> (r matches Ok(v) && v@.len() == 1 && v@[0].root@ == args.path@
            && v@[0].crate_name is None && v@[0].skip@.len() == 0 && v@[0].enabled_features@.len() == 0),
        args.uses_packages_spec() && args.workspace ==> (r matches Ok(v) && targets_of(v@, all->Some_0@)),
        args.uses_packages_spec() && !args.workspace ==> match selection(all->Some_0@, args.packages@, args.packages@.len() as nat) {
            Ok(pkgs) => r matches Ok(v) && targets_of(v@, pkgs),
            Err(name) => r matches Err(e) && e matches Error::UnknownPackage(n) && n@ == name,
        },
{
    if !args.uses_packages() {
        let mut out: Vec<Target> = Vec::new();
        out.push(Target { root: owned(args.path.as_str()), crate_name: None, skip: Vec::new(), enabled_features: Vec::new() });
        return Ok(out);
    }
    let members = match all {
        Some(m) => m,
        None => {
            return Ok(Vec::new());
        },
    };
    if args.workspace {
        return Ok(targets_from_packages(members));
    }
    match selected_members(args.packages.as_slice(), members) {
        Ok(picked) => Ok(targets_from_packages(picked.as_slice())),
        Err(e) => Err(e),
    }
}

/// `v` holds one target per package of `pkgs`, in order: its root, its
/// name, and the members nested under it skipped.
pub open spec fn targets_of(v: Seq<Target>, pkgs: Seq<Package>) -> bool {
    &&& v.len() == pkgs.len()
    &&& forall|k: int|
        0 <= k < v.len() ==> {
            &&& (#[trigger] v[k]).root@ == pkgs[k].root@
            &&& crate::merge::opt_string(v[k].crate_name) == Some(pkgs[k].name@)
            &&& texts_of(v[k].skip@) == nested_roots_upto(pkgs[k].root@, pkgs, pkgs.len() as nat)
            &&& v[k].enabled_features@.len() == 0
        }
}

} // verus!
