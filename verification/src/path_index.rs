//! Coverage files keyed by normalized path, and best-suffix lookup of a source file.
use crate::coverage::{combine_hits, line_hits, strictly_sorted, FileCoverage};
use crate::path::{components, components_spec, parts_eq, texts};
use crate::text::{chars_of, string_from};
use vstd::prelude::*;

verus! {

/// A normalized path: its components.
pub type Parts = Seq<Seq<char>>;

/// Whether `a` ends with the components of `b`.
pub open spec fn ends_with(a: Parts, b: Parts) -> bool {
    b.len() <= a.len() && a.subrange(a.len() - b.len(), a.len() as int) == b
}

/// Whether one path is a component suffix of the other.
pub open spec fn is_suffix_pair(a: Parts, b: Parts) -> bool {
    ends_with(a, b) || ends_with(b, a)
}

/// How well a coverage key matches a source path: (source ends with key,
/// shared length, exact), compared lexicographically with `false < true`.
pub open spec fn rank_spec(src: Parts, key: Parts) -> Option<(bool, nat, bool)> {
    if !is_suffix_pair(src, key) {
        None
    } else {
        Some(
            (
                ends_with(src, key),
                if key.len() <= src.len() {
                    key.len()
                } else {
                    src.len()
                },
                src == key,
            ),
        )
    }
}

/// Strict lexicographic order on ranks.
pub open spec fn rank_lt(a: (bool, nat, bool), b: (bool, nat, bool)) -> bool {
    (!a.0 && b.0) || (a.0 == b.0 && a.1 < b.1) || (a.0 == b.0 && a.1 == b.1 && !a.2 && b.2)
}

/// The better of two optional ranks.
pub open spec fn max_rank(a: Option<(bool, nat, bool)>, b: Option<(bool, nat, bool)>) -> Option<
    (bool, nat, bool),
> {
    match (a, b) {
        (None, _) => b,
        (_, None) => a,
        (Some(x), Some(y)) => if rank_lt(x, y) {
            b
        } else {
            a
        },
    }
}

/// Best rank of candidate `c` over the first `n` keys.
pub open spec fn best_for(c: Parts, keys: Seq<Parts>, n: nat) -> Option<(bool, nat, bool)>
    decreases n,
{
    if n == 0 || n > keys.len() {
        None
    } else {
        max_rank(best_for(c, keys, (n - 1) as nat), rank_spec(c, keys[n - 1]))
    }
}

/// Best rank of the first `n` candidates over every key.
pub open spec fn best_over(cands: Seq<Parts>, keys: Seq<Parts>, n: nat) -> Option<
    (bool, nat, bool),
>
    decreases n,
{
    if n == 0 || n > cands.len() {
        None
    } else {
        max_rank(best_over(cands, keys, (n - 1) as nat), best_for(cands[n - 1], keys, keys.len()))
    }
}

/// Whether some candidate reaches the best rank on `key`.
pub open spec fn is_winner(cands: Seq<Parts>, key: Parts, best: Option<(bool, nat, bool)>) -> bool {
    best is Some && exists|c: int| 0 <= c < cands.len() && rank_spec(#[trigger] cands[c], key) == best
}

/// Indices among the first `n` keys that reach the best rank, in order.
pub open spec fn winners_upto(cands: Seq<Parts>, keys: Seq<Parts>, best: Option<(bool, nat, bool)>, n: nat) -> Seq<
    int,
>
    decreases n,
{
    if n == 0 || n > keys.len() {
        Seq::empty()
    } else {
        let prev = winners_upto(cands, keys, best, (n - 1) as nat);
        if is_winner(cands, keys[n - 1], best) {
            prev.push(n - 1)
        } else {
            prev
        }
    }
}

/// Non-empty `/`-separated segments of a package name: state after `i` chars.
pub open spec fn package_split(name: Seq<char>, i: nat) -> (Seq<Seq<char>>, Seq<char>)
    decreases i,
{
    if i == 0 || i > name.len() {
        (Seq::empty(), Seq::empty())
    } else {
        let prev = package_split(name, (i - 1) as nat);
        if name[i - 1] == '/' {
            (
                if prev.1.len() > 0 {
                    prev.0.push(prev.1)
                } else {
                    prev.0
                },
                Seq::empty(),
            )
        } else {
            (prev.0, prev.1.push(name[i - 1]))
        }
    }
}

/// Non-empty `/`-separated segments of a package name.
pub open spec fn package_parts_spec(name: Seq<char>) -> Seq<Seq<char>> {
    let st = package_split(name, name.len());
    if st.1.len() > 0 {
        st.0.push(st.1)
    } else {
        st.0
    }
}

/// Source paths tried for a lookup: the source itself, then (for multi-part
/// sources with a package name) the package segments prepended, then the last
/// segment alone prepended when the name has several segments.
pub open spec fn candidates_spec(src: Parts, name: Option<Seq<char>>) -> Seq<Parts> {
    if src.len() <= 1 || name is None || package_parts_spec(name->0).len() == 0 {
        seq![src]
    } else {
        let p = package_parts_spec(name->0);
        if p.len() > 1 {
            seq![src, p + src, seq![p.last()] + src]
        } else {
            seq![src, p + src]
        }
    }
}

/// Directory names that mark a package's source root.
pub open spec fn is_source_root(s: Seq<char>) -> bool {
    s == seq!['s', 'r', 'c'] || s == seq!['l', 'i', 'b'] || s == seq!['t', 'e', 's', 't', 's']
        || s == seq!['b', 'e', 'n', 'c', 'h', 'e', 's'] || s == seq![
        'e',
        'x',
        'a',
        'm',
        'p',
        'l',
        'e',
        's',
    ]
}

/// `name` directly followed by a source-root directory somewhere in `key`.
pub open spec fn crate_root_hit(key: Parts, name: Seq<char>) -> bool {
    exists|i: int| 0 <= i && i + 1 < key.len() && #[trigger] key[i] == name && is_source_root(key[i + 1])
}

/// `parts` appears as a contiguous run of components in `key`.
pub open spec fn contains_run(key: Parts, parts: Parts) -> bool {
    exists|i: int| 0 <= i && i + parts.len() <= key.len() && #[trigger] key.subrange(i, i + parts.len()) == parts
}

/// Some non-empty suffix of the import path appears contiguously in `key`.
pub open spec fn import_path_hit(key: Parts, parts: Parts) -> bool {
    exists|n: int| 1 <= n <= parts.len() && contains_run(key, #[trigger] parts.subrange(parts.len() - n, parts.len() as int))
}

/// Whether a coverage key belongs to the named package.
pub open spec fn package_hit(key: Parts, name: Seq<char>, strong_only: bool) -> bool {
    package_hit_parts(key, package_parts_spec(name), strong_only)
}

/// [`package_hit`] over the package name's segments `p`.
pub open spec fn package_hit_parts(key: Parts, p: Seq<Seq<char>>, strong_only: bool) -> bool {
    if p.len() == 0 {
        false
    } else if p.len() == 1 {
        if strong_only {
            crate_root_hit(key, p[0])
        } else {
            crate_root_hit(key, p[0]) || contains_run(key, seq![p[0]])
        }
    } else {
        import_path_hit(key, p)
    }
}

/// Winners whose key is a package hit for the package segments `p`.
pub open spec fn named_hits(ws: Seq<int>, keys: Seq<Parts>, p: Seq<Seq<char>>, strong: bool) -> Seq<int>
    decreases ws.len(),
{
    if ws.len() == 0 {
        Seq::empty()
    } else {
        let prev = named_hits(ws.drop_last(), keys, p, strong);
        if package_hit_parts(keys[ws.last()], p, strong) {
            prev.push(ws.last())
        } else {
            prev
        }
    }
}

/// Winners whose key is a package hit.
pub open spec fn named_winners(ws: Seq<int>, keys: Seq<Parts>, name: Seq<char>, strong: bool) -> Seq<int> {
    named_hits(ws, keys, package_parts_spec(name), strong)
}

/// The single winner that is a package hit, if exactly one is.
pub open spec fn unique_named(ws: Seq<int>, keys: Seq<Parts>, name: Seq<char>, strong: bool) -> Option<int> {
    let n = named_winners(ws, keys, name, strong);
    if n.len() == 1 {
        Some(n[0])
    } else {
        None
    }
}

/// Outcome of matching a source path to the coverage keys.
#[derive(Debug, Clone, Copy, PartialEq, Eq)]
pub enum Lookup {
    /// Unique best coverage key (its index).
    Found(usize),
    /// Equal-rank keys that the package name could not uniquely break.
    Ambiguous,
    /// No suffix match.
    Missing,
}

/// Lookup outcome for a source path against `keys`.
pub open spec fn lookup_spec(keys: Seq<Parts>, src: Parts, name: Option<Seq<char>>) -> Lookup {
    if src.len() == 0 {
        Lookup::Missing
    } else {
        let cands = candidates_spec(src, name);
        let best = best_over(cands, keys, cands.len());
        let ws = winners_upto(cands, keys, best, keys.len());
        if ws.len() == 0 {
            Lookup::Missing
        } else if ws.len() == 1 {
            Lookup::Found(ws[0] as usize)
        } else {
            match name {
                None => Lookup::Ambiguous,
                Some(nm) => match unique_named(ws, keys, nm, true) {
                    Some(k) => Lookup::Found(k as usize),
                    None => match unique_named(ws, keys, nm, false) {
                        Some(k) => Lookup::Found(k as usize),
                        None => Lookup::Ambiguous,
                    },
                },
            }
        }
    }
}

/// Keys of `paths` in order of first appearance, without empty or repeated keys.
pub open spec fn distinct_keys(paths: Seq<Seq<char>>) -> Seq<Parts>
    decreases paths.len(),
{
    if paths.len() == 0 {
        Seq::empty()
    } else {
        let prev = distinct_keys(paths.drop_last());
        let k = components_spec(paths.last());
        if k.len() == 0 || prev.contains(k) {
            prev
        } else {
            prev.push(k)
        }
    }
}

/// Hits for `line` summed over every coverage entry whose path normalizes to `key`.
pub open spec fn merged_hits(cov: Seq<(Seq<char>, Seq<(u32, u64)>)>, key: Parts, line: u32) -> Option<u64>
    decreases cov.len(),
{
    if cov.len() == 0 {
        None
    } else {
        let prev = merged_hits(cov.drop_last(), key, line);
        if components_spec(cov.last().0) == key {
            combine_hits(prev, line_hits(cov.last().1, line))
        } else {
            prev
        }
    }
}

/// Path texts of a coverage view.
pub open spec fn paths_of(cov: Seq<(Seq<char>, Seq<(u32, u64)>)>) -> Seq<Seq<char>> {
    Seq::new(cov.len(), |i: int| cov[i].0)
}

/// The plain view of a coverage list: path text and line entries.
pub open spec fn coverage_view(cov: Seq<(String, FileCoverage)>) -> Seq<(Seq<char>, Seq<(u32, u64)>)> {
    Seq::new(cov.len(), |i: int| (cov[i].0@, cov[i].1@))
}

struct IndexedFile {
    parts: Vec<String>,
    coverage: FileCoverage,
}

/// Coverage files merged by normalized path.
pub struct PathIndex {
    files: Vec<IndexedFile>,
}

impl PathIndex {
    /// Normalized keys, in order of first appearance.
    pub closed spec fn keys(&self) -> Seq<Parts> {
        Seq::new(self.files@.len(), |i: int| texts(self.files@[i].parts@))
    }

    /// Line entries stored for key `i`.
    pub closed spec fn entries(&self, i: int) -> Seq<(u32, u64)> {
        self.files@[i].coverage@
    }

    /// Whether this index is the merge of `cov`: one key per distinct path,
    /// each holding the summed hits of that path's reports, its lines
    /// strictly increasing.
    pub open spec fn built_from(&self, cov: Seq<(Seq<char>, Seq<(u32, u64)>)>) -> bool {
        &&& self.keys() == distinct_keys(paths_of(cov))
        &&& forall|i: int| 0 <= i < self.keys().len() ==> strictly_sorted(#[trigger] self.entries(i))
        &&& forall|i: int, l: u32|
            0 <= i < self.keys().len() ==> #[trigger] line_hits(self.entries(i), l) == merged_hits(
                cov,
                self.keys()[i],
                l,
            )
    }

    /// Number of distinct keys.
    pub fn len(&self) -> (n: usize)
        ensures
            n == self.keys().len(),
    {
        self.files.len()
    }

    /// The coverage stored for key `i`.
    pub fn coverage_at(&self, i: usize) -> (r: &FileCoverage)
        requires
            i < self.keys().len(),
        ensures
            r@ == self.entries(i as int),
    {
        &self.files[i].coverage
    }
}

/// The text of an optional package name.
pub open spec fn opt_text(name: Option<&str>) -> Option<Seq<char>> {
    match name {
        Some(s) => Some(s@),
        None => None,
    }
}

/// Whether `a` ends with the components of `b`.
fn ends_with_exec(a: &[String], b: &[String]) -> (r: bool)
    ensures
        r == ends_with(texts(a@), texts(b@)),
{
    if b.len() > a.len() {
        return false;
    }
    let off = a.len() - b.len();
    let mut k: usize = 0;
    while k < b.len()
        invariant
            k <= b.len(),
            off + b.len() == a.len(),
            forall|m: int| 0 <= m < k ==> #[trigger] b@[m]@ == a@[off + m]@,
        decreases b.len() - k,
    {
        if a[off + k] != b[k] {
            proof {
                assert(texts(a@).subrange(off as int, a.len() as int)[k as int] != texts(b@)[k as int]);
            }
            return false;
        }
        k = k + 1;
    }
    assert(texts(a@).subrange(off as int, a.len() as int) =~= texts(b@));
    true
}

/// Spec view of an executable rank.
pub open spec fn rank_view(r: Option<(bool, usize, bool)>) -> Option<(bool, nat, bool)> {
    match r {
        Some(x) => Some((x.0, x.1 as nat, x.2)),
        None => None,
    }
}

fn rank_exec(src: &[String], key: &[String]) -> (r: Option<(bool, usize, bool)>)
    ensures
        rank_view(r) == rank_spec(texts(src@), texts(key@)),
{
    let src_ends = ends_with_exec(src, key);
    let key_ends = ends_with_exec(key, src);
    if !src_ends && !key_ends {
        return None;
    }
    let len = if key.len() <= src.len() {
        key.len()
    } else {
        src.len()
    };
    let exact = parts_eq(src, key);
    Some((src_ends, len, exact))
}

fn rank_eq_exec(a: Option<(bool, usize, bool)>, b: Option<(bool, usize, bool)>) -> (r: bool)
    ensures
        r == (rank_view(a) == rank_view(b)),
{
    match (a, b) {
        (None, None) => true,
        (Some(x), Some(y)) => x.0 == y.0 && x.1 == y.1 && x.2 == y.2,
        _ => false,
    }
}

fn rank_lt_exec(a: (bool, usize, bool), b: (bool, usize, bool)) -> (r: bool)
    ensures
        r == rank_lt((a.0, a.1 as nat, a.2), (b.0, b.1 as nat, b.2)),
{
    (!a.0 && b.0) || (a.0 == b.0 && a.1 < b.1) || (a.0 == b.0 && a.1 == b.1 && !a.2 && b.2)
}

fn max_rank_exec(a: Option<(bool, usize, bool)>, b: Option<(bool, usize, bool)>) -> (r: Option<
    (bool, usize, bool),
>)
    ensures
        rank_view(r) == max_rank(rank_view(a), rank_view(b)),
{
    match (a, b) {
        (None, _) => b,
        (_, None) => a,
        (Some(x), Some(y)) => if rank_lt_exec(x, y) {
            b
        } else {
            a
        },
    }
}

/// Texts of every key list in `v`.
pub open spec fn parts_list(v: Seq<Vec<String>>) -> Seq<Parts> {
    Seq::new(v.len(), |i: int| texts(v[i]@))
}

impl PathIndex {
    spec fn file_keys(files: Seq<IndexedFile>) -> Seq<Parts> {
        Seq::new(files.len(), |i: int| texts(files[i].parts@))
    }

    fn best_for_exec(&self, c: &[String]) -> (r: Option<(bool, usize, bool)>)
        ensures
            rank_view(r) == best_for(texts(c@), self.keys(), self.keys().len()),
    {
        let mut best: Option<(bool, usize, bool)> = None;
        let mut k: usize = 0;
        while k < self.files.len()
            invariant
                k <= self.files.len(),
                rank_view(best) == best_for(texts(c@), self.keys(), k as nat),
            decreases self.files.len() - k,
        {
            let rk = rank_exec(c, self.files[k].parts.as_slice());
            assert(texts(self.files@[k as int].parts@) == self.keys()[k as int]);
            best = max_rank_exec(best, rk);
            k = k + 1;
        }
        best
    }

    fn best_over_exec(&self, cands: &Vec<Vec<String>>) -> (r: Option<(bool, usize, bool)>)
        ensures
            rank_view(r) == best_over(parts_list(cands@), self.keys(), cands.len() as nat),
    {
        let mut best: Option<(bool, usize, bool)> = None;
        let mut k: usize = 0;
        while k < cands.len()
            invariant
                k <= cands.len(),
                rank_view(best) == best_over(parts_list(cands@), self.keys(), k as nat),
            decreases cands.len() - k,
        {
            let b = self.best_for_exec(cands[k].as_slice());
            assert(parts_list(cands@)[k as int] == texts(cands@[k as int]@));
            best = max_rank_exec(best, b);
            k = k + 1;
        }
        best
    }

    fn is_winner_exec(cands: &Vec<Vec<String>>, key: &[String], best: Option<(bool, usize, bool)>) -> (r: bool)
        ensures
            r == is_winner(parts_list(cands@), texts(key@), rank_view(best)),
    {
        if best.is_none() {
            return false;
        }
        let mut k: usize = 0;
        while k < cands.len()
            invariant
                k <= cands.len(),
                best is Some,
                forall|m: int| 0 <= m < k ==> rank_spec(#[trigger] parts_list(cands@)[m], texts(key@)) != rank_view(best),
            decreases cands.len() - k,
        {
            let rk = rank_exec(cands[k].as_slice(), key);
            assert(parts_list(cands@)[k as int] == texts(cands@[k as int]@));
            if rank_eq_exec(rk, best) {
                return true;
            }
            k = k + 1;
        }
        false
    }

    fn winners_exec(&self, cands: &Vec<Vec<String>>, best: Option<(bool, usize, bool)>) -> (r: Vec<usize>)
        ensures
            r@.len() == winners_upto(parts_list(cands@), self.keys(), rank_view(best), self.keys().len()).len(),
            forall|i: int| 0 <= i < r@.len() ==> r@[i] as int == #[trigger] winners_upto(parts_list(cands@), self.keys(), rank_view(best), self.keys().len())[i],
    {
        let mut out: Vec<usize> = Vec::new();
        let mut k: usize = 0;
        while k < self.files.len()
            invariant
                k <= self.files.len(),
                out@.len() == winners_upto(parts_list(cands@), self.keys(), rank_view(best), k as nat).len(),
                forall|i: int| 0 <= i < out@.len() ==> out@[i] as int == #[trigger] winners_upto(parts_list(cands@), self.keys(), rank_view(best), k as nat)[i],
            decreases self.files.len() - k,
        {
            assert(texts(self.files@[k as int].parts@) == self.keys()[k as int]);
            if Self::is_winner_exec(cands, self.files[k].parts.as_slice(), best) {
                out.push(k);
            }
            k = k + 1;
        }
        out
    }
}

/// Copies a component list.
pub fn copy_parts(v: &[String]) -> (r: Vec<String>)
    ensures
        texts(r@) == texts(v@),
{
    let mut out: Vec<String> = Vec::new();
    let mut k: usize = 0;
    while k < v.len()
        invariant
            k <= v.len(),
            out@.len() == k,
            texts(out@) == texts(v@).take(k as int),
        decreases v.len() - k,
    {
        let ghost before = out@;
        let item = v[k].clone();
        assert(item@ == v@[k as int]@);
        out.push(item);
        proof {
            assert(out@.len() == k + 1);
            assert(texts(out@)[k as int] == v@[k as int]@);
            assert forall|i: int| 0 <= i < k + 1 implies #[trigger] texts(out@)[i] == texts(v@).take(
                k as int + 1,
            )[i] by {
                if i < k {
                    assert(texts(before)[i] == texts(v@).take(k as int)[i]);
                }
            }
            assert(texts(out@) =~= texts(v@).take(k as int + 1));
        }
        k = k + 1;
    }
    assert(texts(v@).take(v.len() as int) =~= texts(v@));
    out
}

fn prepend(prefix: &[String], src: &[String]) -> (r: Vec<String>)
    ensures
        texts(r@) == texts(prefix@) + texts(src@),
{
    let mut out = copy_parts(prefix);
    assert(out@.len() == texts(out@).len());
    let mut k: usize = 0;
    while k < src.len()
        invariant
            k <= src.len(),
            out@.len() == prefix.len() + k,
            texts(out@) == texts(prefix@) + texts(src@).take(k as int),
        decreases src.len() - k,
    {
        let ghost before = out@;
        out.push(src[k].clone());
        proof {
            let lhs = texts(out@);
            let rhs = texts(prefix@) + texts(src@).take(k as int + 1);
            assert forall|i: int| 0 <= i < lhs.len() implies #[trigger] lhs[i] == rhs[i] by {
                if i < before.len() {
                    assert(texts(before)[i] == (texts(prefix@) + texts(src@).take(k as int))[i]);
                }
            }
            assert(lhs =~= rhs);
        }
        k = k + 1;
    }
    assert(texts(src@).take(src.len() as int) =~= texts(src@));
    out
}

/// Non-empty `/`-separated segments of a package name.
pub fn package_parts(name: &str) -> (r: Vec<String>)
    ensures
        texts(r@) == package_parts_spec(name@),
{
    let cs = chars_of(name);
    let mut out: Vec<String> = Vec::new();
    let mut cur: Vec<char> = Vec::new();
    let mut k: usize = 0;
    assert(texts(out@) =~= Seq::<Seq<char>>::empty());
    while k < cs.len()
        invariant
            k <= cs.len(),
            cs@ == name@,
            (texts(out@), cur@) == package_split(name@, k as nat),
        decreases cs.len() - k,
    {
        let c = cs[k];
        if c == '/' {
            if cur.len() > 0 {
                let ghost before = texts(out@);
                let part = string_from(cur.as_slice());
                out.push(part);
                assert(texts(out@) =~= before.push(cur@));
            }
            cur = Vec::new();
            assert(cur@ =~= Seq::<char>::empty());
        } else {
            cur.push(c);
        }
        k = k + 1;
    }
    if cur.len() > 0 {
        let ghost before = texts(out@);
        let part = string_from(cur.as_slice());
        out.push(part);
        assert(texts(out@) =~= before.push(cur@));
    }
    out
}

/// Source paths tried for a lookup, best-first order irrelevant.
fn candidates(src: &[String], name: Option<&str>) -> (r: Vec<Vec<String>>)
    ensures
        parts_list(r@) == candidates_spec(texts(src@), opt_text(name)),
{
    let mut out: Vec<Vec<String>> = Vec::new();
    out.push(copy_parts(src));
    if src.len() <= 1 || name.is_none() {
        assert(parts_list(out@) =~= seq![texts(src@)]);
        return out;
    }
    let nm = name.unwrap();
    let parts = package_parts(nm);
    if parts.len() == 0 {
        assert(parts_list(out@) =~= seq![texts(src@)]);
        return out;
    }
    out.push(prepend(parts.as_slice(), src));
    if parts.len() > 1 {
        let n = parts.len();
        let mut last: Vec<String> = Vec::new();
        last.push(parts[n - 1].clone());
        assert(texts(last@) =~= seq![texts(parts@).last()]);
        out.push(prepend(last.as_slice(), src));
        assert(parts_list(out@) =~= seq![
            texts(src@),
            texts(parts@) + texts(src@),
            seq![texts(parts@).last()] + texts(src@),
        ]);
    } else {
        assert(parts_list(out@) =~= seq![texts(src@), texts(parts@) + texts(src@)]);
    }
    out
}

fn is_source_root_exec(s: &String) -> (r: bool)
    ensures
        r == is_source_root(s@),
{
    let c = chars_of(s.as_str());
    let n = c.len();
    let r = (n == 3 && c[0] == 's' && c[1] == 'r' && c[2] == 'c') || (n == 3 && c[0] == 'l' && c[1]
        == 'i' && c[2] == 'b') || (n == 5 && c[0] == 't' && c[1] == 'e' && c[2] == 's' && c[3]
        == 't' && c[4] == 's') || (n == 7 && c[0] == 'b' && c[1] == 'e' && c[2] == 'n' && c[3]
        == 'c' && c[4] == 'h' && c[5] == 'e' && c[6] == 's') || (n == 8 && c[0] == 'e' && c[1]
        == 'x' && c[2] == 'a' && c[3] == 'm' && c[4] == 'p' && c[5] == 'l' && c[6] == 'e' && c[7]
        == 's');
    proof {
        if c@ == seq!['s', 'r', 'c'] || c@ == seq!['l', 'i', 'b'] || c@ == seq!['t', 'e', 's', 't', 's']
            || c@ == seq!['b', 'e', 'n', 'c', 'h', 'e', 's'] || c@ == seq![
            'e',
            'x',
            'a',
            'm',
            'p',
            'l',
            'e',
            's',
        ] {
            assert(r);
        }
        if r {
            if n == 3 && c[0] == 's' {
                assert(c@ =~= seq!['s', 'r', 'c']);
            } else if n == 3 {
                assert(c@ =~= seq!['l', 'i', 'b']);
            } else if n == 5 {
                assert(c@ =~= seq!['t', 'e', 's', 't', 's']);
            } else if n == 7 {
                assert(c@ =~= seq!['b', 'e', 'n', 'c', 'h', 'e', 's']);
            } else {
                assert(c@ =~= seq!['e', 'x', 'a', 'm', 'p', 'l', 'e', 's']);
            }
        }
    }
    r
}

fn crate_root_hit_exec(key: &[String], name: &String) -> (r: bool)
    ensures
        r == crate_root_hit(texts(key@), name@),
{
    if key.len() < 2 {
        return false;
    }
    let mut i: usize = 0;
    while i < key.len() - 1
        invariant
            key.len() >= 2,
            i <= key.len() - 1,
            forall|m: int| 0 <= m < i && m + 1 < key.len() ==> !(#[trigger] texts(key@)[m] == name@
                && is_source_root(texts(key@)[m + 1])),
        decreases key.len() - i,
    {
        if key[i] == *name && is_source_root_exec(&key[i + 1]) {
            proof {
                assert(texts(key@)[i as int] == name@);
            }
            return true;
        }
        i = i + 1;
    }
    false
}

/// Whether `parts[off..]` appears contiguously in `key`.
fn contains_run_exec(key: &[String], parts: &[String], off: usize) -> (r: bool)
    requires
        off < parts.len(),
    ensures
        r == contains_run(texts(key@), texts(parts@).subrange(off as int, parts.len() as int)),
{
    let ghost p = texts(parts@).subrange(off as int, parts.len() as int);
    let ghost k = texts(key@);
    let n = parts.len() - off;
    let mut i: usize = 0;
    while i <= key.len() && n <= key.len() - i
        invariant
            i <= key.len() + 1,
            n == p.len(),
            off + n == parts.len(),
            p == texts(parts@).subrange(off as int, parts.len() as int),
            k == texts(key@),
            forall|m: int| 0 <= m < i && m + n <= k.len() ==> #[trigger] k.subrange(m, m + n) != p,
        decreases key.len() + 1 - i,
    {
        let mut j: usize = 0;
        while j < n && key[i + j] == parts[off + j]
            invariant
                j <= n,
                i + n <= key.len(),
                n == p.len(),
                off + n == parts.len(),
                p == texts(parts@).subrange(off as int, parts.len() as int),
                k == texts(key@),
                forall|t: int| 0 <= t < j ==> #[trigger] k[i + t] == p[t],
            decreases n - j,
        {
            j = j + 1;
        }
        if j == n {
            proof {
                assert forall|t: int| 0 <= t < n implies #[trigger] k.subrange(i as int, i + n)[t] == p[t] by {
                    assert(k[i + t] == p[t]);
                }
                assert(k.subrange(i as int, i + n) =~= p);
            }
            return true;
        }
        proof {
            assert(k[i + j] != p[j as int]);
            assert forall|m: int| 0 <= m < i + 1 && m + n <= k.len() implies #[trigger] k.subrange(m, m + n) != p by {
                if m == i {
                    assert(k.subrange(m, m + n)[j as int] != p[j as int]);
                }
            }
        }
        i = i + 1;
    }
    false
}

fn import_path_hit_exec(key: &[String], parts: &[String]) -> (r: bool)
    ensures
        r == import_path_hit(texts(key@), texts(parts@)),
{
    let ghost p = texts(parts@);
    let mut off: usize = 0;
    while off < parts.len()
        invariant
            off <= parts.len(),
            p == texts(parts@),
            forall|m: int| 0 <= m < off ==> !contains_run(texts(key@), #[trigger] p.subrange(m, p.len() as int)),
        decreases parts.len() - off,
    {
        if contains_run_exec(key, parts, off) {
            proof {
                let n = p.len() - off;
                assert(p.subrange(p.len() - n, p.len() as int) == p.subrange(off as int, p.len() as int));
            }
            return true;
        }
        off = off + 1;
    }
    proof {
        assert forall|n: int| 1 <= n <= p.len() implies !contains_run(texts(key@), #[trigger] p.subrange(p.len() - n, p.len() as int)) by {
            let m = p.len() - n;
            assert(0 <= m < off);
        }
    }
    false
}

fn package_hit_exec(key: &[String], parts: &Vec<String>, strong_only: bool) -> (r: bool)
    ensures
        r == package_hit_parts(texts(key@), texts(parts@), strong_only),
{
    let ghost p = texts(parts@);
    if parts.len() == 0 {
        return false;
    }
    if parts.len() == 1 {
        assert(p[0] == parts@[0]@);
        let root = crate_root_hit_exec(key, &parts[0]);
        if strong_only {
            return root;
        }
        if root {
            return true;
        }
        let run = contains_run_exec(key, parts.as_slice(), 0);
        assert(p.subrange(0, 1) =~= seq![p[0]]);
        return run;
    }
    import_path_hit_exec(key, parts.as_slice())
}

impl PathIndex {
    fn named_winners_exec(&self, ws: &Vec<usize>, parts: &Vec<String>, strong: bool) -> (r: Vec<usize>)
        requires
            forall|i: int| 0 <= i < ws@.len() ==> #[trigger] ws@[i] < self.keys().len(),
        ensures
            forall|i: int| 0 <= i < r@.len() ==> #[trigger] r@[i] < self.keys().len(),
            Seq::new(r@.len(), |i: int| r@[i] as int) == named_hits(Seq::new(ws@.len(), |i: int| ws@[i] as int), self.keys(), texts(parts@), strong),
    {
        let ghost wsi = Seq::new(ws@.len(), |i: int| ws@[i] as int);
        let mut out: Vec<usize> = Vec::new();
        let mut k: usize = 0;
        while k < ws.len()
            invariant
                k <= ws.len(),
                wsi == Seq::new(ws@.len(), |i: int| ws@[i] as int),
                forall|i: int| 0 <= i < ws@.len() ==> #[trigger] ws@[i] < self.keys().len(),
                forall|i: int| 0 <= i < out@.len() ==> #[trigger] out@[i] < self.keys().len(),
                Seq::new(out@.len(), |i: int| out@[i] as int) == named_hits(wsi.take(k as int), self.keys(), texts(parts@), strong),
            decreases ws.len() - k,
        {
            let w = ws[k];
            let ghost before = Seq::new(out@.len(), |i: int| out@[i] as int);
            assert(texts(self.files@[w as int].parts@) == self.keys()[w as int]);
            let hit = package_hit_exec(self.files[w].parts.as_slice(), parts, strong);
            proof {
                assert(wsi.take(k as int + 1).drop_last() =~= wsi.take(k as int));
                assert(wsi.take(k as int + 1).last() == w as int);
            }
            if hit {
                out.push(w);
                assert(Seq::new(out@.len(), |i: int| out@[i] as int) =~= before.push(w as int));
            }
            k = k + 1;
        }
        assert(wsi.take(ws.len() as int) =~= wsi);
        out
    }
}

proof fn lemma_winners_bound(cands: Seq<Parts>, keys: Seq<Parts>, best: Option<(bool, nat, bool)>, n: nat)
    ensures
        forall|i: int| 0 <= i < winners_upto(cands, keys, best, n).len() ==> 0 <= #[trigger] winners_upto(cands, keys, best, n)[i] < n,
    decreases n,
{
    if n > 0 && n <= keys.len() {
        lemma_winners_bound(cands, keys, best, (n - 1) as nat);
        let prev = winners_upto(cands, keys, best, (n - 1) as nat);
        assert forall|i: int| 0 <= i < winners_upto(cands, keys, best, n).len() implies 0
            <= #[trigger] winners_upto(cands, keys, best, n)[i] < n by {
            if i < prev.len() {
                assert(prev[i] < n - 1);
            }
        }
    }
}

impl PathIndex {
    /// Finds the best coverage key for the source components `src`.
    ///
    /// Keys are ranked by suffix agreement with the source (and with the source
    /// prefixed by the package segments); equal-rank ties are broken by the
    /// package name when exactly one tied key belongs to it.
    pub fn lookup(&self, src: &[String], name: Option<&str>) -> (r: Lookup)
        ensures
            r == lookup_spec(self.keys(), texts(src@), opt_text(name)),
            r matches Lookup::Found(k) ==> k < self.keys().len(),
    {
        if src.len() == 0 {
            return Lookup::Missing;
        }
        let cands = candidates(src, name);
        let best = self.best_over_exec(&cands);
        let ws = self.winners_exec(&cands, best);
        let ghost cs = candidates_spec(texts(src@), opt_text(name));
        let ghost wsp = winners_upto(cs, self.keys(), rank_view(best), self.keys().len());
        proof {
            lemma_winners_bound(cs, self.keys(), rank_view(best), self.keys().len());
            assert(Seq::new(ws@.len(), |i: int| ws@[i] as int) =~= wsp);
        }
        if ws.len() == 0 {
            return Lookup::Missing;
        }
        if ws.len() == 1 {
            return Lookup::Found(ws[0]);
        }
        match name {
            None => Lookup::Ambiguous,
            Some(nm) => {
                let parts = package_parts(nm);
                assert forall|i: int| 0 <= i < ws@.len() implies #[trigger] ws@[i] < self.keys().len() by {
                    assert(ws@[i] as int == wsp[i]);
                }
                let strong = self.named_winners_exec(&ws, &parts, true);
                if strong.len() == 1 {
                    assert(Seq::new(strong@.len(), |i: int| strong@[i] as int)[0] == strong@[0] as int);
                    return Lookup::Found(strong[0]);
                }
                let weak = self.named_winners_exec(&ws, &parts, false);
                if weak.len() == 1 {
                    assert(Seq::new(weak@.len(), |i: int| weak@[i] as int)[0] == weak@[0] as int);
                    return Lookup::Found(weak[0]);
                }
                Lookup::Ambiguous
            },
        }
    }
}

proof fn lemma_distinct_keys(paths: Seq<Seq<char>>)
    ensures
        forall|i: int| 0 <= i < distinct_keys(paths).len() ==> #[trigger] distinct_keys(paths)[i].len() > 0,
        forall|i: int, j: int| 0 <= i < j < distinct_keys(paths).len() ==> #[trigger] distinct_keys(paths)[i] != #[trigger] distinct_keys(paths)[j],
    decreases paths.len(),
{
    if paths.len() > 0 {
        lemma_distinct_keys(paths.drop_last());
        let prev = distinct_keys(paths.drop_last());
        let k = components_spec(paths.last());
        if !(k.len() == 0 || prev.contains(k)) {
            let d = prev.push(k);
            assert forall|i: int, j: int| 0 <= i < j < d.len() implies #[trigger] d[i] != #[trigger] d[j] by {
                if j == d.len() - 1 {
                    assert(prev[i] == d[i]);
                    if d[i] == d[j] {
                        assert(prev.contains(k));
                    }
                }
            }
        }
    }
}

proof fn lemma_merged_absent(cov: Seq<(Seq<char>, Seq<(u32, u64)>)>, key: Parts, l: u32)
    requires
        key.len() > 0,
        !distinct_keys(paths_of(cov)).contains(key),
    ensures
        merged_hits(cov, key, l) is None,
    decreases cov.len(),
{
    if cov.len() > 0 {
        let d = cov.drop_last();
        assert(paths_of(d) =~= paths_of(cov).drop_last());
        let prev = distinct_keys(paths_of(d));
        let k = components_spec(cov.last().0);
        assert(paths_of(cov).last() == cov.last().0);
        if k == key {
            if !prev.contains(k) {
                assert(distinct_keys(paths_of(cov)) == prev.push(k));
                assert(distinct_keys(paths_of(cov))[prev.len() as int] == key);
            }
            assert(false);
        }
        if prev.contains(key) {
            if !(k.len() == 0 || prev.contains(k)) {
                let j = choose|j: int| 0 <= j < prev.len() && prev[j] == key;
                assert(prev.push(k)[j] == key);
            }
            assert(distinct_keys(paths_of(cov)).contains(key));
        }
        lemma_merged_absent(d, key, l);
    }
}

impl PathIndex {
    /// Merges coverage entries whose paths normalize to the same components;
    /// entries with an empty normalized path are left out.
    pub fn from_coverage(cov: &[(String, FileCoverage)]) -> (r: PathIndex)
        ensures
            r.built_from(coverage_view(cov@)),
    {
        let ghost cv = coverage_view(cov@);
        let ghost ps = paths_of(cv);
        let mut files: Vec<IndexedFile> = Vec::new();
        let mut k: usize = 0;
        assert(ps.take(0) =~= Seq::<Seq<char>>::empty());
        assert(cv.take(0) =~= Seq::<(Seq<char>, Seq<(u32, u64)>)>::empty());
        assert(Self::file_keys(files@) =~= Seq::<Parts>::empty());
        while k < cov.len()
            invariant
                k <= cov.len(),
                cv == coverage_view(cov@),
                ps == paths_of(cv),
                Self::file_keys(files@) == distinct_keys(ps.take(k as int)),
                forall|i: int| 0 <= i < files@.len() ==> strictly_sorted(#[trigger] files@[i].coverage@),
                forall|i: int, l: u32| 0 <= i < files@.len() ==> #[trigger] line_hits(files@[i].coverage@, l) == merged_hits(
                    cv.take(k as int),
                    Self::file_keys(files@)[i],
                    l,
                ),
            decreases cov.len() - k,
        {
            let key = components(cov[k].0.as_str());
            let ghost kk = texts(key@);
            let ghost before = files@;
            let ghost keys0 = Self::file_keys(files@);
            proof {
                lemma_distinct_keys(ps.take(k as int));
                assert(ps.take(k as int + 1).drop_last() =~= ps.take(k as int));
                assert(ps.take(k as int + 1).last() == cov@[k as int].0@);
                assert(cv.take(k as int + 1).drop_last() =~= cv.take(k as int));
                assert(cv.take(k as int + 1).last() == (cov@[k as int].0@, cov@[k as int].1@));
                assert(paths_of(cv.take(k as int)) =~= ps.take(k as int));
            }
            if key.len() > 0 {
                let mut j: usize = 0;
                while j < files.len() && !parts_eq(files[j].parts.as_slice(), key.as_slice())
                    invariant
                        j <= files@.len(),
                        kk == texts(key@),
                        forall|m: int| 0 <= m < j ==> #[trigger] Self::file_keys(files@)[m] != kk,
                    decreases files.len() - j,
                {
                    assert(Self::file_keys(files@)[j as int] == texts(files@[j as int].parts@));
                    j = j + 1;
                }
                if j < files.len() {
                    assert(keys0[j as int] == kk);
                    let mut cur = files[j].coverage.clone();
                    assert(cur@ == before[j as int].coverage@);
                    cur.merge_from(&cov[k].1);
                    let ghost merged_cov = cur@;
                    assert(forall|l: u32| #[trigger] line_hits(merged_cov, l) == combine_hits(line_hits(before[j as int].coverage@, l), line_hits(cov@[k as int].1@, l)));
                    let parts = copy_parts(files[j].parts.as_slice());
                    files.set(j, IndexedFile { parts, coverage: cur });
                    proof {
                        assert forall|i: int| 0 <= i < files@.len() implies strictly_sorted(#[trigger] files@[i].coverage@) by {
                            if i != j {
                                assert(files@[i] == before[i]);
                            }
                        }
                        assert(files@[j as int].coverage@ == merged_cov);
                        assert(forall|i: int| 0 <= i < files@.len() && i != j ==> files@[i] == before[i]);
                        assert(Self::file_keys(files@) =~= keys0);
                        assert forall|i: int, l: u32| 0 <= i < files@.len() implies #[trigger] line_hits(files@[i].coverage@, l) == merged_hits(
                            cv.take(k + 1),
                            Self::file_keys(files@)[i],
                            l,
                        ) by {
                            if i != j {
                                assert(files@[i] == before[i]);
                                assert(keys0[i] != keys0[j as int]);
                                assert(line_hits(before[i].coverage@, l) == merged_hits(cv.take(k as int), keys0[i], l));
                            } else {
                                assert(line_hits(before[i].coverage@, l) == merged_hits(cv.take(k as int), keys0[i], l));
                                assert(merged_hits(cv.take(k as int + 1), kk, l) == combine_hits(
                                    merged_hits(cv.take(k as int), kk, l),
                                    line_hits(cov@[k as int].1@, l),
                                ));
                            }
                        }
                        assert(keys0.contains(kk));
                    }
                } else {
                    let copy = cov[k].1.clone();
                    files.push(IndexedFile { parts: key, coverage: copy });
                    proof {
                        assert forall|i: int| 0 <= i < files@.len() implies strictly_sorted(#[trigger] files@[i].coverage@) by {
                            if i < before.len() {
                                assert(files@[i] == before[i]);
                            }
                        }
                        assert(!keys0.contains(kk)) by {
                            if keys0.contains(kk) {
                                let m = choose|m: int| 0 <= m < keys0.len() && keys0[m] == kk;
                                assert(Self::file_keys(before)[m] != kk);
                            }
                        }
                        assert(Self::file_keys(files@) =~= keys0.push(kk));
                        assert forall|i: int, l: u32| 0 <= i < files@.len() implies #[trigger] line_hits(files@[i].coverage@, l) == merged_hits(
                            cv.take(k + 1),
                            Self::file_keys(files@)[i],
                            l,
                        ) by {
                            if i < before.len() {
                                assert(files@[i] == before[i]);
                                assert(keys0[i] != kk);
                                assert(line_hits(before[i].coverage@, l) == merged_hits(cv.take(k as int), keys0[i], l));
                            } else {
                                lemma_merged_absent(cv.take(k as int), kk, l);
                            }
                        }
                    }
                }
            } else {
                proof {
                    assert forall|i: int, l: u32| 0 <= i < files@.len() implies #[trigger] line_hits(files@[i].coverage@, l) == merged_hits(
                        cv.take(k + 1),
                        Self::file_keys(files@)[i],
                        l,
                    ) by {
                        assert(keys0[i].len() > 0);
                        assert(line_hits(before[i].coverage@, l) == merged_hits(cv.take(k as int), keys0[i], l));
                    }
                }
            }
            k = k + 1;
        }
        assert(ps.take(cov.len() as int) =~= ps);
        assert(cv.take(cov.len() as int) =~= cv);
        let r = PathIndex { files };
        assert(r.keys() =~= Self::file_keys(r.files@));
        r
    }
}

/// Every winner among the first `n` keys is an index below `n` whose key
/// some candidate reaches at the best rank.
proof fn lemma_winners_win(cands: Seq<Parts>, keys: Seq<Parts>, best: Option<(bool, nat, bool)>, n: nat)
    ensures
        forall|i: int|
            0 <= i < winners_upto(cands, keys, best, n).len() ==> {
                let w = #[trigger] winners_upto(cands, keys, best, n)[i];
                &&& 0 <= w < n
                &&& n <= keys.len() ==> is_winner(cands, keys[w], best)
            },
    decreases n,
{
    if n > 0 && n <= keys.len() {
        lemma_winners_win(cands, keys, best, (n - 1) as nat);
        let prev = winners_upto(cands, keys, best, (n - 1) as nat);
        assert forall|i: int| 0 <= i < winners_upto(cands, keys, best, n).len() implies {
            let w = #[trigger] winners_upto(cands, keys, best, n)[i];
            &&& 0 <= w < n
            &&& n <= keys.len() ==> is_winner(cands, keys[w], best)
        } by {
            if i < prev.len() {
                assert(winners_upto(cands, keys, best, n)[i] == prev[i]);
            }
        }
    }
}

/// Every package hit among the winners `ws` is one of them.
proof fn lemma_named_hits_among(ws: Seq<int>, keys: Seq<Parts>, p: Seq<Seq<char>>, strong: bool)
    ensures
        forall|i: int|
            0 <= i < named_hits(ws, keys, p, strong).len() ==> exists|j: int|
                0 <= j < ws.len() && ws[j] == #[trigger] named_hits(ws, keys, p, strong)[i],
    decreases ws.len(),
{
    if ws.len() > 0 {
        let rest = ws.drop_last();
        lemma_named_hits_among(rest, keys, p, strong);
        let prev = named_hits(rest, keys, p, strong);
        assert forall|i: int| 0 <= i < named_hits(ws, keys, p, strong).len() implies exists|j: int|
            0 <= j < ws.len() && ws[j] == #[trigger] named_hits(ws, keys, p, strong)[i] by {
            if i < prev.len() {
                let j = choose|j: int| 0 <= j < rest.len() && rest[j] == #[trigger] prev[i];
                assert(ws[j] == rest[j]);
            } else {
                assert(ws[ws.len() - 1] == ws.last());
            }
        }
    }
}

/// A lookup finds only a key whose components are a suffix of, or end in,
/// the source path, or the source path prefixed by segments of the package
/// name: coverage of an unrelated file is never joined. Without a package
/// name the key matches the source path itself.
pub proof fn lemma_found_key_matches_path(keys: Seq<Parts>, src: Parts, name: Option<Seq<char>>)
    requires
        keys.len() <= usize::MAX,
    ensures
        lookup_spec(keys, src, name) matches Lookup::Found(k) ==> {
            &&& (k as int) < keys.len()
            &&& exists|c: int|
                0 <= c < candidates_spec(src, name).len() && is_suffix_pair(
                    #[trigger] candidates_spec(src, name)[c],
                    keys[k as int],
                )
        },
        name is None ==> (lookup_spec(keys, src, name) matches Lookup::Found(k) ==> is_suffix_pair(src, keys[k as int])),
{
    if src.len() > 0 {
        let cands = candidates_spec(src, name);
        let best = best_over(cands, keys, cands.len());
        let ws = winners_upto(cands, keys, best, keys.len());
        lemma_winners_win(cands, keys, best, keys.len());
        if let Lookup::Found(k) = lookup_spec(keys, src, name) {
            let w: int = if ws.len() == 1 {
                ws[0]
            } else {
                let nm = name->0;
                let strong = named_winners(ws, keys, nm, true);
                let weak = named_winners(ws, keys, nm, false);
                lemma_named_hits_among(ws, keys, package_parts_spec(nm), true);
                lemma_named_hits_among(ws, keys, package_parts_spec(nm), false);
                if strong.len() == 1 {
                    let j = choose|j: int| 0 <= j < ws.len() && ws[j] == #[trigger] strong[0];
                    assert(ws[j] == strong[0]);
                    ws[j]
                } else {
                    let j = choose|j: int| 0 <= j < ws.len() && ws[j] == #[trigger] weak[0];
                    assert(ws[j] == weak[0]);
                    ws[j]
                }
            };
            assert(0 <= w < keys.len() && is_winner(cands, keys[w], best));
            assert(k as int == w);
            let c = choose|c: int| 0 <= c < cands.len() && rank_spec(#[trigger] cands[c], keys[w]) == best;
            assert(is_suffix_pair(cands[c], keys[k as int]));
        }
    }
}

/// Rank of a key that the source path ends with.
spec fn suffix_rank(src: Parts, key: Parts) -> (bool, nat, bool) {
    (true, key.len(), src == key)
}

/// With key `k` a suffix of `src` and every other matching key a shorter
/// suffix, the best rank over the first `n` keys is `k`'s once `k` is among
/// them, and below it before.
proof fn lemma_best_is_longest(keys: Seq<Parts>, src: Parts, k: int, n: nat)
    requires
        0 <= k < keys.len(),
        n <= keys.len(),
        ends_with(src, keys[k]),
        forall|j: int|
            0 <= j < keys.len() && j != k && is_suffix_pair(src, #[trigger] keys[j]) ==> ends_with(src, keys[j])
                && keys[j].len() < keys[k].len(),
    ensures
        n > k ==> best_for(src, keys, n) == Some(suffix_rank(src, keys[k])),
        n <= k ==> (best_for(src, keys, n) matches Some(r) ==> rank_lt(r, suffix_rank(src, keys[k]))),
    decreases n,
{
    if n > 0 {
        lemma_best_is_longest(keys, src, k, (n - 1) as nat);
        let j = n - 1;
        if j != k && is_suffix_pair(src, keys[j]) {
            assert(ends_with(src, keys[j]) && keys[j].len() < keys[k].len());
        }
    }
}

/// Without a package name, a key that the source path ends with is found
/// when every other key that matches the path at all is a shorter suffix
/// of it: the longest matching suffix wins.
pub proof fn lemma_longest_suffix_wins(keys: Seq<Parts>, src: Parts, k: int)
    requires
        src.len() > 0,
        0 <= k < keys.len(),
        ends_with(src, keys[k]),
        forall|j: int|
            0 <= j < keys.len() && j != k && is_suffix_pair(src, #[trigger] keys[j]) ==> ends_with(src, keys[j])
                && keys[j].len() < keys[k].len(),
    ensures
        lookup_spec(keys, src, None) == Lookup::Found(k as usize),
{
    let cands = candidates_spec(src, None);
    assert(cands == seq![src]);
    lemma_best_is_longest(keys, src, k, keys.len());
    let top = Some(suffix_rank(src, keys[k]));
    let best = best_over(cands, keys, cands.len());
    assert(best_over(cands, keys, 0) is None);
    assert(best == top);
    lemma_only_longest_wins(keys, src, k, keys.len());
    let ws = winners_upto(cands, keys, best, keys.len());
    assert(ws =~= seq![k]);
}

/// Under the hypotheses of [`lemma_longest_suffix_wins`], `k` is the only
/// winner among the first `n` keys.
proof fn lemma_only_longest_wins(keys: Seq<Parts>, src: Parts, k: int, n: nat)
    requires
        0 <= k < keys.len(),
        n <= keys.len(),
        ends_with(src, keys[k]),
        forall|j: int|
            0 <= j < keys.len() && j != k && is_suffix_pair(src, #[trigger] keys[j]) ==> ends_with(src, keys[j])
                && keys[j].len() < keys[k].len(),
    ensures
        winners_upto(seq![src], keys, Some(suffix_rank(src, keys[k])), n) == if n > k {
            seq![k]
        } else {
            Seq::<int>::empty()
        },
    decreases n,
{
    let cands = seq![src];
    let top = Some(suffix_rank(src, keys[k]));
    if n > 0 {
        lemma_only_longest_wins(keys, src, k, (n - 1) as nat);
        let j = n - 1;
        if j == k {
            assert(rank_spec(cands[0], keys[j]) == top);
            assert(is_winner(cands, keys[j], top));
            assert(Seq::<int>::empty().push(k) =~= seq![k]);
        } else {
            if is_winner(cands, keys[j], top) {
                let c = choose|c: int| 0 <= c < cands.len() && rank_spec(#[trigger] cands[c], keys[j]) == top;
                assert(cands[c] == src);
                assert(is_suffix_pair(src, keys[j]));
                assert(ends_with(src, keys[j]) && keys[j].len() < keys[k].len());
            }
        }
    }
}

} // verus!
