//! Go coverprofile data: block records read into per-file line hits, and
//! import-path keys rewritten to paths under module roots.
use crate::chars::{
    copy_chars, parse_unsigned, parse_unsigned_chars, starts_with, starts_with_chars, trim_chars,
    trimmed,
};
use crate::coverage::{combine_hits, line_hits, sat_add, FileCoverage};
use crate::error::Error;
use crate::lcov::{slash_chars, slashed};
use crate::rust_path::{join_path, joined, rust_parts, same_path};
use crate::text::{chars_of, concat, owned, starts_with_text, str_eq, string_from, suffix_from};
use vstd::prelude::*;

verus! {

/// `key` lies in the module whose import path is `module_name`.
pub open spec fn in_module(key: Seq<char>, module_name: Seq<char>) -> bool {
    let prefix = module_name + seq!['/'];
    prefix.len() <= key.len() && key.subrange(0, prefix.len() as int) == prefix
}

/// Index of the module that claims `key`: the longest matching module
/// path, the earliest of equally long ones, among the first `n` modules.
pub open spec fn claiming_module(key: Seq<char>, modules: Seq<(String, String)>, n: nat) -> Option<int>
    decreases n,
{
    if n == 0 || n > modules.len() {
        None
    } else {
        let prev = claiming_module(key, modules, (n - 1) as nat);
        let m = modules[n - 1];
        if in_module(key, m.1@) && (prev matches Some(p) ==> modules[p].1@.len() < m.1@.len()) {
            Some(n - 1)
        } else {
            prev
        }
    }
}

/// The path a coverprofile key is filed under: below the claiming module's
/// root when a module claims it, else the key unchanged.
pub open spec fn remapped(path: Seq<char>, modules: Seq<(String, String)>) -> Seq<char> {
    let key = slashed(path);
    match claiming_module(key, modules, modules.len()) {
        Some(k) => joined(modules[k].0@, key.skip(modules[k].1@.len() + 1int)),
        None => path,
    }
}

/// Distinct remapped keys of the first `n` entries, in first-seen order.
pub open spec fn remapped_keys(cov: Seq<(String, FileCoverage)>, modules: Seq<(String, String)>, n: nat) -> Seq<Seq<char>>
    decreases n,
{
    if n == 0 || n > cov.len() {
        Seq::empty()
    } else {
        let prev = remapped_keys(cov, modules, (n - 1) as nat);
        let key = remapped(cov[n - 1].0@, modules);
        if exists|k: int| 0 <= k < prev.len() && rust_parts(#[trigger] prev[k]) == rust_parts(key) {
            prev
        } else {
            prev.push(key)
        }
    }
}

/// Hits of `line` summed over the first `n` entries filed under `key`.
pub open spec fn remapped_hits(cov: Seq<(String, FileCoverage)>, modules: Seq<(String, String)>, key: Seq<char>, line: u32, n: nat) -> Option<u64>
    decreases n,
{
    if n == 0 || n > cov.len() {
        None
    } else {
        let prev = remapped_hits(cov, modules, key, line, (n - 1) as nat);
        if rust_parts(remapped(cov[n - 1].0@, modules)) == rust_parts(key) {
            combine_hits(prev, line_hits(cov[n - 1].1@, line))
        } else {
            prev
        }
    }
}

/// `out` is the remapped coverage: one entry per distinct remapped key, each
/// holding the summed hits of every entry filed under it.
pub open spec fn remap_result(out: Seq<(String, FileCoverage)>, cov: Seq<(String, FileCoverage)>, modules: Seq<(String, String)>, n: nat) -> bool {
    let keys = remapped_keys(cov, modules, n);
    &&& out.len() == keys.len()
    &&& forall|k: int|
        0 <= k < out.len() ==> {
            &&& (#[trigger] out[k]).0@ == keys[k]
            &&& forall|l: u32| #[trigger] line_hits(out[k].1@, l) == remapped_hits(cov, modules, keys[k], l, n)
        }
}

/// Remapped keys are pairwise different paths.
pub proof fn lemma_keys_distinct(cov: Seq<(String, FileCoverage)>, modules: Seq<(String, String)>, n: nat)
    ensures
        forall|a: int, b: int|
            0 <= a < b < remapped_keys(cov, modules, n).len() ==> rust_parts(
                #[trigger] remapped_keys(cov, modules, n)[a],
            ) != rust_parts(#[trigger] remapped_keys(cov, modules, n)[b]),
    decreases n,
{
    if n > 0 && n <= cov.len() {
        lemma_keys_distinct(cov, modules, (n - 1) as nat);
        let prev = remapped_keys(cov, modules, (n - 1) as nat);
        let next = remapped_keys(cov, modules, n);
        let rk = remapped(cov[n - 1].0@, modules);
        if !(exists|k: int| 0 <= k < prev.len() && rust_parts(#[trigger] prev[k]) == rust_parts(rk)) {
            assert(next == prev.push(rk));
            assert forall|a: int, b: int| 0 <= a < b < next.len() implies rust_parts(#[trigger] next[a])
                != rust_parts(#[trigger] next[b]) by {
                if b == prev.len() {
                    assert(next[a] == prev[a]);
                    assert(next[b] == rk);
                } else {
                    assert(next[a] == prev[a]);
                    assert(next[b] == prev[b]);
                }
            }
        }
    }
}

/// Each step keeps the earlier keys as a prefix.
pub proof fn lemma_keys_grow(cov: Seq<(String, FileCoverage)>, modules: Seq<(String, String)>, n: nat)
    requires
        n < cov.len(),
    ensures
        ({
            let prev = remapped_keys(cov, modules, n);
            let next = remapped_keys(cov, modules, n + 1);
            &&& prev.len() <= next.len()
            &&& forall|k: int| 0 <= k < prev.len() ==> next[k] == prev[k]
        }),
{
}

/// A path that no remapped key equals has no hits.
pub proof fn lemma_hits_absent(cov: Seq<(String, FileCoverage)>, modules: Seq<(String, String)>, key: Seq<char>, n: nat)
    requires
        forall|k: int|
            0 <= k < remapped_keys(cov, modules, n).len() ==> rust_parts(
                #[trigger] remapped_keys(cov, modules, n)[k],
            ) != rust_parts(key),
    ensures
        forall|l: u32| #[trigger] remapped_hits(cov, modules, key, l, n) is None,
    decreases n,
{
    if n > 0 && n <= cov.len() {
        let prev = remapped_keys(cov, modules, (n - 1) as nat);
        let next = remapped_keys(cov, modules, n);
        lemma_keys_grow(cov, modules, (n - 1) as nat);
        assert forall|k: int| 0 <= k < prev.len() implies rust_parts(#[trigger] prev[k]) != rust_parts(key) by {
            assert(next[k] == prev[k]);
        }
        lemma_hits_absent(cov, modules, key, (n - 1) as nat);
        let rk = remapped(cov[n - 1].0@, modules);
        if rust_parts(rk) == rust_parts(key) {
            if exists|k: int| 0 <= k < prev.len() && rust_parts(#[trigger] prev[k]) == rust_parts(rk) {
                let k = choose|k: int| 0 <= k < prev.len() && rust_parts(#[trigger] prev[k]) == rust_parts(rk);
                assert(next[k] == prev[k]);
            } else {
                assert(next[prev.len() as int] == rk);
            }
        }
        assert forall|l: u32| #[trigger] remapped_hits(cov, modules, key, l, n) is None by {
            assert(remapped_hits(cov, modules, key, l, (n - 1) as nat) is None);
        }
    }
}

fn slash_string(p: &str) -> (r: String)
    ensures
        r@ == slashed(p@),
{
    let cs = chars_of(p);
    let mut out: Vec<char> = Vec::new();
    let mut k: usize = 0;
    while k < cs.len()
        invariant
            k <= cs.len(),
            cs@ == p@,
            out@ == slashed(p@.take(k as int)),
        decreases cs.len() - k,
    {
        let c = cs[k];
        out.push(if c == '\\' { '/' } else { c });
        proof {
            assert(slashed(p@.take(k + 1)) =~= slashed(p@.take(k as int)).push(if c == '\\' { '/' } else { c }));
        }
        k = k + 1;
    }
    assert(p@.take(p@.len() as int) =~= p@);
    string_from(out.as_slice())
}

fn text_len(s: &str) -> (n: usize)
    ensures
        n == s@.len(),
{
    chars_of(s).len()
}

fn remap_against_modules(path: &str, modules: &[(String, String)]) -> (r: String)
    ensures
        r@ == remapped(path@, modules@),
{
    let key = slash_string(path);
    let mut best: Option<usize> = None;
    let mut k: usize = 0;
    while k < modules.len()
        invariant
            k <= modules.len(),
            key@ == slashed(path@),
            match best {
                Some(b) => claiming_module(key@, modules@, k as nat) == Some(b as int) && b < k
                    && in_module(key@, modules@[b as int].1@),
                None => claiming_module(key@, modules@, k as nat) is None,
            },
        decreases modules.len() - k,
    {
        let prefix = concat(modules[k].1.as_str(), "/");
        proof {
            reveal_strlit("/");
            assert("/"@ =~= seq!['/']);
            assert(prefix@ == modules@[k as int].1@ + seq!['/']);
        }
        if starts_with_text(key.as_str(), prefix.as_str()) {
            let longer = match best {
                Some(b) => text_len(modules[b].1.as_str()) < text_len(modules[k].1.as_str()),
                None => true,
            };
            if longer {
                best = Some(k);
            }
        }
        k = k + 1;
    }
    match best {
        Some(b) => {
            let n = text_len(modules[b].1.as_str());
            let key_len = text_len(key.as_str());
            assert(n + 1 <= key_len);
            let rest = suffix_from(key.as_str(), n + 1);
            join_path(modules[b].0.as_str(), rest.as_str())
        },
        None => owned(path),
    }
}

/// Rewrites import-path coverprofile keys for every module `(root,
/// import path)`: a key under `import_path/` moves below `root`, the
/// longest claiming import path winning; keys that land on the same path are
/// merged. Other keys stay as they are.
pub fn remap_import_paths_all(coverage: &[(String, FileCoverage)], modules: &[(String, String)]) -> (r: Vec<(String, FileCoverage)>)
    ensures
        remap_result(r@, coverage@, modules@, coverage@.len() as nat),
{
    let mut out: Vec<(String, FileCoverage)> = Vec::new();
    let mut i: usize = 0;
    while i < coverage.len()
        invariant
            i <= coverage.len(),
            remap_result(out@, coverage@, modules@, i as nat),
        decreases coverage.len() - i,
    {
        let key = remap_against_modules(coverage[i].0.as_str(), modules);
        let ghost keys = remapped_keys(coverage@, modules@, i as nat);
        let ghost before = out@;
        let mut found: Option<usize> = None;
        let mut j: usize = 0;
        while j < out.len()
            invariant
                j <= out.len(),
                out@ == before,
                before.len() == keys.len(),
                forall|q: int| 0 <= q < before.len() ==> (#[trigger] before[q]).0@ == keys[q],
                match found {
                    Some(f) => f < out.len() && rust_parts(keys[f as int]) == rust_parts(key@),
                    None => forall|q: int| 0 <= q < j ==> rust_parts(#[trigger] keys[q]) != rust_parts(key@),
                },
            decreases out.len() - j,
        {
            if found.is_none() && same_path(out[j].0.as_str(), key.as_str()) {
                found = Some(j);
            }
            j = j + 1;
        }
        proof {
            lemma_keys_distinct(coverage@, modules@, i as nat);
            lemma_keys_grow(coverage@, modules@, i as nat);
        }
        match found {
            Some(f) => {
                let mut file = out[f].1.clone();
                let ghost old_file = file@;
                file.merge_from(&coverage[i].1);
                let ghost new_file = file@;
                let name = out[f].0.clone();
                out.set(f, (name, file));
                proof {
                    assert(remapped_keys(coverage@, modules@, (i + 1) as nat) == keys);
                    assert forall|k: int| 0 <= k < out@.len() implies {
                        &&& (#[trigger] out@[k]).0@ == keys[k]
                        &&& forall|l: u32| #[trigger] line_hits(out@[k].1@, l) == remapped_hits(coverage@, modules@, keys[k], l, (i + 1) as nat)
                    } by {
                        if k != f {
                            assert(out@[k] == before[k]);
                            assert(rust_parts(keys[k]) != rust_parts(key@));
                            assert forall|l: u32| #[trigger] line_hits(out@[k].1@, l) == remapped_hits(coverage@, modules@, keys[k], l, (i + 1) as nat) by {
                                assert(line_hits(before[k].1@, l) == remapped_hits(coverage@, modules@, keys[k], l, i as nat));
                            }
                        } else {
                            assert forall|l: u32| #[trigger] line_hits(out@[k].1@, l) == remapped_hits(coverage@, modules@, keys[k], l, (i + 1) as nat) by {
                                assert(out@[k].1@ == new_file);
                                assert(old_file == before[k].1@);
                                assert(line_hits(before[k].1@, l) == remapped_hits(coverage@, modules@, keys[k], l, i as nat));
                                assert(line_hits(new_file, l) == combine_hits(line_hits(old_file, l), line_hits(coverage@[i as int].1@, l)));
                            }
                        }
                    }
                }
            },
            None => {
                let mut file = FileCoverage::new();
                file.merge_from(&coverage[i].1);
                let ghost new_file = file@;
                out.push((key, file));
                proof {
                    let keys2 = remapped_keys(coverage@, modules@, (i + 1) as nat);
                    assert(!(exists|k: int| 0 <= k < keys.len() && rust_parts(#[trigger] keys[k]) == rust_parts(key@)));
                    assert(keys2 == keys.push(key@));
                    lemma_hits_absent(coverage@, modules@, key@, i as nat);
                    assert forall|k: int| 0 <= k < out@.len() implies {
                        &&& (#[trigger] out@[k]).0@ == keys2[k]
                        &&& forall|l: u32| #[trigger] line_hits(out@[k].1@, l) == remapped_hits(coverage@, modules@, keys2[k], l, (i + 1) as nat)
                    } by {
                        if k < before.len() {
                            assert(out@[k] == before[k]);
                            assert(keys2[k] == keys[k]);
                            assert(rust_parts(keys[k]) != rust_parts(key@));
                            assert forall|l: u32| #[trigger] line_hits(out@[k].1@, l) == remapped_hits(coverage@, modules@, keys2[k], l, (i + 1) as nat) by {
                                assert(line_hits(before[k].1@, l) == remapped_hits(coverage@, modules@, keys[k], l, i as nat));
                            }
                        } else {
                            assert forall|l: u32| #[trigger] line_hits(out@[k].1@, l) == remapped_hits(coverage@, modules@, keys2[k], l, (i + 1) as nat) by {
                                assert(out@[k].1@ == new_file);
                                assert(line_hits(new_file, l) == combine_hits(line_hits(Seq::<(u32, u64)>::empty(), l), line_hits(coverage@[i as int].1@, l)));
                                assert(remapped_hits(coverage@, modules@, key@, l, i as nat) is None);
                            }
                        }
                    }
                }
            },
        }
        i = i + 1;
    }
    out
}

/// Rewrites import-path keys that begin with `module_name/` to paths
/// under `module_root`; other keys (absolute paths, dependencies, bare
/// names) stay as they are.
pub fn remap_import_paths(coverage: &[(String, FileCoverage)], module_root: &str, module_name: &str) -> (r: Vec<(String, FileCoverage)>)
    ensures
        exists|m: (String, String)|
            m.0@ == module_root@ && m.1@ == module_name@ && remap_result(r@, coverage@, seq![m], coverage@.len() as nat),
{
    let mut modules: Vec<(String, String)> = Vec::new();
    modules.push((owned(module_root), owned(module_name)));
    let r = remap_import_paths_all(coverage, modules.as_slice());
    assert(modules@ == seq![modules@[0]]);
    r
}

/// How block counts combine, as the `mode:` header says.
#[derive(Debug, Clone, Copy, PartialEq, Eq, Structural)]
pub enum CoverMode {
    /// A line is covered or not (`set`).
    Flag,
    /// Counts add up (`count`, `atomic`).
    Count,
}

/// Last index below `n` holding `c`.
pub open spec fn last_at(s: Seq<char>, c: char, n: int) -> Option<int>
    decreases n,
{
    if n <= 0 || n > s.len() {
        None
    } else if s[n - 1] == c {
        Some(n - 1)
    } else {
        last_at(s, c, n - 1)
    }
}

/// First index at or after `i` holding `c`.
pub open spec fn first_at(s: Seq<char>, c: char, i: int) -> Option<int>
    decreases s.len() - i,
{
    if i < 0 || i >= s.len() {
        None
    } else if s[i] == c {
        Some(i)
    } else {
        first_at(s, c, i + 1)
    }
}

/// The three fields of a data line, split at its last two spaces:
/// hits, statement count, and `path:span` (`rsplitn(3, ' ')`).
pub open spec fn data_parts(line: Seq<char>) -> Option<(Seq<char>, Seq<char>, Seq<char>)> {
    match last_at(line, ' ', line.len() as int) {
        None => None,
        Some(a) => {
            let rest = line.subrange(0, a);
            match last_at(rest, ' ', rest.len() as int) {
                None => None,
                Some(b) => Some(
                    (line.subrange(a + 1, line.len() as int), rest.subrange(b + 1, rest.len() as int), rest.subrange(0, b)),
                ),
            }
        },
    }
}

/// The line number before the first `.` of `line.column`.
pub open spec fn dotted_line(part: Seq<char>) -> Option<u32> {
    match first_at(part, '.', 0) {
        None => None,
        Some(d) => match parse_unsigned(part.subrange(0, d), u32::MAX as nat) {
            Some(v) => Some(v as u32),
            None => None,
        },
    }
}

/// `file:start.col,end.col`: the file (backslashes made slashes) and the
/// first and last line.
pub open spec fn path_span(ps: Seq<char>) -> Option<(Seq<char>, u32, u32)> {
    match last_at(ps, ':', ps.len() as int) {
        None => None,
        Some(c) => {
            let span = ps.subrange(c + 1, ps.len() as int);
            match first_at(span, ',', 0) {
                None => None,
                Some(m) => match (dotted_line(span.subrange(0, m)), dotted_line(span.subrange(m + 1, span.len() as int))) {
                    (Some(a), Some(b)) => Some((slashed(ps.subrange(0, c)), a, b)),
                    _ => None,
                },
            }
        },
    }
}

/// The most lines one block may span: a block over more is refused rather
/// than expanded line by line.
pub const MAX_COVER_SPAN_LINES: u32 = 1000000;

/// A block over lines `start..=end` that is accepted.
pub open spec fn valid_span(start: u32, end: u32) -> bool {
    start != 0 && end != 0 && end >= start && end - start < MAX_COVER_SPAN_LINES
}

/// A data line read as a block: file, first line, last line, hits.
pub open spec fn block_fields(line: Seq<char>) -> Option<(Seq<char>, u32, u32, u64)> {
    match data_parts(line) {
        None => None,
        Some((h, st, ps)) => match path_span(ps) {
            None => None,
            Some((file, a, b)) => match (parse_unsigned(st, u64::MAX as nat), parse_unsigned(h, u64::MAX as nat)) {
                (Some(_), Some(hits)) => if valid_span(a, b) {
                    Some((file, a, b, hits as u64))
                } else {
                    None
                },
                _ => None,
            },
        },
    }
}

/// Why reading a profile stops: line `k` could not be read, or a message.
pub enum CoverStop {
    Read(int),
    Text(Seq<char>),
}

/// What the data lines read so far have given: blocks per file (files in
/// first-seen order), how many data lines there were, and why reading
/// stopped, if it did.
pub struct CoverModel {
    pub files: Seq<(Seq<char>, Seq<(u32, u32, u64)>)>,
    pub data: nat,
    pub stop: Option<CoverStop>,
}

/// Index of the file whose path equals `path` component by component.
pub open spec fn block_file(files: Seq<(Seq<char>, Seq<(u32, u32, u64)>)>, path: Seq<char>, k: int) -> Option<int>
    decreases files.len() - k,
{
    if 0 <= k < files.len() {
        if rust_parts(files[k].0) == rust_parts(path) {
            Some(k)
        } else {
            block_file(files, path, k + 1)
        }
    } else {
        None
    }
}

/// Files after one more block for `path`.
pub open spec fn add_block(files: Seq<(Seq<char>, Seq<(u32, u32, u64)>)>, path: Seq<char>, b: (u32, u32, u64)) -> Seq<(Seq<char>, Seq<(u32, u32, u64)>)> {
    match block_file(files, path, 0) {
        Some(k) => files.update(k, (files[k].0, files[k].1.push(b))),
        None => files.push((path, seq![b])),
    }
}

pub open spec fn malformed_line_message(origin: Seq<char>, line: Seq<char>) -> Seq<char> {
    origin + ": malformed coverprofile line: "@ + line
}

/// The model after data line `k`.
pub open spec fn cover_step(m: CoverModel, line: Option<Seq<char>>, k: int, origin: Seq<char>) -> CoverModel {
    if m.stop is Some {
        m
    } else {
        match line {
            None => CoverModel { stop: Some(CoverStop::Read(k)), ..m },
            Some(raw) => {
                let t = trimmed(raw);
                if t.len() == 0 {
                    m
                } else {
                    match block_fields(t) {
                        None => CoverModel { stop: Some(CoverStop::Text(malformed_line_message(origin, t))), ..m },
                        Some((p, a, b, h)) => CoverModel { files: add_block(m.files, p, (a, b, h)), data: m.data + 1, ..m },
                    }
                }
            },
        }
    }
}

/// The model after the data lines among the first `n` lines (line 0 is
/// the mode line).
pub open spec fn cover_model(lines: Seq<Option<Seq<char>>>, n: nat, origin: Seq<char>) -> CoverModel
    decreases n,
{
    if n <= 1 || n > lines.len() {
        CoverModel { files: Seq::empty(), data: 0, stop: None }
    } else {
        cover_step(cover_model(lines, (n - 1) as nat, origin), lines[n - 1], n - 1, origin)
    }
}

/// The mode a `mode:` value names.
pub open spec fn mode_named(t: Seq<char>) -> Option<CoverMode> {
    if t == "set"@ {
        Some(CoverMode::Flag)
    } else if t == "count"@ || t == "atomic"@ {
        Some(CoverMode::Count)
    } else {
        None
    }
}

/// The mode line, trimmed: `mode:` and a known mode.
pub open spec fn mode_line(line: Seq<char>, origin: Seq<char>) -> Result<CoverMode, Seq<char>> {
    let t = trimmed(line);
    if !starts_with(t, "mode:"@) {
        Err(origin + ": missing coverprofile mode line"@)
    } else {
        let rest = trimmed(t.skip(5));
        match mode_named(rest) {
            Some(m) => Ok(m),
            None => Err(origin + ": unknown coverprofile mode `"@ + rest + "`"@),
        }
    }
}

/// The profile's mode, from its first line.
pub open spec fn profile_mode(lines: Seq<Option<Seq<char>>>, origin: Seq<char>) -> Result<CoverMode, CoverStop> {
    if lines.len() == 0 {
        Err(CoverStop::Text(origin + ": coverprofile is empty"@))
    } else {
        match lines[0] {
            None => Err(CoverStop::Read(0)),
            Some(l) => match mode_line(l, origin) {
                Ok(m) => Ok(m),
                Err(x) => Err(CoverStop::Text(x)),
            },
        }
    }
}

/// A whole profile: its mode and blocks per file, or why it is refused.
pub open spec fn profile_outcome(lines: Seq<Option<Seq<char>>>, origin: Seq<char>) -> Result<(CoverMode, Seq<(Seq<char>, Seq<(u32, u32, u64)>)>), CoverStop> {
    match profile_mode(lines, origin) {
        Err(s) => Err(s),
        Ok(mode) => {
            let m = cover_model(lines, lines.len(), origin);
            match m.stop {
                Some(s) => Err(s),
                None => if m.data == 0 {
                    Err(CoverStop::Text(origin + ": coverprofile has no data lines"@))
                } else {
                    Ok((mode, m.files))
                },
            }
        },
    }
}

/// A line's state after one more block over it: a zero-hit block marks it,
/// other blocks count it once (`set`) or add their hits (`count`).
pub open spec fn hit_step(prev: Option<(u64, bool)>, hits: u64, mode: CoverMode) -> (u64, bool) {
    let (p, z) = match prev {
        Some(x) => x,
        None => (0u64, false),
    };
    if hits == 0 {
        (p, true)
    } else {
        match mode {
            CoverMode::Flag => (if p >= 1 { p } else { 1u64 }, z),
            CoverMode::Count => (sat_add(p, hits), z),
        }
    }
}

/// The state of `line` after the blocks `bs`: positive hits and whether a
/// zero-hit block covered it; absent when no block covers it.
pub open spec fn line_acc(bs: Seq<(u32, u32, u64)>, line: u32, mode: CoverMode) -> Option<(u64, bool)>
    decreases bs.len(),
{
    if bs.len() == 0 {
        None
    } else {
        let prev = line_acc(bs.drop_last(), line, mode);
        let b = bs.last();
        if b.0 <= line && line <= b.1 {
            Some(hit_step(prev, b.2, mode))
        } else {
            prev
        }
    }
}

/// The hits reported for a line: zero when any block over it had none.
pub open spec fn settled(a: Option<(u64, bool)>) -> Option<u64> {
    match a {
        None => None,
        Some((p, z)) => Some(if z { 0u64 } else { p }),
    }
}

/// `v` holds the files of a profile: same paths in the same order, each
/// line with its settled hits.
pub open spec fn profile_files(v: Seq<(String, FileCoverage)>, files: Seq<(Seq<char>, Seq<(u32, u32, u64)>)>, mode: CoverMode) -> bool {
    &&& v.len() == files.len()
    &&& forall|k: int|
        0 <= k < v.len() ==> {
            &&& (#[trigger] v[k]).0@ == files[k].0
            &&& forall|l: u32| #[trigger] line_hits(v[k].1@, l) == settled(line_acc(files[k].1, l, mode))
        }
}

/// The lines as read: the text of each, or nothing where reading failed.
pub open spec fn line_views(lines: Seq<Result<String, std::io::Error>>) -> Seq<Option<Seq<char>>> {
    Seq::new(
        lines.len(),
        |k: int|
            match lines[k] {
                Ok(s) => Some(s@),
                Err(_) => None,
            },
    )
}

/// The blocks of each file, as contents.
pub open spec fn blocks_view(v: Seq<(String, Vec<(u32, u32, u64)>)>) -> Seq<(Seq<char>, Seq<(u32, u32, u64)>)> {
    Seq::new(v.len(), |k: int| (v[k].0@, v[k].1@))
}

fn last_index(s: &[char], c: char, n: usize) -> (r: Option<usize>)
    requires
        n <= s@.len(),
    ensures
        match r {
            Some(i) => last_at(s@, c, n as int) == Some(i as int) && i < n,
            None => last_at(s@, c, n as int) is None,
        },
{
    let mut k = n;
    while k > 0
        invariant
            k <= n <= s@.len(),
            last_at(s@, c, k as int) == last_at(s@, c, n as int),
        decreases k,
    {
        if s[k - 1] == c {
            return Some(k - 1);
        }
        k = k - 1;
    }
    None
}

fn first_index(s: &[char], c: char) -> (r: Option<usize>)
    ensures
        match r {
            Some(i) => first_at(s@, c, 0) == Some(i as int) && i < s@.len(),
            None => first_at(s@, c, 0) is None,
        },
{
    let mut k: usize = 0;
    while k < s.len()
        invariant
            k <= s@.len(),
            first_at(s@, c, k as int) == first_at(s@, c, 0),
        decreases s.len() - k,
    {
        if s[k] == c {
            return Some(k);
        }
        k = k + 1;
    }
    None
}

fn parse_dotted_line(part: &[char]) -> (r: Option<u32>)
    ensures
        r == dotted_line(part@),
{
    let d = match first_index(part, '.') {
        Some(d) => d,
        None => {
            return None;
        },
    };
    let head = copy_chars(part, 0, d);
    match parse_unsigned_chars(head.as_slice(), 4294967295u64) {
        Some(v) => Some(v as u32),
        None => None,
    }
}

fn parse_path_span(ps: &[char]) -> (r: Option<(String, u32, u32)>)
    ensures
        match r {
            Some((f, a, b)) => path_span(ps@) == Some((f@, a, b)),
            None => path_span(ps@) is None,
        },
{
    let c = match last_index(ps, ':', ps.len()) {
        Some(c) => c,
        None => {
            return None;
        },
    };
    let span = copy_chars(ps, c + 1, ps.len());
    let m = match first_index(span.as_slice(), ',') {
        Some(m) => m,
        None => {
            return None;
        },
    };
    let first = copy_chars(span.as_slice(), 0, m);
    let last = copy_chars(span.as_slice(), m + 1, span.len());
    let a = match parse_dotted_line(first.as_slice()) {
        Some(a) => a,
        None => {
            return None;
        },
    };
    let b = match parse_dotted_line(last.as_slice()) {
        Some(b) => b,
        None => {
            return None;
        },
    };
    let file = copy_chars(ps, 0, c);
    Some((slash_chars(file.as_slice()), a, b))
}

/// Reads a trimmed data line as a block.
fn parse_block(line: &[char]) -> (r: Option<(String, u32, u32, u64)>)
    ensures
        match r {
            Some((p, a, b, h)) => block_fields(line@) == Some((p@, a, b, h)),
            None => block_fields(line@) is None,
        },
{
    let i1 = match last_index(line, ' ', line.len()) {
        Some(i) => i,
        None => {
            return None;
        },
    };
    let i2 = match last_index(line, ' ', i1) {
        Some(i) => i,
        None => {
            proof {
                assert(line@.subrange(0, i1 as int).len() == i1);
                lemma_last_at_prefix(line@, ' ', i1 as int);
            }
            return None;
        },
    };
    proof {
        lemma_last_at_prefix(line@, ' ', i1 as int);
    }
    let hits_text = copy_chars(line, i1 + 1, line.len());
    let stmts_text = copy_chars(line, i2 + 1, i1);
    let ps = copy_chars(line, 0, i2);
    proof {
        let rest = line@.subrange(0, i1 as int);
        assert(rest.subrange(i2 + 1, rest.len() as int) =~= stmts_text@);
        assert(rest.subrange(0, i2 as int) =~= ps@);
    }
    let (file, a, b) = match parse_path_span(ps.as_slice()) {
        Some(x) => x,
        None => {
            return None;
        },
    };
    if parse_unsigned_chars(stmts_text.as_slice(), 18446744073709551615u64).is_none() {
        return None;
    }
    let hits = match parse_unsigned_chars(hits_text.as_slice(), 18446744073709551615u64) {
        Some(h) => h,
        None => {
            return None;
        },
    };
    if a != 0 && b != 0 && b >= a && b - a < MAX_COVER_SPAN_LINES {
        Some((file, a, b, hits))
    } else {
        None
    }
}

/// Searching a prefix for its last `c` is searching the whole below the
/// prefix's end.
proof fn lemma_last_at_prefix(s: Seq<char>, c: char, n: int)
    requires
        0 <= n <= s.len(),
    ensures
        last_at(s.subrange(0, n), c, n) == last_at(s, c, n),
    decreases n,
{
    if n > 0 {
        lemma_last_at_prefix(s, c, n - 1);
        let p = s.subrange(0, n);
        assert(p.subrange(0, n - 1) =~= s.subrange(0, n - 1));
        lemma_last_at_same(p, s.subrange(0, n - 1), c, n - 1);
    }
}

/// Two sequences that agree below `n` have the same last `c` below `n`.
proof fn lemma_last_at_same(a: Seq<char>, b: Seq<char>, c: char, n: int)
    requires
        0 <= n <= a.len(),
        n <= b.len(),
        forall|i: int| 0 <= i < n ==> a[i] == b[i],
    ensures
        last_at(a, c, n) == last_at(b, c, n),
    decreases n,
{
    if n > 0 {
        lemma_last_at_same(a, b, c, n - 1);
    }
}

fn parse_mode_line(line: &str, origin: &str) -> (r: Result<CoverMode, String>)
    ensures
        match r {
            Ok(m) => mode_line(line@, origin@) == Ok::<CoverMode, Seq<char>>(m),
            Err(x) => mode_line(line@, origin@) == Err::<CoverMode, Seq<char>>(x@),
        },
{
    proof {
        reveal_strlit("mode:");
        reveal_strlit("set");
        reveal_strlit("count");
        reveal_strlit("atomic");
    }
    let t = trim_chars(chars_of(line).as_slice());
    if !starts_with_chars(t.as_slice(), "mode:") {
        return Err(concat(origin, ": missing coverprofile mode line"));
    }
    let after = copy_chars(t.as_slice(), 5, t.len());
    assert(after@ =~= t@.skip(5));
    let rest = trim_chars(after.as_slice());
    let word = string_from(rest.as_slice());
    if str_eq(word.as_str(), "set") {
        Ok(CoverMode::Flag)
    } else if str_eq(word.as_str(), "count") || str_eq(word.as_str(), "atomic") {
        Ok(CoverMode::Count)
    } else {
        let head = concat(origin, ": unknown coverprofile mode `");
        let body = concat(head.as_str(), word.as_str());
        Err(concat(body.as_str(), "`"))
    }
}

/// Covered by the first `n` blocks is covered by more of them.
proof fn lemma_acc_take(bs: Seq<(u32, u32, u64)>, i: int, line: u32, mode: CoverMode)
    requires
        0 <= i < bs.len(),
    ensures
        (line_acc(bs.take(i + 1), line, mode) is Some) == (line_acc(bs.take(i), line, mode) is Some || (
        bs[i].0 <= line && line <= bs[i].1)),
{
    assert(bs.take(i + 1).drop_last() =~= bs.take(i));
}

/// The settled hits of `line` over all of `bs`.
fn settled_hits(bs: &Vec<(u32, u32, u64)>, line: u32, mode: CoverMode) -> (r: Option<u64>)
    ensures
        r == settled(line_acc(bs@, line, mode)),
{
    let mut acc: Option<(u64, bool)> = None;
    let mut j: usize = 0;
    while j < bs.len()
        invariant
            j <= bs@.len(),
            acc == line_acc(bs@.take(j as int), line, mode),
        decreases bs.len() - j,
    {
        let b = bs[j];
        assert(bs@.take(j + 1).drop_last() =~= bs@.take(j as int));
        if b.0 <= line && line <= b.1 {
            let (p, z) = match acc {
                Some(x) => x,
                None => (0u64, false),
            };
            let next = if b.2 == 0 {
                (p, true)
            } else {
                match mode {
                    CoverMode::Flag => (if p >= 1 { p } else { 1u64 }, z),
                    CoverMode::Count => (p.saturating_add(b.2), z),
                }
            };
            acc = Some(next);
        }
        j = j + 1;
    }
    assert(bs@.take(bs@.len() as int) =~= bs@);
    match acc {
        None => None,
        Some((p, z)) => Some(if z { 0u64 } else { p }),
    }
}

/// The line hits of one file's blocks.
fn file_coverage(bs: &Vec<(u32, u32, u64)>, mode: CoverMode) -> (r: FileCoverage)
    ensures
        forall|l: u32| #[trigger] line_hits(r@, l) == settled(line_acc(bs@, l, mode)),
{
    let mut cov = FileCoverage::new();
    let mut i: usize = 0;
    while i < bs.len()
        invariant
            i <= bs@.len(),
            forall|l: u32| #[trigger] line_hits(cov@, l) == if line_acc(bs@.take(i as int), l, mode) is Some {
                settled(line_acc(bs@, l, mode))
            } else {
                None
            },
        decreases bs.len() - i,
    {
        let (a, b, _) = bs[i];
        let mut line: u64 = a as u64;
        while line <= b as u64
            invariant
                i < bs@.len(),
                bs@[i as int].0 == a,
                bs@[i as int].1 == b,
                a <= line,
                a <= b ==> line <= b as u64 + 1,
                a > b ==> line == a as u64,
                forall|l: u32| #[trigger] line_hits(cov@, l) == if line_acc(bs@.take(i as int), l, mode) is Some
                    || (a <= l && (l as u64) < line) {
                    settled(line_acc(bs@, l, mode))
                } else {
                    None
                },
            decreases b as u64 + 1 - line,
        {
            assert(a <= b);
            let l = line as u32;
            if cov.get(l).is_none() {
                match settled_hits(bs, l, mode) {
                    Some(h) => {
                        cov.add_hits(l, h);
                    },
                    None => {},
                }
            }
            line = line + 1;
        }
        proof {
            assert forall|l: u32| #[trigger] line_hits(cov@, l) == if line_acc(bs@.take(i + 1), l, mode) is Some {
                settled(line_acc(bs@, l, mode))
            } else {
                None
            } by {
                lemma_acc_take(bs@, i as int, l, mode);
            }
        }
        i = i + 1;
    }
    assert(bs@.take(bs@.len() as int) =~= bs@);
    cov
}

fn copy_blocks(v: &Vec<(u32, u32, u64)>) -> (r: Vec<(u32, u32, u64)>)
    ensures
        r@ == v@,
{
    let mut out: Vec<(u32, u32, u64)> = Vec::new();
    let mut k: usize = 0;
    while k < v.len()
        invariant
            k <= v@.len(),
            out@ == v@.take(k as int),
        decreases v.len() - k,
    {
        out.push(v[k]);
        assert(v@.take(k + 1) =~= v@.take(k as int).push(v@[k as int]));
        k = k + 1;
    }
    assert(v@.take(v@.len() as int) =~= v@);
    out
}

/// Files the block `b` under `path`.
fn add_block_to(files: &mut Vec<(String, Vec<(u32, u32, u64)>)>, path: String, b: (u32, u32, u64))
    ensures
        blocks_view(final(files)@) == add_block(blocks_view(old(files)@), path@, b),
{
    let ghost fv = blocks_view(files@);
    let mut k: usize = 0;
    while k < files.len()
        invariant
            k <= files@.len(),
            fv == blocks_view(old(files)@),
            files@ == old(files)@,
            block_file(fv, path@, k as int) == block_file(fv, path@, 0),
        decreases files.len() - k,
    {
        assert(fv[k as int].0 == files@[k as int].0@);
        if same_path(files[k].0.as_str(), path.as_str()) {
            let mut blocks = copy_blocks(&files[k].1);
            blocks.push(b);
            let name = owned(files[k].0.as_str());
            files.set(k, (name, blocks));
            proof {
                assert(blocks_view(files@) =~= fv.update(k as int, (fv[k as int].0, fv[k as int].1.push(b))));
            }
            return;
        }
        k = k + 1;
    }
    let mut one: Vec<(u32, u32, u64)> = Vec::new();
    one.push(b);
    files.push((path, one));
    proof {
        assert(one@ =~= seq![b]);
        assert(blocks_view(files@) =~= fv.push((path@, seq![b])));
    }
}

/// Where scanning the data lines stopped early.
enum ScanStop {
    /// Line `k` could not be read.
    Read(usize),
    /// A coverage message.
    Text(String),
}

/// The data lines of `lines` (all but the first), filed by path.
fn scan_blocks(lines: &Vec<Result<String, std::io::Error>>, origin: &str, Ghost(views): Ghost<Seq<Option<Seq<char>>>>) -> (r: Result<(Vec<(String, Vec<(u32, u32, u64)>)>, usize), ScanStop>)
    requires
        views == line_views(lines@),
        lines@.len() >= 1,
    ensures
        ({
            let m = cover_model(views, views.len(), origin@);
            match r {
                Ok((files, data)) => m.stop is None && blocks_view(files@) == m.files && data == m.data,
                Err(ScanStop::Read(k)) => m.stop == Some(CoverStop::Read(k as int)) && k < lines@.len(),
                Err(ScanStop::Text(msg)) => m.stop == Some(CoverStop::Text(msg@)),
            }
        }),
{
    let n = lines.len();
    let mut files: Vec<(String, Vec<(u32, u32, u64)>)> = Vec::new();
    let mut data: usize = 0;
    let mut k: usize = 1;
    while k < n
        invariant
            1 <= k <= n,
            n == lines@.len(),
            views == line_views(lines@),
            cover_model(views, k as nat, origin@).stop is None,
            blocks_view(files@) == cover_model(views, k as nat, origin@).files,
            data == cover_model(views, k as nat, origin@).data,
            data < k,
        decreases n - k,
    {
        let text: Option<Vec<char>> = match &lines[k] {
            Ok(l) => Some(chars_of(l.as_str())),
            Err(_) => None,
        };
        proof {
            if text is Some {
                assert(views[k as int] == Some(text->Some_0@));
            } else {
                assert(views[k as int] is None);
            }
        }
        match text {
            None => {
                proof {
                    lemma_stop_stays(views, (k + 1) as nat, views.len(), origin@);
                }
                return Err(ScanStop::Read(k));
            },
            Some(cs) => {
                let t = trim_chars(cs.as_slice());
                if t.len() > 0 {
                    match parse_block(t.as_slice()) {
                        None => {
                            proof {
                                lemma_stop_stays(views, (k + 1) as nat, views.len(), origin@);
                            }
                            let head = concat(origin, ": malformed coverprofile line: ");
                            let whole = string_from(t.as_slice());
                            return Err(ScanStop::Text(concat(head.as_str(), whole.as_str())));
                        },
                        Some((p, a, b, h)) => {
                            add_block_to(&mut files, p, (a, b, h));
                            data = data + 1;
                        },
                    }
                }
            },
        }
        k = k + 1;
    }
    Ok((files, data))
}

/// Reads a Go coverprofile from its lines (a line that could not be read
/// holds the read error); `origin` names the profile in messages. The
/// first line gives the mode, blank lines are skipped, and every other line
/// is a block `file:start.col,end.col statements hits`.
pub fn parse_reader(lines: Vec<Result<String, std::io::Error>>, origin: &str) -> (r: Result<Vec<(String, FileCoverage)>, Error>)
    ensures
        match profile_outcome(line_views(lines@), origin@) {
            Ok((mode, files)) => r matches Ok(v) && profile_files(v@, files, mode),
            Err(CoverStop::Text(msg)) => r matches Err(e) && e matches Error::Coverage(m) && m@ == msg,
            Err(CoverStop::Read(k)) => r matches Err(e) && e matches Error::Io { path, source } && path@
                == origin@ && 0 <= k < lines@.len() && lines@[k] == Err::<String, std::io::Error>(source),
        },
{
    let ghost views = line_views(lines@);
    let n = lines.len();
    if n == 0 {
        return Err(Error::Coverage(concat(origin, ": coverprofile is empty")));
    }
    let first: Option<String> = match &lines[0] {
        Ok(l) => Some(owned(l.as_str())),
        Err(_) => None,
    };
    let mode = match first {
        None => {
            return read_failure(lines, 0, origin);
        },
        Some(l) => match parse_mode_line(l.as_str(), origin) {
            Ok(m) => m,
            Err(x) => {
                return Err(Error::Coverage(x));
            },
        },
    };
    let (files, data) = match scan_blocks(&lines, origin, Ghost(views)) {
        Ok(found) => found,
        Err(ScanStop::Read(k)) => {
            proof {
                lemma_read_stop(views, views.len(), origin@);
                assert(views[k as int] is None);
            }
            return read_failure(lines, k, origin);
        },
        Err(ScanStop::Text(msg)) => {
            return Err(Error::Coverage(msg));
        },
    };
    if data == 0 {
        return Err(Error::Coverage(concat(origin, ": coverprofile has no data lines")));
    }
    let mut out: Vec<(String, FileCoverage)> = Vec::new();
    let mut i: usize = 0;
    while i < files.len()
        invariant
            i <= files@.len(),
            out@.len() == i,
            forall|q: int|
                0 <= q < i ==> {
                    &&& (#[trigger] out@[q]).0@ == files@[q].0@
                    &&& forall|l: u32| #[trigger] line_hits(out@[q].1@, l) == settled(line_acc(files@[q].1@, l, mode))
                },
        decreases files.len() - i,
    {
        let cov = file_coverage(&files[i].1, mode);
        out.push((owned(files[i].0.as_str()), cov));
        i = i + 1;
    }
    proof {
        let fv = blocks_view(files@);
        assert forall|q: int| 0 <= q < out@.len() implies {
            &&& (#[trigger] out@[q]).0@ == fv[q].0
            &&& forall|l: u32| #[trigger] line_hits(out@[q].1@, l) == settled(line_acc(fv[q].1, l, mode))
        } by {}
    }
    Ok(out)
}

/// The read error of line `k`, which holds one.
fn read_failure(lines: Vec<Result<String, std::io::Error>>, k: usize, origin: &str) -> (r: Result<Vec<(String, FileCoverage)>, Error>)
    requires
        k < lines@.len(),
        lines@[k as int] is Err,
    ensures
        r matches Err(e) && e matches Error::Io { path, source } && path@ == origin@
            && lines@[k as int] == Err::<String, std::io::Error>(source),
{
    let mut rest = lines;
    match rest.swap_remove(k) {
        Err(e) => Err(Error::Io { path: owned(origin), source: e }),
        Ok(_) => {
            proof {
                assert(false);
            }
            Err(Error::Coverage(String::new()))
        },
    }
}

/// A stop on a read names a line that could not be read.
proof fn lemma_read_stop(lines: Seq<Option<Seq<char>>>, n: nat, origin: Seq<char>)
    ensures
        cover_model(lines, n, origin).stop matches Some(CoverStop::Read(k)) ==> 1 <= k < n && k < lines.len()
            && lines[k] is None,
    decreases n,
{
    if n > 1 && n <= lines.len() {
        lemma_read_stop(lines, (n - 1) as nat, origin);
    }
}

/// Once reading has stopped, later lines change nothing.
proof fn lemma_stop_stays(lines: Seq<Option<Seq<char>>>, n: nat, m: nat, origin: Seq<char>)
    requires
        1 <= n <= m <= lines.len(),
        cover_model(lines, n, origin).stop is Some,
    ensures
        cover_model(lines, m, origin) == cover_model(lines, n, origin),
    decreases m - n,
{
    if n < m {
        lemma_stop_stays(lines, n, (m - 1) as nat, origin);
    }
}

/// Reads a coverprofile held in `text`; `origin` names it in messages.
pub fn parse_profile_text(text: &str, origin: &str) -> (r: Result<Vec<(String, FileCoverage)>, Error>)
    ensures
        match profile_outcome(text_lines(text@), origin@) {
            Ok((mode, files)) => r matches Ok(v) && profile_files(v@, files, mode),
            Err(CoverStop::Text(msg)) => r matches Err(e) && e matches Error::Coverage(m) && m@ == msg,
            Err(CoverStop::Read(_)) => false,
        },
{
    let cs = chars_of(text);
    let raw = crate::chars::read_lines_of(cs.as_slice());
    let mut lines: Vec<Result<String, std::io::Error>> = Vec::new();
    let mut k: usize = 0;
    while k < raw.len()
        invariant
            k <= raw@.len(),
            lines@.len() == k,
            forall|q: int| 0 <= q < k ==> ((#[trigger] lines@[q]) matches Ok(s) && s@ == raw@[q]@),
        decreases raw.len() - k,
    {
        lines.push(Ok(string_from(raw[k].as_slice())));
        k = k + 1;
    }
    proof {
        assert(line_views(lines@) =~= text_lines(text@));
        lemma_no_read_stop(text_lines(text@), origin@);
    }
    parse_reader(lines, origin)
}

/// The lines of a text, each read.
pub open spec fn text_lines(text: Seq<char>) -> Seq<Option<Seq<char>>> {
    let ls = crate::chars::read_lines(text);
    Seq::new(ls.len(), |k: int| Some(ls[k]))
}

/// Lines that were all read never stop on a read.
proof fn lemma_no_read_stop(lines: Seq<Option<Seq<char>>>, origin: Seq<char>)
    requires
        forall|k: int| 0 <= k < lines.len() ==> (#[trigger] lines[k]) is Some,
    ensures
        !(profile_outcome(lines, origin) matches Err(CoverStop::Read(_))),
{
    lemma_model_no_read(lines, lines.len(), origin);
}

proof fn lemma_model_no_read(lines: Seq<Option<Seq<char>>>, n: nat, origin: Seq<char>)
    requires
        forall|k: int| 0 <= k < lines.len() ==> (#[trigger] lines[k]) is Some,
    ensures
        !(cover_model(lines, n, origin).stop matches Some(CoverStop::Read(_))),
    decreases n,
{
    if n > 1 && n <= lines.len() {
        lemma_model_no_read(lines, (n - 1) as nat, origin);
        assert(lines[n - 1] is Some);
    }
}

/// In `set` mode a line is reported as hit at most once.
pub proof fn lemma_flag_mode_caps_at_one(bs: Seq<(u32, u32, u64)>, line: u32)
    ensures
        settled(line_acc(bs, line, CoverMode::Flag)) matches Some(h) ==> h <= 1,
        line_acc(bs, line, CoverMode::Flag) matches Some((p, _)) ==> p <= 1,
    decreases bs.len(),
{
    if bs.len() > 0 {
        lemma_flag_mode_caps_at_one(bs.drop_last(), line);
    }
}

/// A line under any block with no hits is reported as not hit, whatever
/// other blocks over it counted.
pub proof fn lemma_zero_hit_block_wins(bs: Seq<(u32, u32, u64)>, line: u32, mode: CoverMode, j: int)
    requires
        0 <= j < bs.len(),
        bs[j].0 <= line <= bs[j].1,
        bs[j].2 == 0,
    ensures
        settled(line_acc(bs, line, mode)) == Some(0u64),
    decreases bs.len(),
{
    lemma_zero_seen_stays(bs, line, mode, j);
}

proof fn lemma_zero_seen_stays(bs: Seq<(u32, u32, u64)>, line: u32, mode: CoverMode, j: int)
    requires
        0 <= j < bs.len(),
        bs[j].0 <= line <= bs[j].1,
        bs[j].2 == 0,
    ensures
        line_acc(bs, line, mode) matches Some((_, z)) && z,
    decreases bs.len(),
{
    if j < bs.len() - 1 {
        lemma_zero_seen_stays(bs.drop_last(), line, mode, j);
    }
}

/// Merged hits do not depend on the order in which two reports are
/// merged, so files that land on one path may be merged in any order.
pub proof fn lemma_merge_order_free(a: Option<u64>, b: Option<u64>)
    ensures
        combine_hits(a, b) == combine_hits(b, a),
{
}

/// The hits of the blocks among `bs` that cover `line`, added up with
/// saturation.
pub open spec fn covering_sum(bs: Seq<(u32, u32, u64)>, line: u32) -> u64
    decreases bs.len(),
{
    if bs.len() == 0 {
        0
    } else {
        let prev = covering_sum(bs.drop_last(), line);
        if bs.last().0 <= line && line <= bs.last().1 {
            sat_add(prev, bs.last().2)
        } else {
            prev
        }
    }
}

/// In `count` mode a line that no zero-hit block covers is reported with
/// the hits of its blocks added up.
pub proof fn lemma_count_mode_adds(bs: Seq<(u32, u32, u64)>, line: u32)
    requires
        forall|j: int| 0 <= j < bs.len() && bs[j].0 <= line <= bs[j].1 ==> bs[j].2 != 0,
    ensures
        line_acc(bs, line, CoverMode::Count) matches Some((p, z)) ==> !z && p == covering_sum(bs, line),
        line_acc(bs, line, CoverMode::Count) is None ==> covering_sum(bs, line) == 0,
    decreases bs.len(),
{
    if bs.len() > 0 {
        let d = bs.drop_last();
        assert forall|j: int| 0 <= j < d.len() && d[j].0 <= line <= d[j].1 implies d[j].2 != 0 by {
            assert(d[j] == bs[j]);
        }
        lemma_count_mode_adds(d, line);
    }
}

} // verus!
