//! LCOV line-hit records (`SF:`, `DA:`, `end_of_record`) read into
//! per-file coverage.
use crate::chars::{
    char_lines, copy_chars, parse_unsigned, parse_unsigned_chars, read_lines, read_lines_of,
    split_on, split_on_char, starts_with, starts_with_chars,
};
use crate::coverage::{line_hits, pairs_hits, FileCoverage};
use crate::error::Error;
use crate::rust_path::{rust_parts, same_path};
use crate::text::{chars_of, concat, string_from};
use vstd::prelude::*;

verus! {

/// What the records read so far have given: raw `DA:` pairs per file (files
/// in first-record order), the current `SF:` path, the number of valid
/// `DA:` records, and the first malformed `DA:` line.
pub struct LcovModel {
    pub files: Seq<(Seq<char>, Seq<(u32, u64)>)>,
    pub current: Option<Seq<char>>,
    pub valid: nat,
    pub bad: Option<Seq<char>>,
}

/// A path with backslashes turned into slashes.
pub open spec fn slashed(p: Seq<char>) -> Seq<char> {
    p.map_values(|c: char| if c == '\\' { '/' } else { c })
}

/// The `line,hits` fields of a `DA:` record; fields after the second are ignored.
pub open spec fn da_fields(rest: Seq<char>) -> Option<(u32, u64)> {
    let parts = split_on(rest, ',');
    if parts.len() >= 2 {
        match (parse_unsigned(parts[0], u32::MAX as nat), parse_unsigned(parts[1], u64::MAX as nat)) {
            (Some(l), Some(h)) => Some((l as u32, h as u64)),
            _ => None,
        }
    } else {
        None
    }
}

/// Index of the file whose path equals `path` component by component.
pub open spec fn key_index(files: Seq<(Seq<char>, Seq<(u32, u64)>)>, path: Seq<char>, k: int) -> Option<int>
    decreases files.len() - k,
{
    if 0 <= k < files.len() {
        if rust_parts(files[k].0) == rust_parts(path) {
            Some(k)
        } else {
            key_index(files, path, k + 1)
        }
    } else {
        None
    }
}

/// Files after one more `(line, hits)` record for `path`.
pub open spec fn add_record(files: Seq<(Seq<char>, Seq<(u32, u64)>)>, path: Seq<char>, line: u32, hits: u64) -> Seq<
    (Seq<char>, Seq<(u32, u64)>),
> {
    match key_index(files, path, 0) {
        Some(k) => files.update(k, (files[k].0, files[k].1.push((line, hits)))),
        None => files.push((path, seq![(line, hits)])),
    }
}

/// The model after one more record line.
pub open spec fn lcov_step(m: LcovModel, raw: Seq<char>) -> LcovModel {
    if m.bad is Some {
        m
    } else if raw == "end_of_record"@ {
        LcovModel { current: None, ..m }
    } else if starts_with(raw, "SF:"@) {
        LcovModel { current: Some(slashed(raw.skip(3))), ..m }
    } else if starts_with(raw, "DA:"@) {
        match m.current {
            None => m,
            Some(path) => match da_fields(raw.skip(3)) {
                None => LcovModel { bad: Some(raw), ..m },
                Some((l, h)) => LcovModel {
                    files: add_record(m.files, path, l, h),
                    valid: m.valid + 1,
                    ..m
                },
            },
        }
    } else {
        m
    }
}

/// The model after the first `n` lines.
pub open spec fn lcov_model(lines: Seq<Seq<char>>, n: nat) -> LcovModel
    decreases n,
{
    if n == 0 || n > lines.len() {
        LcovModel { files: Seq::empty(), current: None, valid: 0, bad: None }
    } else {
        lcov_step(lcov_model(lines, (n - 1) as nat), lines[n - 1])
    }
}

/// The model of a whole LCOV text.
pub open spec fn lcov_of(text: Seq<char>) -> LcovModel {
    lcov_model(read_lines(text), read_lines(text).len())
}

/// `v` holds the files of the model: same paths in the same order, and
/// each file's hits are its records summed per line.
pub open spec fn files_match(v: Seq<(String, FileCoverage)>, m: Seq<(Seq<char>, Seq<(u32, u64)>)>) -> bool {
    &&& v.len() == m.len()
    &&& forall|k: int|
        0 <= k < v.len() ==> {
            &&& (#[trigger] v[k]).0@ == m[k].0
            &&& forall|l: u32| #[trigger] line_hits(v[k].1@, l) == pairs_hits(m[k].1, l)
        }
}

/// The message for a malformed `DA:` record.
pub open spec fn malformed_da_message(origin: Seq<char>, raw: Seq<char>) -> Seq<char> {
    origin + ": malformed DA record: "@ + raw
}

pub(crate) fn parse_da(rest: &[char]) -> (r: Option<(u32, u64)>)
    ensures
        r == da_fields(rest@),
{
    let parts = split_on_char(rest, ',');
    if parts.len() < 2 {
        return None;
    }
    assert(char_lines(parts@)[0] == parts@[0]@);
    assert(char_lines(parts@)[1] == parts@[1]@);
    let line = match parse_unsigned_chars(parts[0].as_slice(), 4294967295u64) {
        Some(v) => v,
        None => {
            return None;
        },
    };
    let hits = match parse_unsigned_chars(parts[1].as_slice(), 18446744073709551615u64) {
        Some(v) => v,
        None => {
            return None;
        },
    };
    Some((line as u32, hits))
}

pub(crate) fn slash_chars(p: &[char]) -> (r: String)
    ensures
        r@ == slashed(p@),
{
    let mut out: Vec<char> = Vec::new();
    let mut k: usize = 0;
    while k < p.len()
        invariant
            k <= p.len(),
            out@ == slashed(p@.take(k as int)),
        decreases p.len() - k,
    {
        let c = p[k];
        out.push(if c == '\\' { '/' } else { c });
        proof {
            assert(slashed(p@.take(k + 1)) =~= slashed(p@.take(k as int)).push(if c == '\\' { '/' } else { c }));
        }
        k = k + 1;
    }
    assert(p@.take(p@.len() as int) =~= p@);
    string_from(out.as_slice())
}

pub(crate) fn find_file(files: &Vec<(String, FileCoverage)>, path: &str, Ghost(m): Ghost<Seq<(Seq<char>, Seq<(u32, u64)>)>>) -> (r: Option<usize>)
    requires
        files_match(files@, m),
    ensures
        match r {
            Some(k) => key_index(m, path@, 0) == Some(k as int) && k < files@.len(),
            None => key_index(m, path@, 0) is None,
        },
{
    let mut k: usize = 0;
    while k < files.len()
        invariant
            k <= files.len(),
            files_match(files@, m),
            key_index(m, path@, k as int) == key_index(m, path@, 0),
        decreases files.len() - k,
    {
        assert(files@[k as int].0@ == m[k as int].0);
        if same_path(files[k].0.as_str(), path) {
            return Some(k);
        }
        k = k + 1;
    }
    None
}

fn apply_da(
    raw: &[char],
    origin: &str,
    files: &mut Vec<(String, FileCoverage)>,
    current: &Option<String>,
    valid: &mut usize,
    Ghost(m): Ghost<LcovModel>,
) -> (r: Result<(), Error>)
    requires
        starts_with(raw@, "DA:"@),
        m.bad is None,
        files_match(old(files)@, m.files),
        *old(valid) == m.valid,
        *old(valid) < usize::MAX,
        match *current {
            Some(p) => m.current == Some(p@),
            None => m.current is None,
        },
    ensures
        ({
            let next = lcov_step(m, raw@);
            &&& files_match(final(files)@, next.files)
            &&& *final(valid) == next.valid
            &&& match r {
                Ok(()) => next.bad is None,
                Err(e) => next.bad == Some(raw@) && (e matches Error::Coverage(msg) && msg@
                    == malformed_da_message(origin@, raw@)),
            }
        }),
{
    proof {
        reveal_strlit("DA:");
        reveal_strlit("end_of_record");
        reveal_strlit("SF:");
        assert(raw@.subrange(0, 3) == "DA:"@);
        assert(raw@[1] == raw@.subrange(0, 3)[1]);
        assert(raw@[1] == 'A');
        assert(raw@ != "end_of_record"@) by {
            assert("end_of_record"@[1] == 'n');
        }
        assert(!starts_with(raw@, "SF:"@)) by {
            assert(raw@.subrange(0, 3)[0] == 'D');
        }
    }
    let path = match current {
        Some(p) => p,
        None => {
            return Ok(());
        },
    };
    let rest = copy_chars(raw, 3, raw.len());
    assert(rest@ =~= raw@.skip(3));
    let (line, hits) = match parse_da(rest.as_slice()) {
        Some(found) => found,
        None => {
            let text = string_from(raw);
            let head = concat(origin, ": malformed DA record: ");
            return Err(Error::Coverage(concat(head.as_str(), text.as_str())));
        },
    };
    *valid = *valid + 1;
    match find_file(files, path.as_str(), Ghost(m.files)) {
        Some(k) => {
            add_pair_at(files, k, line, hits, Ghost(m.files));
        },
        None => {
            let mut file = FileCoverage::new();
            file.add_hits(line, hits);
            let ghost new_file = file@;
            assert(forall|l: u32| #[trigger] line_hits(new_file, l) == if l == line {
                Some(hits)
            } else {
                None::<u64>
            });
            let ghost before = files@;
            files.push((path.clone(), file));
            proof {
                let next = add_record(m.files, path@, line, hits);
                assert forall|j: int| 0 <= j < files@.len() implies {
                    &&& (#[trigger] files@[j]).0@ == next[j].0
                    &&& forall|l: u32| #[trigger] line_hits(files@[j].1@, l) == pairs_hits(next[j].1, l)
                } by {
                    if j < before.len() {
                        assert(files@[j] == before[j]);
                    } else {
                        assert forall|l: u32| #[trigger] line_hits(files@[j].1@, l) == pairs_hits(next[j].1, l) by {
                            assert(next == m.files.push((path@, seq![(line, hits)])));
                            assert(j == m.files.len());
                            assert(next[j].1 == seq![(line, hits)]);
                            assert(next[j].1.drop_last() =~= Seq::<(u32, u64)>::empty());
                            assert(files@[j].1@ == new_file);
                            assert(line_hits(new_file, l) == if l == line {
                                Some(hits)
                            } else {
                                None::<u64>
                            });
                            assert(pairs_hits(Seq::<(u32, u64)>::empty(), l) is None);
                            assert(next[j].1.last() == (line, hits));
                            assert(pairs_hits(next[j].1, l) == if l == line {
                                Some(hits)
                            } else {
                                None::<u64>
                            });
                        }
                    }
                }
            }
        },
    }
    Ok(())
}

/// Adds the record `(line, hits)` to the file at `k`.
pub(crate) fn add_pair_at(
    files: &mut Vec<(String, FileCoverage)>,
    k: usize,
    line: u32,
    hits: u64,
    Ghost(mf): Ghost<Seq<(Seq<char>, Seq<(u32, u64)>)>>,
)
    requires
        files_match(old(files)@, mf),
        k < old(files)@.len(),
    ensures
        files_match(final(files)@, mf.update(k as int, (mf[k as int].0, mf[k as int].1.push((line, hits))))),
{
    let mut file = files[k].1.clone();
    let ghost old_file = file@;
    assert(old_file == files@[k as int].1@);
    file.add_hits(line, hits);
    let ghost new_file = file@;
    let key = files[k].0.clone();
    let ghost before = files@;
    files.set(k, (key, file));
    proof {
        let next = mf.update(k as int, (mf[k as int].0, mf[k as int].1.push((line, hits))));
        assert forall|j: int| 0 <= j < files@.len() implies {
            &&& (#[trigger] files@[j]).0@ == next[j].0
            &&& forall|l: u32| #[trigger] line_hits(files@[j].1@, l) == pairs_hits(next[j].1, l)
        } by {
            if j != k {
                assert(files@[j] == before[j]);
            } else {
                assert forall|l: u32| #[trigger] line_hits(files@[j].1@, l) == pairs_hits(next[j].1, l) by {
                    assert(next[j].1.drop_last() =~= mf[j].1);
                    assert(next[j].1.last() == (line, hits));
                    assert(line_hits(before[j].1@, l) == pairs_hits(mf[j].1, l));
                    assert(files@[j].1@ == new_file);
                    assert(next[j].1.len() > 0);
                    assert(line_hits(new_file, l) == if l == line {
                        crate::coverage::combine_hits(line_hits(old_file, l), Some(hits))
                    } else {
                        line_hits(old_file, l)
                    });
                }
            }
        }
    }
}

fn is_end_of_record(raw: &[char]) -> (r: bool)
    ensures
        r == (raw@ == "end_of_record"@),
{
    let word = chars_of("end_of_record");
    if raw.len() != word.len() {
        return false;
    }
    let mut k: usize = 0;
    while k < raw.len()
        invariant
            k <= raw.len() == word.len(),
            word@ == "end_of_record"@,
            forall|m: int| 0 <= m < k ==> raw@[m] == word@[m],
        decreases raw.len() - k,
    {
        if raw[k] != word[k] {
            return false;
        }
        k = k + 1;
    }
    assert(raw@ =~= word@);
    true
}

fn apply_record(
    raw: &[char],
    origin: &str,
    files: &mut Vec<(String, FileCoverage)>,
    current: &mut Option<String>,
    valid: &mut usize,
    Ghost(m): Ghost<LcovModel>,
) -> (r: Result<(), Error>)
    requires
        m.bad is None,
        files_match(old(files)@, m.files),
        *old(valid) == m.valid,
        *old(valid) < usize::MAX,
        match *old(current) {
            Some(p) => m.current == Some(p@),
            None => m.current is None,
        },
    ensures
        ({
            let next = lcov_step(m, raw@);
            &&& files_match(final(files)@, next.files)
            &&& *final(valid) == next.valid
            &&& match *final(current) {
                Some(p) => next.current == Some(p@),
                None => next.current is None,
            }
            &&& match r {
                Ok(()) => next.bad is None,
                Err(e) => next.bad == Some(raw@) && (e matches Error::Coverage(msg) && msg@
                    == malformed_da_message(origin@, raw@)),
            }
        }),
{
    if is_end_of_record(raw) {
        *current = None;
        return Ok(());
    }
    if starts_with_chars(raw, "SF:") {
        proof {
            reveal_strlit("SF:");
        }
        let rest = copy_chars(raw, 3, raw.len());
        assert(rest@ =~= raw@.skip(3));
        *current = Some(slash_chars(rest.as_slice()));
        return Ok(());
    }
    if starts_with_chars(raw, "DA:") {
        return apply_da(raw, origin, files, current, valid, Ghost(m));
    }
    Ok(())
}

/// Once a malformed record is seen, later lines change nothing.
pub proof fn lemma_bad_stays(lines: Seq<Seq<char>>, n: nat, m: nat)
    requires
        n <= m <= lines.len(),
        lcov_model(lines, n).bad is Some,
    ensures
        lcov_model(lines, m) == lcov_model(lines, n),
    decreases m - n,
{
    if n < m {
        lemma_bad_stays(lines, n, (m - 1) as nat);
    }
}

/// Reads LCOV text whose records came from `origin`: the covered files with
/// their line hits, and the number of valid `DA:` records. Unknown record
/// types are ignored; `DA:` records outside a file are dropped; a malformed
/// `DA:` record fails the whole read.
pub fn parse_lcov_reader(text: &str, origin: &str) -> (r: Result<(Vec<(String, FileCoverage)>, usize), Error>)
    ensures
        match lcov_of(text@).bad {
            Some(raw) => r matches Err(Error::Coverage(msg)) && msg@ == malformed_da_message(origin@, raw),
            None => r matches Ok((files, n)) && files_match(files@, lcov_of(text@).files) && n == lcov_of(text@).valid,
        },
{
    let cs = chars_of(text);
    let lines = read_lines_of(cs.as_slice());
    let ghost views = char_lines(lines@);
    let mut files: Vec<(String, FileCoverage)> = Vec::new();
    let mut current: Option<String> = None;
    let mut valid: usize = 0;
    let mut k: usize = 0;
    while k < lines.len()
        invariant
            k <= lines.len(),
            views == char_lines(lines@),
            views == read_lines(text@),
            lcov_model(views, k as nat).bad is None,
            files_match(files@, lcov_model(views, k as nat).files),
            valid == lcov_model(views, k as nat).valid,
            valid <= k,
            match current {
                Some(p) => lcov_model(views, k as nat).current == Some(p@),
                None => lcov_model(views, k as nat).current is None,
            },
        decreases lines.len() - k,
    {
        assert(views[k as int] == lines@[k as int]@);
        let outcome = apply_record(lines[k].as_slice(), origin, &mut files, &mut current, &mut valid, Ghost(lcov_model(views, k as nat)));
        match outcome {
            Ok(()) => {},
            Err(e) => {
                proof {
                    lemma_bad_stays(views, (k + 1) as nat, views.len());
                }
                return Err(e);
            },
        }
        k = k + 1;
    }
    Ok((files, valid))
}

/// Reads LCOV text (records from `<text>`), as the unit tests feed it.
pub fn parse_lcov_text(text: &str) -> (r: Result<(Vec<(String, FileCoverage)>, usize), Error>)
    ensures
        match lcov_of(text@).bad {
            Some(raw) => r matches Err(Error::Coverage(msg)) && msg@ == malformed_da_message("<text>"@, raw),
            None => r matches Ok((files, n)) && files_match(files@, lcov_of(text@).files) && n == lcov_of(text@).valid,
        },
{
    parse_lcov_reader(text, "<text>")
}

/// The message for LCOV content without valid `DA:` records.
pub open spec fn no_da_message(origin: Seq<char>) -> Seq<char> {
    origin + ": LCOV has no valid line-hit (DA) records"@
}

/// LCOV content read from `origin`, which must hold at least one valid
/// `DA:` record.
pub fn lcov_from_text(text: &str, origin: &str) -> (r: Result<Vec<(String, FileCoverage)>, Error>)
    ensures
        match lcov_of(text@).bad {
            Some(raw) => r matches Err(Error::Coverage(msg)) && msg@ == malformed_da_message(origin@, raw),
            None => if lcov_of(text@).valid == 0 {
                r matches Err(Error::Coverage(msg)) && msg@ == no_da_message(origin@)
            } else {
                r matches Ok(files) && files_match(files@, lcov_of(text@).files)
            },
        },
{
    let (files, valid) = match parse_lcov_reader(text, origin) {
        Ok(found) => found,
        Err(e) => {
            return Err(e);
        },
    };
    if valid == 0 {
        return Err(Error::Coverage(concat(origin, ": LCOV has no valid line-hit (DA) records")));
    }
    Ok(files)
}

} // verus!
