//! LCOV line hits as the Rust frontend reads them: leniently, keeping every
//! `SF:` file and passing over records it cannot read.
use crate::chars::{char_lines, copy_chars, read_lines, read_lines_of, starts_with, starts_with_chars};
use crate::coverage::{combine_hits, line_hits, pairs_hits, FileCoverage};
use crate::lcov::{add_pair_at, add_record, da_fields, files_match, find_file, key_index, parse_da};
use crate::rust_path::rust_parts;
use crate::text::{chars_of, string_from};
use vstd::prelude::*;

verus! {

/// The files read so far (each `SF:` path once, in first-seen order, with
/// its `DA:` pairs) and the current `SF:` path.
pub struct LenientModel {
    pub files: Seq<(Seq<char>, Seq<(u32, u64)>)>,
    pub current: Option<Seq<char>>,
}

/// The model after one more record line.
pub open spec fn lenient_step(m: LenientModel, raw: Seq<char>) -> LenientModel {
    if raw == "end_of_record"@ {
        LenientModel { current: None, ..m }
    } else if starts_with(raw, "SF:"@) {
        let path = raw.skip(3);
        LenientModel {
            files: if key_index(m.files, path, 0) is None {
                m.files.push((path, Seq::empty()))
            } else {
                m.files
            },
            current: Some(path),
        }
    } else if starts_with(raw, "DA:"@) {
        match m.current {
            None => m,
            Some(path) => match da_fields(raw.skip(3)) {
                None => m,
                Some((l, h)) => if key_index(m.files, path, 0) is Some {
                    LenientModel { files: add_record(m.files, path, l, h), ..m }
                } else {
                    m
                },
            },
        }
    } else {
        m
    }
}

/// The model after the first `n` lines.
pub open spec fn lenient_model(lines: Seq<Seq<char>>, n: nat) -> LenientModel
    decreases n,
{
    if n == 0 || n > lines.len() {
        LenientModel { files: Seq::empty(), current: None }
    } else {
        lenient_step(lenient_model(lines, (n - 1) as nat), lines[n - 1])
    }
}

/// A found index lies among the files searched.
proof fn lemma_key_index_in_range(files: Seq<(Seq<char>, Seq<(u32, u64)>)>, path: Seq<char>, k: int)
    requires
        0 <= k,
    ensures
        key_index(files, path, k) matches Some(i) ==> k <= i < files.len() && rust_parts(files[i].0) == rust_parts(
            path,
        ),
    decreases files.len() - k,
{
    if 0 <= k < files.len() && rust_parts(files[k].0) != rust_parts(path) {
        lemma_key_index_in_range(files, path, k + 1);
    }
}

/// One LCOV record line read leniently: `end_of_record` closes the current
/// file and keeps the files; `SF:p` makes `p` current and adds it, with no
/// lines, when it is new; a `DA:l,h` record whose fields read as numbers
/// adds `h` hits (saturating) to line `l` of the current file and leaves
/// every other line and file as it was; any other line, a `DA:` record with
/// no current file, or one whose fields do not read, changes nothing.
pub proof fn lemma_lenient_record(m: LenientModel, raw: Seq<char>)
    requires
        m.current matches Some(p) ==> key_index(m.files, p, 0) is Some,
    ensures
        raw == "end_of_record"@ ==> lenient_step(m, raw) == (LenientModel { current: None, ..m }),
        raw != "end_of_record"@ && starts_with(raw, "SF:"@) ==> {
            let p = raw.skip(3);
            let next = lenient_step(m, raw);
            &&& next.current == Some(p)
            &&& key_index(m.files, p, 0) is Some ==> next.files == m.files
            &&& key_index(m.files, p, 0) is None ==> next.files == m.files.push((p, Seq::<(u32, u64)>::empty()))
        },
        raw != "end_of_record"@ && !starts_with(raw, "SF:"@) && starts_with(raw, "DA:"@) ==> match (
            m.current,
            da_fields(raw.skip(3)),
        ) {
            (Some(p), Some((l, h))) => {
                let next = lenient_step(m, raw);
                let k = key_index(m.files, p, 0)->Some_0;
                &&& next.current == m.current
                &&& next.files.len() == m.files.len()
                &&& forall|j: int| 0 <= j < m.files.len() && j != k ==> next.files[j] == m.files[j]
                &&& next.files[k].0 == m.files[k].0
                &&& forall|x: u32|
                    #[trigger] pairs_hits(next.files[k].1, x) == if x == l {
                        combine_hits(pairs_hits(m.files[k].1, x), Some(h))
                    } else {
                        pairs_hits(m.files[k].1, x)
                    }
            },
            _ => lenient_step(m, raw) == m,
        },
        raw != "end_of_record"@ && !starts_with(raw, "SF:"@) && !starts_with(raw, "DA:"@) ==> lenient_step(m, raw)
            == m,
{
    if raw != "end_of_record"@ && !starts_with(raw, "SF:"@) && starts_with(raw, "DA:"@) {
        if let (Some(p), Some((l, h))) = (m.current, da_fields(raw.skip(3))) {
            let k = key_index(m.files, p, 0)->Some_0;
            lemma_key_index_in_range(m.files, p, 0);
            let next = lenient_step(m, raw);
            assert(next.files == m.files.update(k, (m.files[k].0, m.files[k].1.push((l, h)))));
            assert forall|x: u32| #[trigger] pairs_hits(next.files[k].1, x) == if x == l {
                combine_hits(pairs_hits(m.files[k].1, x), Some(h))
            } else {
                pairs_hits(m.files[k].1, x)
            } by {
                assert(next.files[k].1.drop_last() =~= m.files[k].1);
            }
        }
    }
}

fn is_end_of_record(raw: &[char]) -> (r: bool)
    ensures
        r == (raw@ == "end_of_record"@),
{
    let word = chars_of("end_of_record");
    if raw.len() != word.len() {
        return false;
    }
    let mut k: usize = 0;
    while k < raw.len()
        invariant
            k <= raw.len() == word.len(),
            word@ == "end_of_record"@,
            forall|m: int| 0 <= m < k ==> raw@[m] == word@[m],
        decreases raw.len() - k,
    {
        if raw[k] != word[k] {
            return false;
        }
        k = k + 1;
    }
    assert(raw@ =~= word@);
    true
}

fn apply_record(
    raw: &[char],
    files: &mut Vec<(String, FileCoverage)>,
    current: &mut Option<String>,
    Ghost(m): Ghost<LenientModel>,
)
    requires
        files_match(old(files)@, m.files),
        match *old(current) {
            Some(p) => m.current == Some(p@),
            None => m.current is None,
        },
    ensures
        ({
            let next = lenient_step(m, raw@);
            &&& files_match(final(files)@, next.files)
            &&& match *final(current) {
                Some(p) => next.current == Some(p@),
                None => next.current is None,
            }
        }),
{
    proof {
        reveal_strlit("SF:");
        reveal_strlit("DA:");
        reveal_strlit("end_of_record");
    }
    if is_end_of_record(raw) {
        *current = None;
        return;
    }
    if starts_with_chars(raw, "SF:") {
        let rest = copy_chars(raw, 3, raw.len());
        assert(rest@ =~= raw@.skip(3));
        let path = string_from(rest.as_slice());
        if find_file(files, path.as_str(), Ghost(m.files)).is_none() {
            let ghost before = files@;
            files.push((path.clone(), FileCoverage::new()));
            proof {
                let next = m.files.push((path@, Seq::<(u32, u64)>::empty()));
                assert forall|j: int| 0 <= j < files@.len() implies {
                    &&& (#[trigger] files@[j]).0@ == next[j].0
                    &&& forall|l: u32| #[trigger] line_hits(files@[j].1@, l) == pairs_hits(next[j].1, l)
                } by {
                    if j < before.len() {
                        assert(files@[j] == before[j]);
                    }
                }
            }
        }
        *current = Some(path);
        return;
    }
    if !starts_with_chars(raw, "DA:") {
        return;
    }
    proof {
        assert(raw@.subrange(0, 3) == "DA:"@);
        assert(raw@[1] == raw@.subrange(0, 3)[1]);
        assert(raw@ != "end_of_record"@) by {
            assert("end_of_record"@[1] == 'n');
        }
        assert(!starts_with(raw@, "SF:"@)) by {
            assert(raw@.subrange(0, 3)[0] == 'D');
        }
    }
    let path = match current {
        Some(p) => p,
        None => {
            return;
        },
    };
    let rest = copy_chars(raw, 3, raw.len());
    assert(rest@ =~= raw@.skip(3));
    let (line, hits) = match parse_da(rest.as_slice()) {
        Some(found) => found,
        None => {
            return;
        },
    };
    match find_file(files, path.as_str(), Ghost(m.files)) {
        Some(k) => {
            add_pair_at(files, k, line, hits, Ghost(m.files));
        },
        None => {},
    }
}

/// Reads LCOV text: every `SF:` file (also one without `DA:` records),
/// each with its line hits summed; `DA:` records outside a file or that
/// do not read as `line,hits` are passed over, as are other record types.
pub fn parse_lcov_text(text: &str) -> (r: Vec<(String, FileCoverage)>)
    ensures
        files_match(r@, lenient_model(read_lines(text@), read_lines(text@).len()).files),
{
    let cs = chars_of(text);
    let lines = read_lines_of(cs.as_slice());
    let ghost views = char_lines(lines@);
    let mut files: Vec<(String, FileCoverage)> = Vec::new();
    let mut current: Option<String> = None;
    let mut k: usize = 0;
    while k < lines.len()
        invariant
            k <= lines.len(),
            views == char_lines(lines@),
            views == read_lines(text@),
            files_match(files@, lenient_model(views, k as nat).files),
            match current {
                Some(p) => lenient_model(views, k as nat).current == Some(p@),
                None => lenient_model(views, k as nat).current is None,
            },
        decreases lines.len() - k,
    {
        assert(views[k as int] == lines@[k as int]@);
        apply_record(lines[k].as_slice(), &mut files, &mut current, Ghost(lenient_model(views, k as nat)));
        k = k + 1;
    }
    files
}

} // verus!
