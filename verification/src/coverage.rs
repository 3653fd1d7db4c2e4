//! Per-file instrumented line hits and span coverage ratios.
use vstd::prelude::*;

verus! {

/// Lines are kept in strictly increasing order, one entry per line.
pub open spec fn strictly_sorted(s: Seq<(u32, u64)>) -> bool {
    forall|i: int, j: int| 0 <= i < j < s.len() ==> #[trigger] s[i].0 < #[trigger] s[j].0
}

/// Hit count recorded for `line`, if the line is instrumented.
pub open spec fn line_hits(s: Seq<(u32, u64)>, line: u32) -> Option<u64>
    decreases s.len(),
{
    if s.len() == 0 {
        None
    } else if s.last().0 == line {
        Some(s.last().1)
    } else {
        line_hits(s.drop_last(), line)
    }
}

/// Saturating `u64` sum, as the hit counters use.
pub open spec fn sat_add(a: u64, b: u64) -> u64 {
    if a + b > u64::MAX {
        u64::MAX
    } else {
        (a + b) as u64
    }
}

/// Hits of one line after merging two reports: union of lines, summed counts.
pub open spec fn combine_hits(a: Option<u64>, b: Option<u64>) -> Option<u64> {
    match (a, b) {
        (None, None) => None,
        (Some(x), None) => Some(x),
        (None, Some(y)) => Some(y),
        (Some(x), Some(y)) => Some(sat_add(x, y)),
    }
}

/// A `usize` line bound narrowed to `u32`, saturating at `u32::MAX`.
pub open spec fn clamp_line(x: usize) -> u32 {
    if x > u32::MAX {
        u32::MAX
    } else {
        x as u32
    }
}

/// Whether `line` falls inside any of the inclusive `ranges`.
pub open spec fn in_ranges(line: u32, ranges: Seq<(usize, usize)>) -> bool {
    exists|k: int|
        0 <= k < ranges.len() && clamp_line(#[trigger] ranges[k].0) <= line <= clamp_line(
            ranges[k].1,
        )
}

/// Whether an instrumented line counts toward the span `start..=end` minus `exclude`.
pub open spec fn counted(line: u32, start: usize, end: usize, exclude: Seq<(usize, usize)>) -> bool {
    clamp_line(start) <= line <= clamp_line(end) && !in_ranges(line, exclude)
}

/// Number of counted entries in `s` (only hit ones when `hit_only`).
pub open spec fn span_count(
    s: Seq<(u32, u64)>,
    start: usize,
    end: usize,
    exclude: Seq<(usize, usize)>,
    hit_only: bool,
) -> nat
    decreases s.len(),
{
    if s.len() == 0 {
        0
    } else {
        let p = s.last();
        span_count(s.drop_last(), start, end, exclude, hit_only) + if counted(
            p.0,
            start,
            end,
            exclude,
        ) && (!hit_only || p.1 > 0) {
            1nat
        } else {
            0nat
        }
    }
}

/// Covered and instrumented line counts of a span (`total >= 1`).
#[derive(Debug, Clone, Copy, PartialEq, Eq)]
pub struct LineRatio {
    /// Instrumented lines that were hit.
    pub covered: usize,
    /// Instrumented lines in the span.
    pub total: usize,
}

impl LineRatio {
    /// No line covered (the pessimistic missing-data policy).
    pub open spec fn none_covered() -> LineRatio {
        LineRatio { covered: 0, total: 1 }
    }

    /// Every line covered (the optimistic missing-data policy).
    pub open spec fn all_covered() -> LineRatio {
        LineRatio { covered: 1, total: 1 }
    }

    /// Whether this is a valid ratio.
    pub open spec fn valid(self) -> bool {
        1 <= self.total && self.covered <= self.total
    }
}

/// Instrumented line hits for one source file.
#[derive(Debug)]
pub struct FileCoverage {
    lines: Vec<(u32, u64)>,
}

impl Clone for FileCoverage {
    fn clone(&self) -> (r: FileCoverage)
        ensures
            r@ == self@,
            strictly_sorted(r@),
    {
        proof {
            use_type_invariant(self);
        }
        let mut lines: Vec<(u32, u64)> = Vec::new();
        let mut k: usize = 0;
        while k < self.lines.len()
            invariant
                k <= self.lines.len(),
                lines@ == self.lines@.take(k as int),
            decreases self.lines.len() - k,
        {
            lines.push(self.lines[k]);
            proof {
                lemma_take_last(self.lines@, k as int);
            }
            k = k + 1;
        }
        assert(self.lines@.take(self.lines.len() as int) =~= self.lines@);
        FileCoverage { lines }
    }
}

impl View for FileCoverage {
    type V = Seq<(u32, u64)>;

    closed spec fn view(&self) -> Seq<(u32, u64)> {
        self.lines@
    }
}

/// Whether line `x` of `s` counts toward the span `start..=end` minus
/// `exclude` (and, when `hit_only`, was hit at least once).
pub open spec fn line_counts(
    s: Seq<(u32, u64)>,
    start: usize,
    end: usize,
    exclude: Seq<(usize, usize)>,
    hit_only: bool,
    x: int,
) -> bool {
    &&& 0 <= x <= u32::MAX
    &&& counted(x as u32, start, end, exclude)
    &&& line_hits(s, x as u32) matches Some(h) && (!hit_only || h > 0)
}

/// Number of lines `lo..hi` that count toward the span.
pub open spec fn hit_lines(
    s: Seq<(u32, u64)>,
    start: usize,
    end: usize,
    exclude: Seq<(usize, usize)>,
    hit_only: bool,
    lo: int,
    hi: int,
) -> nat
    decreases hi - lo,
{
    if hi <= lo {
        0
    } else {
        hit_lines(s, start, end, exclude, hit_only, lo, hi - 1) + if line_counts(s, start, end, exclude, hit_only, hi - 1) {
            1nat
        } else {
            0nat
        }
    }
}

/// The instrumented lines of the span `start..=end` minus `exclude` (only
/// the hit ones when `hit_only`), counted line by line.
pub open spec fn span_lines(
    s: Seq<(u32, u64)>,
    start: usize,
    end: usize,
    exclude: Seq<(usize, usize)>,
    hit_only: bool,
) -> nat {
    hit_lines(s, start, end, exclude, hit_only, clamp_line(start) as int, clamp_line(end) as int + 1)
}

/// Adding an entry for a line that `s` lacks adds one counted line when
/// that line counts.
proof fn lemma_hit_lines_point(
    s: Seq<(u32, u64)>,
    line: u32,
    h: u64,
    start: usize,
    end: usize,
    exclude: Seq<(usize, usize)>,
    hit_only: bool,
    lo: int,
    hi: int,
)
    requires
        line_hits(s, line) is None,
    ensures
        hit_lines(s.push((line, h)), start, end, exclude, hit_only, lo, hi) == hit_lines(
            s,
            start,
            end,
            exclude,
            hit_only,
            lo,
            hi,
        ) + if lo <= line < hi && line_counts(s.push((line, h)), start, end, exclude, hit_only, line as int) {
            1nat
        } else {
            0nat
        },
    decreases hi - lo,
{
    let t = s.push((line, h));
    assert(t.drop_last() =~= s);
    if hi > lo {
        lemma_hit_lines_point(s, line, h, start, end, exclude, hit_only, lo, hi - 1);
        if hi - 1 != line {
            if 0 <= hi - 1 <= u32::MAX {
                assert(line_hits(t, (hi - 1) as u32) == line_hits(s, (hi - 1) as u32));
            }
        }
    }
}

/// On a report whose lines are strictly increasing, the counted entries are
/// exactly the counted lines: each line of the span is counted once when
/// it is instrumented (and hit, when `hit_only`) and outside `exclude`.
pub proof fn lemma_span_count_is_span_lines(
    s: Seq<(u32, u64)>,
    start: usize,
    end: usize,
    exclude: Seq<(usize, usize)>,
    hit_only: bool,
)
    requires
        strictly_sorted(s),
    ensures
        span_count(s, start, end, exclude, hit_only) == span_lines(s, start, end, exclude, hit_only),
    decreases s.len(),
{
    let lo = clamp_line(start) as int;
    let hi = clamp_line(end) as int + 1;
    if s.len() == 0 {
        lemma_hit_lines_none(s, start, end, exclude, hit_only, lo, hi);
    } else {
        let d = s.drop_last();
        let p = s.last();
        assert(strictly_sorted(d)) by {
            assert forall|i: int, j: int| 0 <= i < j < d.len() implies #[trigger] d[i].0 < #[trigger] d[j].0 by {
                assert(d[i] == s[i] && d[j] == s[j]);
            }
        }
        lemma_span_count_is_span_lines(d, start, end, exclude, hit_only);
        assert forall|k: int| 0 <= k < d.len() implies #[trigger] d[k].0 != p.0 by {
            assert(d[k] == s[k]);
            assert(s[k].0 < s[s.len() - 1].0);
        }
        lemma_hits_absent(d, p.0);
        assert(d.push(p) =~= s);
        lemma_hit_lines_point(d, p.0, p.1, start, end, exclude, hit_only, lo, hi);
        assert(line_hits(s, p.0) == Some(p.1));
    }
}

/// A report with no entries has no counted lines.
proof fn lemma_hit_lines_none(
    s: Seq<(u32, u64)>,
    start: usize,
    end: usize,
    exclude: Seq<(usize, usize)>,
    hit_only: bool,
    lo: int,
    hi: int,
)
    requires
        s.len() == 0,
    ensures
        hit_lines(s, start, end, exclude, hit_only, lo, hi) == 0,
    decreases hi - lo,
{
    if hi > lo {
        lemma_hit_lines_none(s, start, end, exclude, hit_only, lo, hi - 1);
    }
}

proof fn lemma_hits_absent(s: Seq<(u32, u64)>, line: u32)
    requires
        forall|k: int| 0 <= k < s.len() ==> #[trigger] s[k].0 != line,
    ensures
        line_hits(s, line) is None,
    decreases s.len(),
{
    if s.len() > 0 {
        assert(s.drop_last()[0] == s[0] || s.len() == 1);
        assert forall|k: int| 0 <= k < s.drop_last().len() implies #[trigger] s.drop_last()[k].0
            != line by {
            assert(s.drop_last()[k] == s[k]);
        }
        lemma_hits_absent(s.drop_last(), line);
    }
}

proof fn lemma_hits_at(s: Seq<(u32, u64)>, k: int)
    requires
        strictly_sorted(s),
        0 <= k < s.len(),
    ensures
        line_hits(s, s[k].0) == Some(s[k].1),
    decreases s.len(),
{
    if k < s.len() - 1 {
        let d = s.drop_last();
        assert(d[k] == s[k]);
        assert(s[k].0 < s[s.len() - 1].0);
        assert(strictly_sorted(d)) by {
            assert forall|i: int, j: int| 0 <= i < j < d.len() implies #[trigger] d[i].0
                < #[trigger] d[j].0 by {
                assert(d[i] == s[i] && d[j] == s[j]);
            }
        }
        lemma_hits_at(d, k);
    }
}

proof fn lemma_hits_some_in(s: Seq<(u32, u64)>, line: u32)
    requires
        line_hits(s, line) is Some,
    ensures
        exists|k: int| 0 <= k < s.len() && #[trigger] s[k].0 == line,
    decreases s.len(),
{
    if s.last().0 != line {
        lemma_hits_some_in(s.drop_last(), line);
        let k = choose|k: int| 0 <= k < s.drop_last().len() && #[trigger] s.drop_last()[k].0 == line;
        assert(s[k] == s.drop_last()[k]);
    } else {
        assert(s[s.len() - 1].0 == line);
    }
}

proof fn lemma_take_last<T>(s: Seq<T>, i: int)
    requires
        0 <= i < s.len(),
    ensures
        s.take(i + 1).drop_last() =~= s.take(i),
        s.take(i + 1).last() == s[i],
{
}

/// Merges two strictly sorted hit lists, summing shared lines.
fn merge_sorted(a: &Vec<(u32, u64)>, b: &Vec<(u32, u64)>) -> (r: Vec<(u32, u64)>)
    requires
        strictly_sorted(a@),
        strictly_sorted(b@),
    ensures
        strictly_sorted(r@),
        forall|l: u32| #[trigger] line_hits(r@, l) == combine_hits(line_hits(a@, l), line_hits(b@, l)),
{
    let mut r: Vec<(u32, u64)> = Vec::new();
    let mut i: usize = 0;
    let mut j: usize = 0;
    assert(a@.take(0) =~= Seq::<(u32, u64)>::empty());
    assert(b@.take(0) =~= Seq::<(u32, u64)>::empty());
    while i < a.len() || j < b.len()
        invariant
            i <= a.len(),
            j <= b.len(),
            strictly_sorted(a@),
            strictly_sorted(b@),
            strictly_sorted(r@),
            forall|k: int| 0 <= k < r.len() ==> (i < a.len() ==> #[trigger] r@[k].0 < a@[i as int].0),
            forall|k: int| 0 <= k < r.len() ==> (j < b.len() ==> #[trigger] r@[k].0 < b@[j as int].0),
            forall|k: int| 0 <= k < i ==> (j < b.len() ==> #[trigger] a@[k].0 < b@[j as int].0),
            forall|k: int| 0 <= k < j ==> (i < a.len() ==> #[trigger] b@[k].0 < a@[i as int].0),
            forall|l: u32|
                #[trigger] line_hits(r@, l) == combine_hits(
                    line_hits(a@.take(i as int), l),
                    line_hits(b@.take(j as int), l),
                ),
        decreases a.len() + b.len() - i - j,
    {
        let ghost old_r = r@;
        let ghost ta = a@.take(i as int);
        let ghost tb = b@.take(j as int);
        if j >= b.len() || (i < a.len() && a[i].0 < b[j].0) {
            let x = a[i];
            r.push(x);
            proof {
                lemma_take_last(a@, i as int);
                assert forall|k: int| 0 <= k < tb.len() implies #[trigger] tb[k].0 != x.0 by {
                    assert(tb[k] == b@[k]);
                }
                lemma_hits_absent(tb, x.0);
                assert(r@.drop_last() =~= old_r);
                assert forall|l: u32| #[trigger]
                    line_hits(r@, l) == combine_hits(
                        line_hits(a@.take(i + 1), l),
                        line_hits(tb, l),
                    ) by {
                    if l != x.0 {
                        assert(line_hits(r@, l) == line_hits(old_r, l));
                        assert(line_hits(a@.take(i + 1), l) == line_hits(ta, l));
                    }
                }
            }
            i = i + 1;
        } else if i >= a.len() || b[j].0 < a[i].0 {
            let y = b[j];
            r.push(y);
            proof {
                lemma_take_last(b@, j as int);
                assert forall|k: int| 0 <= k < ta.len() implies #[trigger] ta[k].0 != y.0 by {
                    assert(ta[k] == a@[k]);
                }
                lemma_hits_absent(ta, y.0);
                assert(r@.drop_last() =~= old_r);
                assert forall|l: u32| #[trigger]
                    line_hits(r@, l) == combine_hits(
                        line_hits(ta, l),
                        line_hits(b@.take(j + 1), l),
                    ) by {
                    if l != y.0 {
                        assert(line_hits(r@, l) == line_hits(old_r, l));
                        assert(line_hits(b@.take(j + 1), l) == line_hits(tb, l));
                    }
                }
            }
            j = j + 1;
        } else {
            let x = a[i];
            let y = b[j];
            r.push((x.0, x.1.saturating_add(y.1)));
            proof {
                lemma_take_last(a@, i as int);
                lemma_take_last(b@, j as int);
                assert(r@.drop_last() =~= old_r);
                assert forall|l: u32| #[trigger]
                    line_hits(r@, l) == combine_hits(
                        line_hits(a@.take(i + 1), l),
                        line_hits(b@.take(j + 1), l),
                    ) by {
                    if l != x.0 {
                        assert(line_hits(r@, l) == line_hits(old_r, l));
                        assert(line_hits(a@.take(i + 1), l) == line_hits(ta, l));
                        assert(line_hits(b@.take(j + 1), l) == line_hits(tb, l));
                    }
                }
            }
            i = i + 1;
            j = j + 1;
        }
    }
    assert(a@.take(a.len() as int) =~= a@);
    assert(b@.take(b.len() as int) =~= b@);
    r
}

impl FileCoverage {
    #[verifier::type_invariant]
    closed spec fn inv(self) -> bool {
        strictly_sorted(self.lines@)
    }

    /// An empty report.
    pub fn new() -> (r: FileCoverage)
        ensures
            r@ == Seq::<(u32, u64)>::empty(),
    {
        FileCoverage { lines: Vec::new() }
    }

    /// Number of instrumented lines.
    pub fn line_count(&self) -> (n: usize)
        ensures
            n == self@.len(),
    {
        self.lines.len()
    }

    /// Hit count for `line`, if instrumented.
    pub fn get(&self, line: u32) -> (r: Option<u64>)
        ensures
            r == line_hits(self@, line),
    {
        proof {
            use_type_invariant(self);
        }
        let mut lo: usize = 0;
        let mut hi: usize = self.lines.len();
        while lo < hi
            invariant
                lo <= hi <= self.lines.len(),
                strictly_sorted(self.lines@),
                forall|m: int| 0 <= m < lo ==> #[trigger] self.lines@[m].0 < line,
                forall|m: int| hi <= m < self.lines@.len() ==> #[trigger] self.lines@[m].0 > line,
            decreases hi - lo,
        {
            let mid = lo + (hi - lo) / 2;
            let at = self.lines[mid].0;
            if at == line {
                proof {
                    lemma_hits_at(self.lines@, mid as int);
                }
                return Some(self.lines[mid].1);
            } else if at < line {
                proof {
                    assert forall|m: int| 0 <= m < mid + 1 implies #[trigger] self.lines@[m].0 < line by {
                        if m < mid {
                            assert(self.lines@[m].0 < self.lines@[mid as int].0);
                        }
                    }
                }
                lo = mid + 1;
            } else {
                proof {
                    assert forall|m: int| mid <= m < self.lines@.len() implies #[trigger] self.lines@[m].0 > line by {
                        if m > mid {
                            assert(self.lines@[mid as int].0 < self.lines@[m].0);
                        }
                    }
                }
                hi = mid;
            }
        }
        proof {
            assert forall|m: int| 0 <= m < self.lines@.len() implies #[trigger] self.lines@[m].0 != line by {
                if m < lo {
                } else {
                }
            }
            lemma_hits_absent(self.lines@, line);
        }
        None
    }

    /// Unions lines and saturating-adds overlapping hit counts.
    pub fn merge_from(&mut self, other: &FileCoverage)
        ensures
            forall|l: u32| #[trigger]
                line_hits(final(self)@, l) == combine_hits(line_hits(old(self)@, l), line_hits(other@, l)),
            strictly_sorted(final(self)@),
    {
        proof {
            use_type_invariant(&*self);
            use_type_invariant(other);
        }
        let merged = merge_sorted(&self.lines, &other.lines);
        self.lines = merged;
        proof {
            use_type_invariant(&*self);
        }
    }

    /// Adds `hits` to `line`, saturating; the line becomes instrumented.
    pub fn add_hits(&mut self, line: u32, hits: u64)
        ensures
            forall|l: u32| #[trigger]
                line_hits(final(self)@, l) == if l == line {
                    combine_hits(line_hits(old(self)@, l), Some(hits))
                } else {
                    line_hits(old(self)@, l)
                },
            strictly_sorted(final(self)@),
    {
        proof {
            use_type_invariant(&*self);
        }
        let n = self.lines.len();
        if n == 0 || self.lines[n - 1].0 < line {
            let ghost old_lines = self.lines@;
            proof {
                assert forall|k: int| 0 <= k < old_lines.len() implies #[trigger] old_lines[k].0
                    != line by {
                    if k < n - 1 {
                        assert(old_lines[k].0 < old_lines[n - 1].0);
                    }
                }
                lemma_hits_absent(old_lines, line);
            }
            let mut v = Vec::new();
            std::mem::swap(&mut v, &mut self.lines);
            v.push((line, hits));
            proof {
                assert(v@.drop_last() =~= old_lines);
                assert forall|l: u32| #[trigger] line_hits(v@, l) == if l == line {
                    combine_hits(line_hits(old_lines, l), Some(hits))
                } else {
                    line_hits(old_lines, l)
                } by {}
            }
            self.lines = v;
            proof {
                use_type_invariant(&*self);
            }
        } else {
            let mut single: Vec<(u32, u64)> = Vec::new();
            single.push((line, hits));
            proof {
                assert(single@.drop_last() =~= Seq::<(u32, u64)>::empty());
            }
            let ghost old_lines = self.lines@;
            let merged = merge_sorted(&self.lines, &single);
            proof {
                assert forall|l: u32| #[trigger] line_hits(merged@, l) == if l == line {
                    combine_hits(line_hits(old_lines, l), Some(hits))
                } else {
                    line_hits(old_lines, l)
                } by {
                    assert(line_hits(single@.drop_last(), l) is None);
                }
            }
            self.lines = merged;
            proof {
                use_type_invariant(&*self);
            }
        }
    }

    /// Builds a report from `(line, hits)` pairs, summing repeated lines.
    pub fn from_pairs(pairs: &[(u32, u64)]) -> (r: FileCoverage)
        ensures
            forall|l: u32| #[trigger] line_hits(r@, l) == pairs_hits(pairs@, l),
            strictly_sorted(r@),
    {
        let mut r = FileCoverage::new();
        let mut k: usize = 0;
        while k < pairs.len()
            invariant
                k <= pairs.len(),
                forall|l: u32| #[trigger] line_hits(r@, l) == pairs_hits(pairs@.take(k as int), l),
            decreases pairs.len() - k,
        {
            let p = pairs[k];
            r.add_hits(p.0, p.1);
            proof {
                lemma_take_last(pairs@, k as int);
            }
            k = k + 1;
        }
        assert(pairs@.take(pairs.len() as int) =~= pairs@);
        proof {
            use_type_invariant(&r);
        }
        r
    }

    /// Covered and instrumented counts of `start..=end`, omitting lines inside `exclude`.
    ///
    /// Line bounds above `u32::MAX` are treated as `u32::MAX`. Returns `None`
    /// when the span holds no instrumented line.
    pub fn coverage_in_span_excluding(&self, start: usize, end: usize, exclude: &[(usize, usize)]) -> (r:
        Option<LineRatio>)
        ensures
            r is None <==> span_count(self@, start, end, exclude@, false) == 0,
            r matches Some(ratio) ==> ratio.total == span_count(self@, start, end, exclude@, false)
                && ratio.covered == span_count(self@, start, end, exclude@, true) && ratio.valid(),
            span_count(self@, start, end, exclude@, false) == span_lines(self@, start, end, exclude@, false),
            span_count(self@, start, end, exclude@, true) == span_lines(self@, start, end, exclude@, true),
    {
        proof {
            use_type_invariant(self);
            lemma_span_count_is_span_lines(self@, start, end, exclude@, false);
            lemma_span_count_is_span_lines(self@, start, end, exclude@, true);
        }
        let s = clamp_to_u32(start);
        let e = clamp_to_u32(end);
        let mut total: usize = 0;
        let mut covered: usize = 0;
        let mut k: usize = 0;
        while k < self.lines.len()
            invariant
                k <= self.lines.len(),
                s == clamp_line(start),
                e == clamp_line(end),
                total == span_count(self@.take(k as int), start, end, exclude@, false),
                covered == span_count(self@.take(k as int), start, end, exclude@, true),
                covered <= total <= k,
            decreases self.lines.len() - k,
        {
            let (line, hits) = self.lines[k];
            proof {
                lemma_take_last(self@, k as int);
            }
            if s <= line && line <= e && !line_in_ranges(line, exclude) {
                total = total + 1;
                if hits > 0 {
                    covered = covered + 1;
                }
            }
            k = k + 1;
        }
        assert(self@.take(self.lines.len() as int) =~= self@);
        if total == 0 {
            None
        } else {
            Some(LineRatio { covered, total })
        }
    }

    /// Covered and instrumented counts of `start..=end`.
    pub fn coverage_in_span(&self, start: usize, end: usize) -> (r: Option<LineRatio>)
        ensures
            r is None <==> span_count(self@, start, end, Seq::empty(), false) == 0,
            r matches Some(ratio) ==> ratio.total == span_count(self@, start, end, Seq::empty(), false)
                && ratio.covered == span_count(self@, start, end, Seq::empty(), true)
                && ratio.valid(),
            span_count(self@, start, end, Seq::empty(), false) == span_lines(self@, start, end, Seq::empty(), false),
            span_count(self@, start, end, Seq::empty(), true) == span_lines(self@, start, end, Seq::empty(), true),
    {
        let none: Vec<(usize, usize)> = Vec::new();
        proof {
            assert(none@ =~= Seq::<(usize, usize)>::empty());
        }
        self.coverage_in_span_excluding(start, end, none.as_slice())
    }
}

/// Hits for `line` after adding `pairs` one by one to an empty report.
pub open spec fn pairs_hits(pairs: Seq<(u32, u64)>, line: u32) -> Option<u64>
    decreases pairs.len(),
{
    if pairs.len() == 0 {
        None
    } else if pairs.last().0 == line {
        combine_hits(pairs_hits(pairs.drop_last(), line), Some(pairs.last().1))
    } else {
        pairs_hits(pairs.drop_last(), line)
    }
}

fn clamp_to_u32(x: usize) -> (r: u32)
    ensures
        r == clamp_line(x),
{
    if x > 4294967295usize {
        4294967295u32
    } else {
        x as u32
    }
}

fn line_in_ranges(line: u32, ranges: &[(usize, usize)]) -> (r: bool)
    ensures
        r == in_ranges(line, ranges@),
{
    let mut k: usize = 0;
    while k < ranges.len()
        invariant
            k <= ranges.len(),
            forall|m: int|
                0 <= m < k ==> !(clamp_line(#[trigger] ranges@[m].0) <= line <= clamp_line(
                    ranges@[m].1,
                )),
        decreases ranges.len() - k,
    {
        let (a, b) = ranges[k];
        if clamp_to_u32(a) <= line && line <= clamp_to_u32(b) {
            return true;
        }
        k = k + 1;
    }
    false
}

} // verus!
