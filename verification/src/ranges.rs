//! Inclusive line ranges: sorting and coalescing.
use vstd::prelude::*;

verus! {

/// Lexicographic order on `(start, end)` pairs.
pub open spec fn pair_le(a: (usize, usize), b: (usize, usize)) -> bool {
    a.0 < b.0 || (a.0 == b.0 && a.1 <= b.1)
}

/// Inserts `x` after the trailing run of elements greater than it.
pub open spec fn insert_sorted(s: Seq<(usize, usize)>, x: (usize, usize)) -> Seq<(usize, usize)>
    decreases s.len(),
{
    if s.len() == 0 {
        seq![x]
    } else if pair_le(s.last(), x) {
        s.push(x)
    } else {
        insert_sorted(s.drop_last(), x).push(s.last())
    }
}

/// Insertion sort of range pairs.
pub open spec fn sort_ranges(s: Seq<(usize, usize)>) -> Seq<(usize, usize)>
    decreases s.len(),
{
    if s.len() == 0 {
        Seq::empty()
    } else {
        insert_sorted(sort_ranges(s.drop_last()), s.last())
    }
}

/// Folds range `r` into `acc`: it extends the last range when it starts at
/// most one line after that range's end, else it starts a new range.
pub open spec fn merge_step(acc: Seq<(usize, usize)>, r: (usize, usize)) -> Seq<(usize, usize)> {
    if acc.len() > 0 && r.0 <= acc.last().1 + 1 {
        acc.drop_last().push(
            (
                acc.last().0,
                if acc.last().1 >= r.1 {
                    acc.last().1
                } else {
                    r.1
                },
            ),
        )
    } else {
        acc.push(r)
    }
}

/// Left fold of [`merge_step`].
pub open spec fn fold_merge(s: Seq<(usize, usize)>) -> Seq<(usize, usize)>
    decreases s.len(),
{
    if s.len() == 0 {
        Seq::empty()
    } else {
        merge_step(fold_merge(s.drop_last()), s.last())
    }
}

/// Result of [`merge_ranges`].
pub open spec fn merge_ranges_spec(s: Seq<(usize, usize)>) -> Seq<(usize, usize)> {
    if s.len() <= 1 {
        s
    } else {
        fold_merge(sort_ranges(s))
    }
}

/// Whether line `x` lies in one of the inclusive ranges.
pub open spec fn covers(s: Seq<(usize, usize)>, x: int) -> bool {
    exists|k: int| 0 <= k < s.len() && #[trigger] s[k].0 <= x <= s[k].1
}

/// Consecutive ranges leave at least one uncovered line between them.
pub open spec fn separated(s: Seq<(usize, usize)>) -> bool {
    forall|i: int| 0 <= i < s.len() - 1 ==> #[trigger] s[i + 1].0 > s[i].1 + 1
}

proof fn lemma_insert_at(s: Seq<(usize, usize)>, x: (usize, usize), k: int)
    requires
        0 <= k <= s.len(),
        forall|i: int| k <= i < s.len() ==> !pair_le(#[trigger] s[i], x),
        k == 0 || pair_le(s[k - 1], x),
    ensures
        insert_sorted(s, x) == s.take(k) + seq![x] + s.skip(k),
    decreases s.len(),
{
    if s.len() == 0 {
        assert(s.take(k) + seq![x] + s.skip(k) =~= seq![x]);
    } else if pair_le(s.last(), x) {
        assert(k == s.len());
        assert(s.take(k) + seq![x] + s.skip(k) =~= s.push(x));
    } else {
        let d = s.drop_last();
        assert(k < s.len());
        assert forall|i: int| k <= i < d.len() implies !pair_le(#[trigger] d[i], x) by {
            assert(d[i] == s[i]);
        }
        if k > 0 {
            assert(d[k - 1] == s[k - 1]);
        }
        lemma_insert_at(d, x, k);
        assert(d.take(k) + seq![x] + d.skip(k) + seq![s.last()] =~= s.take(k) + seq![x] + s.skip(k));
    }
}

fn pair_le_exec(a: (usize, usize), b: (usize, usize)) -> (r: bool)
    ensures
        r == pair_le(a, b),
{
    a.0 < b.0 || (a.0 == b.0 && a.1 <= b.1)
}

fn insert_range(v: Vec<(usize, usize)>, x: (usize, usize)) -> (r: Vec<(usize, usize)>)
    ensures
        r@ == insert_sorted(v@, x),
{
    let mut k = v.len();
    while k > 0 && !pair_le_exec(v[k - 1], x)
        invariant
            k <= v.len(),
            forall|i: int| k <= i < v.len() ==> !pair_le(#[trigger] v@[i], x),
        decreases k,
    {
        k = k - 1;
    }
    proof {
        lemma_insert_at(v@, x, k as int);
    }
    let mut out: Vec<(usize, usize)> = Vec::new();
    let mut i: usize = 0;
    while i < k
        invariant
            i <= k,
            k <= v.len(),
            out@ == v@.take(i as int),
        decreases k - i,
    {
        out.push(v[i]);
        assert(v@.take(i as int + 1) =~= v@.take(i as int).push(v@[i as int]));
        i = i + 1;
    }
    out.push(x);
    let mut j: usize = k;
    while j < v.len()
        invariant
            k <= j <= v.len(),
            out@ == v@.take(k as int) + seq![x] + v@.subrange(k as int, j as int),
        decreases v.len() - j,
    {
        out.push(v[j]);
        assert(v@.subrange(k as int, j as int + 1) =~= v@.subrange(k as int, j as int).push(
            v@[j as int],
        ));
        assert(out@ =~= v@.take(k as int) + seq![x] + v@.subrange(k as int, j as int + 1));
        j = j + 1;
    }
    assert(v@.subrange(k as int, v.len() as int) =~= v@.skip(k as int));
    out
}

/// Sorts and coalesces inclusive ranges; overlapping or adjacent ranges merge.
///
/// Inputs with at most one range are returned unchanged. Every line covered
/// by the input is covered by the output and no other ([`lemma_merge_ranges_covers`]).
pub fn merge_ranges(ranges: Vec<(usize, usize)>) -> (r: Vec<(usize, usize)>)
    ensures
        r@ == merge_ranges_spec(ranges@),
{
    if ranges.len() <= 1 {
        return ranges;
    }
    let mut sorted: Vec<(usize, usize)> = Vec::new();
    let mut k: usize = 0;
    while k < ranges.len()
        invariant
            k <= ranges.len(),
            sorted@ == sort_ranges(ranges@.take(k as int)),
        decreases ranges.len() - k,
    {
        assert(ranges@.take(k as int + 1).drop_last() =~= ranges@.take(k as int));
        sorted = insert_range(sorted, ranges[k]);
        k = k + 1;
    }
    assert(ranges@.take(ranges.len() as int) =~= ranges@);
    let mut merged: Vec<(usize, usize)> = Vec::new();
    let mut i: usize = 0;
    while i < sorted.len()
        invariant
            i <= sorted.len(),
            merged@ == fold_merge(sorted@.take(i as int)),
        decreases sorted.len() - i,
    {
        let next = sorted[i];
        assert(sorted@.take(i as int + 1).drop_last() =~= sorted@.take(i as int));
        let n = merged.len();
        if n > 0 && next.0 <= merged[n - 1].1.saturating_add(1) {
            let last = merged[n - 1];
            let end = if last.1 >= next.1 {
                last.1
            } else {
                next.1
            };
            merged.pop();
            merged.push((last.0, end));
            assert(merged@ =~= merge_step(fold_merge(sorted@.take(i as int)), next));
        } else {
            merged.push(next);
        }
        i = i + 1;
    }
    assert(sorted@.take(sorted.len() as int) =~= sorted@);
    merged
}

proof fn lemma_insert_covers(s: Seq<(usize, usize)>, x: (usize, usize), y: int)
    ensures
        covers(insert_sorted(s, x), y) == (covers(s, y) || (x.0 <= y <= x.1)),
    decreases s.len(),
{
    let r = insert_sorted(s, x);
    if s.len() == 0 {
        if x.0 <= y <= x.1 {
            assert(r[0] == x);
        }
    } else if pair_le(s.last(), x) {
        if covers(s, y) {
            let k = choose|k: int| 0 <= k < s.len() && #[trigger] s[k].0 <= y <= s[k].1;
            assert(r[k] == s[k]);
        }
        if x.0 <= y <= x.1 {
            assert(r[s.len() as int] == x);
        }
        if covers(r, y) {
            let k = choose|k: int| 0 <= k < r.len() && #[trigger] r[k].0 <= y <= r[k].1;
            if k < s.len() {
                assert(r[k] == s[k]);
            }
        }
    } else {
        let d = s.drop_last();
        lemma_insert_covers(d, x, y);
        let rd = insert_sorted(d, x);
        if covers(r, y) {
            let k = choose|k: int| 0 <= k < r.len() && #[trigger] r[k].0 <= y <= r[k].1;
            if k < rd.len() {
                assert(r[k] == rd[k]);
            } else {
                assert(r[k] == s[s.len() - 1]);
            }
        }
        if covers(s, y) {
            let k = choose|k: int| 0 <= k < s.len() && #[trigger] s[k].0 <= y <= s[k].1;
            if k < d.len() {
                assert(d[k] == s[k]);
                let j = choose|j: int| 0 <= j < rd.len() && #[trigger] rd[j].0 <= y <= rd[j].1;
                assert(r[j] == rd[j]);
            } else {
                assert(r[rd.len() as int] == s[k]);
            }
        }
        if x.0 <= y <= x.1 {
            let j = choose|j: int| 0 <= j < rd.len() && #[trigger] rd[j].0 <= y <= rd[j].1;
            assert(r[j] == rd[j]);
        }
    }
}

proof fn lemma_sort_covers(s: Seq<(usize, usize)>, y: int)
    ensures
        covers(sort_ranges(s), y) == covers(s, y),
    decreases s.len(),
{
    if s.len() > 0 {
        let d = s.drop_last();
        lemma_sort_covers(d, y);
        lemma_insert_covers(sort_ranges(d), s.last(), y);
        if covers(d, y) {
            let k = choose|k: int| 0 <= k < d.len() && #[trigger] d[k].0 <= y <= d[k].1;
            assert(s[k] == d[k]);
        }
        if covers(s, y) {
            let k = choose|k: int| 0 <= k < s.len() && #[trigger] s[k].0 <= y <= s[k].1;
            if k < d.len() {
                assert(s[k] == d[k]);
            }
        }
        if s.last().0 <= y <= s.last().1 {
            assert(s[s.len() - 1] == s.last());
        }
    }
}

proof fn lemma_insert_sorted_props(s: Seq<(usize, usize)>, x: (usize, usize))
    requires
        forall|i: int, j: int| 0 <= i < j < s.len() ==> pair_le(#[trigger] s[i], #[trigger] s[j]),
    ensures
        forall|i: int, j: int|
            0 <= i < j < insert_sorted(s, x).len() ==> pair_le(
                #[trigger] insert_sorted(s, x)[i],
                #[trigger] insert_sorted(s, x)[j],
            ),
        insert_sorted(s, x).len() == s.len() + 1,
    decreases s.len(),
{
    let r = insert_sorted(s, x);
    if s.len() > 0 && !pair_le(s.last(), x) {
        let d = s.drop_last();
        lemma_insert_sorted_props(d, x);
        let rd = insert_sorted(d, x);
        assert forall|i: int, j: int| 0 <= i < j < r.len() implies pair_le(#[trigger] r[i], #[trigger] r[j]) by {
            if j == r.len() - 1 {
                assert(r[j] == s.last());
                if rd[i] == x {
                } else {
                    lemma_insert_member(d, x, i);
                    let m = choose|m: int| 0 <= m < d.len() && d[m] == rd[i];
                    assert(d[m] == s[m]);
                    assert(pair_le(s[m], s[s.len() - 1]));
                }
            } else {
                assert(r[i] == rd[i] && r[j] == rd[j]);
            }
        }
    }
}

proof fn lemma_insert_member(s: Seq<(usize, usize)>, x: (usize, usize), i: int)
    requires
        0 <= i < insert_sorted(s, x).len(),
        insert_sorted(s, x)[i] != x,
    ensures
        exists|m: int| 0 <= m < s.len() && s[m] == insert_sorted(s, x)[i],
    decreases s.len(),
{
    let r = insert_sorted(s, x);
    if s.len() == 0 {
        assert(r[i] == x);
    } else if pair_le(s.last(), x) {
        assert(i < s.len());
        assert(s[i] == r[i]);
    } else {
        let d = s.drop_last();
        let rd = insert_sorted(d, x);
        lemma_insert_len(d, x);
        if i == r.len() - 1 {
            assert(s[s.len() - 1] == r[i]);
        } else {
            assert(r[i] == rd[i]);
            lemma_insert_member(d, x, i);
            let m = choose|m: int| 0 <= m < d.len() && d[m] == rd[i];
            assert(s[m] == d[m]);
        }
    }
}

proof fn lemma_insert_len(s: Seq<(usize, usize)>, x: (usize, usize))
    ensures
        insert_sorted(s, x).len() == s.len() + 1,
    decreases s.len(),
{
    if s.len() > 0 && !pair_le(s.last(), x) {
        lemma_insert_len(s.drop_last(), x);
    }
}

proof fn lemma_sort_sorted(s: Seq<(usize, usize)>)
    ensures
        forall|i: int, j: int|
            0 <= i < j < sort_ranges(s).len() ==> pair_le(#[trigger] sort_ranges(s)[i], #[trigger] sort_ranges(s)[j]),
        sort_ranges(s).len() == s.len(),
    decreases s.len(),
{
    if s.len() > 0 {
        lemma_sort_sorted(s.drop_last());
        lemma_insert_sorted_props(sort_ranges(s.drop_last()), s.last());
    }
}

proof fn lemma_fold_covers(s: Seq<(usize, usize)>, y: int)
    requires
        forall|i: int, j: int| 0 <= i < j < s.len() ==> pair_le(#[trigger] s[i], #[trigger] s[j]),
    ensures
        covers(fold_merge(s), y) == covers(s, y),
        s.len() > 0 ==> fold_merge(s).len() > 0 && fold_merge(s).last().0 <= s.last().0,
        separated(fold_merge(s)),
    decreases s.len(),
{
    if s.len() > 0 {
        let d = s.drop_last();
        assert forall|i: int, j: int| 0 <= i < j < d.len() implies pair_le(#[trigger] d[i], #[trigger] d[j]) by {
            assert(d[i] == s[i] && d[j] == s[j]);
        }
        lemma_fold_covers(d, y);
        let acc = fold_merge(d);
        let x = s.last();
        let r = merge_step(acc, x);
        if d.len() > 0 {
            assert(pair_le(s[d.len() - 1], s[s.len() - 1]));
            assert(d.last() == s[d.len() - 1]);
        }
        if acc.len() > 0 && x.0 <= acc.last().1 + 1 {
            let a = acc.last();
            let e = if a.1 >= x.1 {
                a.1
            } else {
                x.1
            };
            assert(a.0 <= x.0);
            assert(r.last() == (a.0, e));
            if covers(r, y) {
                let k = choose|k: int| 0 <= k < r.len() && #[trigger] r[k].0 <= y <= r[k].1;
                if k < acc.len() - 1 {
                    assert(r[k] == acc[k]);
                } else if y <= a.1 {
                    assert(acc[acc.len() - 1].0 <= y <= acc[acc.len() - 1].1);
                } else {
                    assert(x.0 <= y <= x.1);
                    assert(s[s.len() - 1].0 <= y <= s[s.len() - 1].1);
                }
            }
            if covers(s, y) {
                let k = choose|k: int| 0 <= k < s.len() && #[trigger] s[k].0 <= y <= s[k].1;
                if k < d.len() {
                    assert(d[k] == s[k]);
                    let j = choose|j: int| 0 <= j < acc.len() && #[trigger] acc[j].0 <= y <= acc[j].1;
                    if j < acc.len() - 1 {
                        assert(r[j] == acc[j]);
                    } else {
                        assert(r[r.len() - 1].0 <= y <= r[r.len() - 1].1);
                    }
                } else {
                    assert(r[r.len() - 1].0 <= y <= r[r.len() - 1].1);
                }
            }
            assert forall|i: int| 0 <= i < r.len() - 1 implies #[trigger] r[i + 1].0 > r[i].1 + 1 by {
                assert(r[i] == acc[i]);
                assert(r[i + 1].0 == acc[i + 1].0);
            }
        } else {
            if covers(r, y) {
                let k = choose|k: int| 0 <= k < r.len() && #[trigger] r[k].0 <= y <= r[k].1;
                if k < acc.len() {
                    assert(r[k] == acc[k]);
                } else {
                    assert(s[s.len() - 1].0 <= y <= s[s.len() - 1].1);
                }
            }
            if covers(s, y) {
                let k = choose|k: int| 0 <= k < s.len() && #[trigger] s[k].0 <= y <= s[k].1;
                if k < d.len() {
                    assert(d[k] == s[k]);
                    let j = choose|j: int| 0 <= j < acc.len() && #[trigger] acc[j].0 <= y <= acc[j].1;
                    assert(r[j] == acc[j]);
                } else {
                    assert(r[r.len() - 1] == x);
                }
            }
            assert forall|i: int| 0 <= i < r.len() - 1 implies #[trigger] r[i + 1].0 > r[i].1 + 1 by {
                assert(r[i] == acc[i]);
                if i + 1 < acc.len() {
                    assert(r[i + 1] == acc[i + 1]);
                }
            }
        }
    }
}

/// Coalescing never changes which lines are covered, and in the ranges it
/// produces from two or more inputs each range begins more than one line
/// after the previous one ends.
pub proof fn lemma_merge_ranges_covers(ranges: Seq<(usize, usize)>, line: int)
    ensures
        covers(merge_ranges_spec(ranges), line) == covers(ranges, line),
        ranges.len() > 1 ==> separated(merge_ranges_spec(ranges)),
{
    if ranges.len() > 1 {
        lemma_sort_sorted(ranges);
        lemma_sort_covers(ranges, line);
        lemma_fold_covers(sort_ranges(ranges), line);
    }
}

} // verus!
