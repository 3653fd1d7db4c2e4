//! Cyclomatic complexity of a Go function body.
use crate::go::lex::{
    bool_op_at, byte_at, ident_byte, is_bool_op, is_word, keyword, keyword_bytes, lemma_plain_at, lemma_skip_noise,
    matches_at, plain, skip_noise, skip_noise_spec, word_at, Keyword, SPACE,
};
use vstd::prelude::*;

verus! {

/// Length of the decision token at `j`: `&&`, `||`, `if`, `for`, `case` or
/// `default` as whole words; 0 when none starts there.
pub open spec fn decision_len(b: Seq<u8>, j: int) -> int {
    if bool_op_at(b, j) {
        2
    } else if word_at(b, j, keyword_bytes(Keyword::If)) {
        2
    } else if word_at(b, j, keyword_bytes(Keyword::For)) {
        3
    } else if word_at(b, j, keyword_bytes(Keyword::Case)) {
        4
    } else if word_at(b, j, keyword_bytes(Keyword::Default)) {
        7
    } else {
        0
    }
}

/// Decision points in `b` from `i` on, outside comments and string literals.
pub open spec fn decisions_from(b: Seq<u8>, i: int) -> nat
    decreases b.len() - i,
{
    if 0 <= i < b.len() {
        proof {
            lemma_skip_noise(b, i);
        }
        let j = skip_noise_spec(b, i);
        if j >= b.len() {
            0
        } else if decision_len(b, j) > 0 {
            1 + decisions_from(b, j + decision_len(b, j))
        } else {
            decisions_from(b, j + 1)
        }
    } else {
        0
    }
}

/// Cyclomatic complexity: one plus every decision point.
pub open spec fn cyclomatic(b: Seq<u8>) -> nat {
    1 + decisions_from(b, 0)
}

/// Each decision token spans at least two bytes of the input.
pub proof fn lemma_decisions_bound(b: Seq<u8>, i: int)
    requires
        0 <= i <= b.len(),
    ensures
        2 * decisions_from(b, i) <= b.len() - i,
    decreases b.len() - i,
{
    if i < b.len() {
        lemma_skip_noise(b, i);
        let j = skip_noise_spec(b, i);
        if j < b.len() {
            if decision_len(b, j) > 0 {
                lemma_decisions_bound(b, j + decision_len(b, j));
            } else {
                lemma_decisions_bound(b, j + 1);
            }
        }
    }
}

fn take_decision(bytes: &[u8], i: usize, count: &mut usize) -> (r: Option<usize>)
    requires
        i < bytes.len(),
        *old(count) < usize::MAX,
    ensures
        decision_len(bytes@, i as int) > 0 ==> r == Some((i + decision_len(bytes@, i as int)) as usize)
            && *final(count) == *old(count) + 1,
        decision_len(bytes@, i as int) == 0 ==> r is None && *final(count) == *old(count),
{
    if is_bool_op(bytes, i) {
        *count = *count + 1;
        return Some(i + 2);
    }
    if is_word(bytes, i, keyword(Keyword::If)) {
        *count = *count + 1;
        return Some(i + 2);
    }
    if is_word(bytes, i, keyword(Keyword::For)) {
        *count = *count + 1;
        return Some(i + 3);
    }
    if is_word(bytes, i, keyword(Keyword::Case)) {
        *count = *count + 1;
        return Some(i + 4);
    }
    if is_word(bytes, i, keyword(Keyword::Default)) {
        *count = *count + 1;
        return Some(i + 7);
    }
    None
}

/// Cyclomatic complexity of `body` (at least 1): one plus each `&&`, `||`,
/// `if`, `for`, `case` and `default` outside comments and string literals.
pub fn count(body: &[u8]) -> (n: usize)
    ensures
        n == cyclomatic(body@),
{
    proof {
        lemma_decisions_bound(body@, 0);
    }
    let mut count: usize = 1;
    let mut i: usize = 0;
    while i < body.len()
        invariant
            i <= body.len(),
            count + decisions_from(body@, i as int) == 1 + decisions_from(body@, 0),
            2 * decisions_from(body@, 0) <= body@.len(),
        ensures
            count == 1 + decisions_from(body@, 0),
        decreases body.len() - i,
    {
        proof {
            lemma_skip_noise(body@, i as int);
        }
        let ghost before = i as int;
        i = skip_noise(body, i);
        assert(decisions_from(body@, before) == if i >= body.len() {
            0
        } else if decision_len(body@, i as int) > 0 {
            1 + decisions_from(body@, i + decision_len(body@, i as int))
        } else {
            decisions_from(body@, i + 1)
        });
        if i >= body.len() {
            break;
        }
        if let Some(next) = take_decision(body, i, &mut count) {
            i = next;
            continue;
        }
        i = i + 1;
    }
    count
}

/// Every body has cyclomatic complexity at least one.
pub proof fn lemma_cyclomatic_at_least_one(b: Seq<u8>)
    ensures
        cyclomatic(b) >= 1,
{
}

/// A token test at `|p| + k` of `p + q` agrees with the same test at `k` of
/// `q` once the byte before it lies in `q`.
proof fn lemma_word_shift(p: Seq<u8>, q: Seq<u8>, k: int, w: Seq<u8>)
    requires
        1 <= k <= q.len(),
    ensures
        matches_at(p + q, p.len() + k, w) == matches_at(q, k, w),
        word_at(p + q, p.len() + k, w) == word_at(q, k, w),
{
    let b = p + q;
    let i = p.len() + k;
    if k + w.len() <= q.len() {
        assert(b.subrange(i, i + w.len()) =~= q.subrange(k, k + w.len()));
    }
    assert(byte_at(b, i - 1) == byte_at(q, k - 1));
    assert(byte_at(b, i + w.len()) == byte_at(q, k + w.len()));
}

/// The decision at `|p| + k` of `p + q` is the decision at `k` of `q`, when
/// `q` starts with a space.
proof fn lemma_decision_shift(p: Seq<u8>, q: Seq<u8>, k: int)
    requires
        0 <= k < q.len(),
        q[0] == SPACE,
    ensures
        decision_len(p + q, p.len() + k) == decision_len(q, k),
{
    let b = p + q;
    if k >= 1 {
        lemma_word_shift(p, q, k, seq![38u8, 38u8]);
        lemma_word_shift(p, q, k, seq![124u8, 124u8]);
        lemma_word_shift(p, q, k, keyword_bytes(Keyword::If));
        lemma_word_shift(p, q, k, keyword_bytes(Keyword::For));
        lemma_word_shift(p, q, k, keyword_bytes(Keyword::Case));
        lemma_word_shift(p, q, k, keyword_bytes(Keyword::Default));
    } else {
        assert(b[p.len() + k] == SPACE);
        assert(q[k] == SPACE);
    }
}

/// Decision points of `p + q` from `|p| + k` on are those of `q` from `k`,
/// for plain `q` that starts with a space.
proof fn lemma_decisions_shift(p: Seq<u8>, q: Seq<u8>, k: int)
    requires
        0 <= k <= q.len(),
        plain(q),
        q.len() > 0 && q[0] == SPACE,
    ensures
        decisions_from(p + q, p.len() + k) == decisions_from(q, k),
    decreases q.len() - k,
{
    let b = p + q;
    let i = p.len() + k;
    if k < q.len() {
        assert(b[i] == q[k]);
        lemma_plain_at(b, i);
        lemma_plain_at(q, k);
        lemma_decision_shift(p, q, k);
        let d = decision_len(q, k);
        if d > 0 {
            lemma_decision_len_fits(q, k);
            lemma_decisions_shift(p, q, k + d);
        } else {
            lemma_decisions_shift(p, q, k + 1);
        }
    }
}

proof fn lemma_decision_len_fits(b: Seq<u8>, j: int)
    requires
        0 <= j < b.len(),
    ensures
        j + decision_len(b, j) <= b.len(),
        decision_len(b, j) >= 0,
{
}

/// Each decision token adds one to the cyclomatic count: a whole-word
/// `if`, `for`, `case` or `default`, or a `&&` or `||`, set off by spaces in
/// front of any body `s` without comments or strings, raises its count by
/// exactly one.
pub proof fn lemma_decision_token_adds_one(w: Seq<u8>, s: Seq<u8>)
    requires
        w == seq![105u8, 102u8] || w == seq![102u8, 111u8, 114u8] || w == seq![99u8, 97u8, 115u8, 101u8]
            || w == seq![100u8, 101u8, 102u8, 97u8, 117u8, 108u8, 116u8] || w == seq![38u8, 38u8] || w
            == seq![124u8, 124u8],
        plain(s),
    ensures
        cyclomatic(seq![SPACE] + w + seq![SPACE] + s) == cyclomatic(seq![SPACE] + s) + 1,
{
    let p = seq![SPACE] + w;
    let q = seq![SPACE] + s;
    let b = p + q;
    assert(seq![SPACE] + w + seq![SPACE] + s =~= b);
    assert(plain(q)) by {
        assert forall|i: int| 0 <= i < q.len() implies #[trigger] q[i] != 47u8 && !crate::go::lex::is_quote(q[i]) by {
            if i > 0 {
                assert(q[i] == s[i - 1]);
            }
        }
    }
    lemma_plain_at(b, 0);
    lemma_plain_at(b, 1);
    lemma_plain_at(q, 0);
    assert(b.subrange(1, 1 + w.len() as int) =~= w);
    assert(b[1 + w.len() as int] == SPACE);
    assert(decision_len(b, 0) == 0);
    assert(decision_len(q, 0) == 0);
    assert(decision_len(b, 1) == w.len());
    assert(decisions_from(b, 0) == decisions_from(b, 1));
    assert(decisions_from(b, 1) == 1 + decisions_from(b, 1 + w.len() as int));
    lemma_decisions_shift(p, q, 0);
    assert(p.len() == 1 + w.len());
}

/// A word `w` of identifier bytes that starts at 1 in `b`, right after
/// which `b` has a space, is no whole-word occurrence of a different word
/// `kw` of identifier bytes.
proof fn lemma_other_word_not_at(b: Seq<u8>, w: Seq<u8>, kw: Seq<u8>)
    requires
        w.len() > 0,
        kw.len() > 0,
        w != kw,
        forall|k: int| 0 <= k < w.len() ==> ident_byte(#[trigger] w[k]),
        forall|k: int| 0 <= k < kw.len() ==> ident_byte(#[trigger] kw[k]),
        b.len() > 1 + w.len(),
        b.subrange(1, 1 + w.len() as int) == w,
        b[1 + w.len() as int] == SPACE,
    ensures
        !word_at(b, 1, kw),
{
    if word_at(b, 1, kw) {
        let m = b.subrange(1, 1 + kw.len() as int);
        if kw.len() < w.len() {
            assert(b[1 + kw.len() as int] == w[kw.len() as int]);
            assert(byte_at(b, 1 + kw.len() as int) == b[1 + kw.len() as int]);
        } else if kw.len() == w.len() {
            assert(kw == w);
        } else {
            assert(m[w.len() as int] == b[1 + w.len() as int]);
            assert(ident_byte(kw[w.len() as int]));
        }
    }
}

/// No decision token starts inside an ordinary word of `b = " " + w + q`.
proof fn lemma_no_decision_in_word(b: Seq<u8>, w: Seq<u8>, t: int)
    requires
        w.len() > 0,
        forall|k: int| 0 <= k < w.len() ==> ident_byte(#[trigger] w[k]),
        w != keyword_bytes(Keyword::If),
        w != keyword_bytes(Keyword::For),
        w != keyword_bytes(Keyword::Case),
        w != keyword_bytes(Keyword::Default),
        b.len() > 1 + w.len(),
        b.subrange(1, 1 + w.len() as int) == w,
        b[1 + w.len() as int] == SPACE,
        1 <= t <= w.len(),
    ensures
        decision_len(b, t) == 0,
{
    assert(b[t] == w[t - 1]) by {
        assert(b.subrange(1, 1 + w.len() as int)[t - 1] == b[t]);
    }
    if matches_at(b, t, seq![38u8, 38u8]) {
        assert(b.subrange(t, t + 2)[0] == b[t]);
    }
    if matches_at(b, t, seq![124u8, 124u8]) {
        assert(b.subrange(t, t + 2)[0] == b[t]);
    }
    if t >= 2 {
        assert(b[t - 1] == w[t - 2]) by {
            assert(b.subrange(1, 1 + w.len() as int)[t - 2] == b[t - 1]);
        }
        assert(ident_byte(byte_at(b, t - 1)));
    } else {
        lemma_other_word_not_at(b, w, keyword_bytes(Keyword::If));
        lemma_other_word_not_at(b, w, keyword_bytes(Keyword::For));
        lemma_other_word_not_at(b, w, keyword_bytes(Keyword::Case));
        lemma_other_word_not_at(b, w, keyword_bytes(Keyword::Default));
    }
}

/// Decision points of `b = " " + w + q` from `t` inside the word on are
/// those from just past the word.
proof fn lemma_skip_ordinary_word(b: Seq<u8>, w: Seq<u8>, t: int)
    requires
        w.len() > 0,
        forall|k: int| 0 <= k < w.len() ==> ident_byte(#[trigger] w[k]),
        w != keyword_bytes(Keyword::If),
        w != keyword_bytes(Keyword::For),
        w != keyword_bytes(Keyword::Case),
        w != keyword_bytes(Keyword::Default),
        b.len() > 1 + w.len(),
        b.subrange(1, 1 + w.len() as int) == w,
        b[1 + w.len() as int] == SPACE,
        1 <= t <= 1 + w.len(),
    ensures
        decisions_from(b, t) == decisions_from(b, 1 + w.len() as int),
    decreases 1 + w.len() - t,
{
    if t <= w.len() {
        assert(b[t] == w[t - 1]) by {
            assert(b.subrange(1, 1 + w.len() as int)[t - 1] == b[t]);
        }
        lemma_plain_at(b, t);
        lemma_no_decision_in_word(b, w, t);
        lemma_skip_ordinary_word(b, w, t + 1);
    }
}

/// An ordinary word adds nothing to the cyclomatic count: a word of
/// identifier bytes other than `if`, `for`, `case` and `default`, set off
/// by spaces in front of any body `s` without comments or strings, leaves
/// its count as it was.
pub proof fn lemma_ordinary_word_adds_nothing(w: Seq<u8>, s: Seq<u8>)
    requires
        w.len() > 0,
        forall|k: int| 0 <= k < w.len() ==> ident_byte(#[trigger] w[k]),
        w != seq![105u8, 102u8],
        w != seq![102u8, 111u8, 114u8],
        w != seq![99u8, 97u8, 115u8, 101u8],
        w != seq![100u8, 101u8, 102u8, 97u8, 117u8, 108u8, 116u8],
        plain(s),
    ensures
        cyclomatic(seq![SPACE] + w + seq![SPACE] + s) == cyclomatic(seq![SPACE] + s),
{
    let p = seq![SPACE] + w;
    let q = seq![SPACE] + s;
    let b = p + q;
    assert(seq![SPACE] + w + seq![SPACE] + s =~= b);
    assert(plain(q)) by {
        assert forall|i: int| 0 <= i < q.len() implies #[trigger] q[i] != 47u8 && !crate::go::lex::is_quote(q[i]) by {
            if i > 0 {
                assert(q[i] == s[i - 1]);
            }
        }
    }
    lemma_plain_at(b, 0);
    assert(b.subrange(1, 1 + w.len() as int) =~= w);
    assert(b[1 + w.len() as int] == SPACE);
    assert(b[0] == SPACE);
    assert(decision_len(b, 0) == 0);
    assert(decisions_from(b, 0) == decisions_from(b, 1));
    lemma_skip_ordinary_word(b, w, 1);
    lemma_decisions_shift(p, q, 0);
    assert(p.len() == 1 + w.len());
}

} // verus!
