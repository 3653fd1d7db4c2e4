//! Character-sequence helpers: white space, trimming, lines, words, joins.
use crate::text::chars_of;
use vstd::prelude::*;

verus! {

/// Unicode white space, as `char::is_whitespace` accepts it.
pub open spec fn white(c: char) -> bool {
    let u = c as u32;
    (9 <= u <= 13) || u == 32 || u == 0x85 || u == 0xa0 || u == 0x1680 || (0x2000 <= u <= 0x200a)
        || u == 0x2028 || u == 0x2029 || u == 0x202f || u == 0x205f || u == 0x3000
}

/// First position at or after `i` that is not white space.
pub open spec fn skip_white(s: Seq<char>, i: int) -> int
    decreases s.len() - i,
{
    if 0 <= i < s.len() && white(s[i]) {
        skip_white(s, i + 1)
    } else {
        i
    }
}

/// Position just past the last non-white character before `j` (0 when none).
pub open spec fn back_white(s: Seq<char>, j: int) -> int
    decreases j,
{
    if 0 < j <= s.len() && white(s[j - 1]) {
        back_white(s, j - 1)
    } else {
        j
    }
}

/// `s` without leading and trailing white space (`str::trim`).
pub open spec fn trimmed(s: Seq<char>) -> Seq<char> {
    let lo = skip_white(s, 0);
    let hi = back_white(s, s.len() as int);
    if lo < hi {
        s.subrange(lo, hi)
    } else {
        Seq::empty()
    }
}

/// `s` begins with `p`.
pub open spec fn starts_with(s: Seq<char>, p: Seq<char>) -> bool {
    p.len() <= s.len() && s.subrange(0, p.len() as int) == p
}

/// The lines of `s`, split at each `\n` (a final empty piece included).
pub open spec fn split_lines(s: Seq<char>) -> Seq<Seq<char>>
    decreases s.len(),
{
    if s.len() == 0 {
        seq![Seq::empty()]
    } else {
        let prev = split_lines(s.drop_last());
        if s.last() == '\n' {
            prev.push(Seq::empty())
        } else {
            prev.update(prev.len() - 1, prev.last().push(s.last()))
        }
    }
}

/// Words of `s[0..n)` finished so far, and the word in progress.
pub open spec fn words_upto(s: Seq<char>, n: nat) -> (Seq<Seq<char>>, Seq<char>)
    decreases n,
{
    if n == 0 || n > s.len() {
        (Seq::empty(), Seq::empty())
    } else {
        let prev = words_upto(s, (n - 1) as nat);
        let c = s[n - 1];
        if white(c) {
            if prev.1.len() > 0 {
                (prev.0.push(prev.1), Seq::empty())
            } else {
                prev
            }
        } else {
            (prev.0, prev.1.push(c))
        }
    }
}

/// The white-space separated words of `s` (`str::split_whitespace`).
pub open spec fn words(s: Seq<char>) -> Seq<Seq<char>> {
    let st = words_upto(s, s.len());
    if st.1.len() > 0 {
        st.0.push(st.1)
    } else {
        st.0
    }
}

/// `parts` joined with `sep` between them.
pub open spec fn join(parts: Seq<Seq<char>>, sep: Seq<char>) -> Seq<char>
    decreases parts.len(),
{
    if parts.len() == 0 {
        Seq::empty()
    } else if parts.len() == 1 {
        parts[0]
    } else {
        join(parts.drop_last(), sep) + sep + parts.last()
    }
}

/// The character views of a list of character vectors.
pub open spec fn char_lines(v: Seq<Vec<char>>) -> Seq<Seq<char>> {
    Seq::new(v.len(), |k: int| v[k]@)
}

pub fn is_white(c: char) -> (r: bool)
    ensures
        r == white(c),
{
    let u = c as u32;
    (9 <= u && u <= 13) || u == 32 || u == 0x85 || u == 0xa0 || u == 0x1680 || (0x2000 <= u && u
        <= 0x200a) || u == 0x2028 || u == 0x2029 || u == 0x202f || u == 0x205f || u == 0x3000
}

pub fn copy_chars(s: &[char], lo: usize, hi: usize) -> (r: Vec<char>)
    requires
        lo <= hi <= s.len(),
    ensures
        r@ == s@.subrange(lo as int, hi as int),
{
    let mut out: Vec<char> = Vec::new();
    let mut k = lo;
    while k < hi
        invariant
            lo <= k <= hi <= s.len(),
            out@ == s@.subrange(lo as int, k as int),
        decreases hi - k,
    {
        out.push(s[k]);
        proof {
            assert(s@.subrange(lo as int, k + 1) =~= s@.subrange(lo as int, k as int).push(s@[k as int]));
        }
        k = k + 1;
    }
    out
}

/// `s` without leading and trailing white space.
pub fn trim_chars(s: &[char]) -> (r: Vec<char>)
    ensures
        r@ == trimmed(s@),
{
    let mut lo: usize = 0;
    while lo < s.len() && is_white(s[lo])
        invariant
            lo <= s.len(),
            skip_white(s@, lo as int) == skip_white(s@, 0),
        decreases s.len() - lo,
    {
        lo = lo + 1;
    }
    let mut hi: usize = s.len();
    while hi > 0 && is_white(s[hi - 1])
        invariant
            hi <= s.len(),
            back_white(s@, hi as int) == back_white(s@, s@.len() as int),
        decreases hi,
    {
        hi = hi - 1;
    }
    if lo < hi {
        copy_chars(s, lo, hi)
    } else {
        Vec::new()
    }
}

pub fn starts_with_chars(t: &[char], p: &str) -> (r: bool)
    ensures
        r == starts_with(t@, p@),
{
    let pc = chars_of(p);
    if pc.len() > t.len() {
        return false;
    }
    let mut k: usize = 0;
    while k < pc.len()
        invariant
            k <= pc.len() <= t.len(),
            pc@ == p@,
            forall|m: int| 0 <= m < k ==> t@[m] == pc@[m],
        decreases pc.len() - k,
    {
        if t[k] != pc[k] {
            assert(t@.subrange(0, pc@.len() as int)[k as int] != p@[k as int]);
            return false;
        }
        k = k + 1;
    }
    assert(t@.subrange(0, pc@.len() as int) =~= p@);
    true
}

pub fn text_len(p: &str) -> (n: usize)
    ensures
        n == p@.len(),
{
    chars_of(p).len()
}

/// Splits `s` at each newline; the last piece is kept even when empty.
pub fn split_lines_of(s: &[char]) -> (r: Vec<Vec<char>>)
    ensures
        char_lines(r@) == split_lines(s@),
{
    let mut done: Vec<Vec<char>> = Vec::new();
    let mut cur: Vec<char> = Vec::new();
    let mut k: usize = 0;
    while k < s.len()
        invariant
            k <= s.len(),
            char_lines(done@).push(cur@) == split_lines(s@.take(k as int)),
        decreases s.len() - k,
    {
        let ghost prev = char_lines(done@).push(cur@);
        proof {
            assert(s@.take(k + 1).drop_last() =~= s@.take(k as int));
            assert(s@.take(k + 1).last() == s@[k as int]);
        }
        if s[k] == '\n' {
            done.push(cur);
            cur = Vec::new();
            assert(char_lines(done@).push(cur@) =~= prev.push(Seq::empty()));
        } else {
            cur.push(s[k]);
            assert(char_lines(done@).push(cur@) =~= prev.update(prev.len() - 1, prev.last().push(s@[k as int])));
        }
        k = k + 1;
    }
    done.push(cur);
    assert(s@.take(s@.len() as int) =~= s@);
    assert(char_lines(done@) =~= split_lines(s@));
    done
}

pub fn split_words(s: &[char]) -> (r: Vec<Vec<char>>)
    ensures
        char_lines(r@) == words(s@),
{
    let mut done: Vec<Vec<char>> = Vec::new();
    let mut cur: Vec<char> = Vec::new();
    let mut k: usize = 0;
    while k < s.len()
        invariant
            k <= s.len(),
            (char_lines(done@), cur@) == words_upto(s@, k as nat),
        decreases s.len() - k,
    {
        if is_white(s[k]) {
            if cur.len() > 0 {
                let ghost before = char_lines(done@);
                done.push(cur);
                cur = Vec::new();
                assert(char_lines(done@) =~= before.push(words_upto(s@, k as nat).1));
            }
        } else {
            cur.push(s[k]);
        }
        k = k + 1;
    }
    if cur.len() > 0 {
        let ghost before = char_lines(done@);
        done.push(cur);
        assert(char_lines(done@) =~= before.push(words_upto(s@, s@.len()).1));
    }
    done
}

pub fn append_chars(out: &mut Vec<char>, more: &[char])
    ensures
        final(out)@ == old(out)@ + more@,
{
    let mut k: usize = 0;
    let ghost start = out@;
    while k < more.len()
        invariant
            k <= more.len(),
            out@ == start + more@.subrange(0, k as int),
        decreases more.len() - k,
    {
        out.push(more[k]);
        proof {
            assert(more@.subrange(0, k + 1) =~= more@.subrange(0, k as int).push(more@[k as int]));
        }
        k = k + 1;
    }
    assert(more@.subrange(0, more@.len() as int) =~= more@);
}

pub fn join_chars(parts: &Vec<Vec<char>>, sep: &str) -> (r: Vec<char>)
    ensures
        r@ == join(char_lines(parts@), sep@),
{
    let sep_chars = chars_of(sep);
    let mut out: Vec<char> = Vec::new();
    let mut k: usize = 0;
    while k < parts.len()
        invariant
            k <= parts.len(),
            sep_chars@ == sep@,
            out@ == join(char_lines(parts@).take(k as int), sep@),
        decreases parts.len() - k,
    {
        let ghost prev = char_lines(parts@).take(k as int);
        assert(char_lines(parts@).take(k + 1).drop_last() =~= prev);
        if k > 0 {
            append_chars(&mut out, sep_chars.as_slice());
        } else {
            assert(char_lines(parts@).take(1) =~= seq![parts@[0]@]);
        }
        append_chars(&mut out, parts[k].as_slice());
        k = k + 1;
    }
    assert(char_lines(parts@).take(parts@.len() as int) =~= char_lines(parts@));
    out
}

/// An ASCII decimal digit.
pub open spec fn is_digit(c: char) -> bool {
    '0' <= c <= '9'
}

/// Value of a string of decimal digits.
pub open spec fn digits_value(s: Seq<char>) -> nat
    decreases s.len(),
{
    if s.len() == 0 {
        0
    } else {
        digits_value(s.drop_last()) * 10 + ((s.last() as u32) - ('0' as u32)) as nat
    }
}

/// The digits of an unsigned literal: `s` without one leading `+`.
pub open spec fn unsigned_body(s: Seq<char>) -> Seq<char> {
    if s.len() > 0 && s[0] == '+' {
        s.skip(1)
    } else {
        s
    }
}

/// Every character of `s` is a decimal digit.
pub open spec fn all_digits(s: Seq<char>) -> bool {
    forall|i: int| 0 <= i < s.len() ==> is_digit(#[trigger] s[i])
}

/// An unsigned integer as `str::parse` reads it: an optional `+`, then one
/// or more decimal digits, with a value of at most `max`.
pub open spec fn parse_unsigned(s: Seq<char>, max: nat) -> Option<nat> {
    let body = unsigned_body(s);
    if body.len() > 0 && all_digits(body) && digits_value(body) <= max {
        Some(digits_value(body))
    } else {
        None
    }
}

/// A prefix of digits never has a larger value than the whole.
pub proof fn lemma_digits_monotone(s: Seq<char>, n: int)
    requires
        0 <= n <= s.len(),
        all_digits(s),
    ensures
        digits_value(s.take(n)) <= digits_value(s),
    decreases s.len() - n,
{
    if n < s.len() {
        lemma_digits_monotone(s, n + 1);
        assert(s.take(n + 1).drop_last() =~= s.take(n));
    } else {
        assert(s.take(n) =~= s);
    }
}

/// Parses an unsigned decimal (optional `+`) no larger than `max`.
pub fn parse_unsigned_chars(s: &[char], max: u64) -> (r: Option<u64>)
    ensures
        match r {
            Some(v) => parse_unsigned(s@, max as nat) == Some(v as nat),
            None => parse_unsigned(s@, max as nat) is None,
        },
{
    let start: usize = if s.len() > 0 && s[0] == '+' {
        1
    } else {
        0
    };
    let ghost body = unsigned_body(s@);
    assert(body =~= s@.skip(start as int));
    if start >= s.len() {
        return None;
    }
    let mut value: u64 = 0;
    let mut k = start;
    while k < s.len()
        invariant
            start <= k <= s.len(),
            start < s.len(),
            body == s@.skip(start as int),
            body == unsigned_body(s@),
            forall|i: int| start <= i < k ==> is_digit(#[trigger] s@[i]),
            value as nat == digits_value(s@.subrange(start as int, k as int)),
            value <= max,
        decreases s.len() - k,
    {
        let c = s[k];
        if !('0' <= c && c <= '9') {
            assert(body[k - start] == c);
            assert(!is_digit(body[k - start]));
            assert(!all_digits(body));
            return None;
        }
        let d = (c as u32 - '0' as u32) as u64;
        assert(s@.subrange(start as int, k + 1).drop_last() =~= s@.subrange(start as int, k as int));
        if d > max || value > (max - d) / 10 {
            proof {
                assert(value * 10 + d > max) by (nonlinear_arith)
                    requires
                        d > max || value > (max - d) / 10,
                        d <= 9,
                ;
                assert(digits_value(s@.subrange(start as int, k + 1)) == value * 10 + d);
                if all_digits(body) {
                    lemma_digits_monotone(body, k + 1 - start);
                    assert(body.take(k + 1 - start) =~= s@.subrange(start as int, k + 1));
                }
            }
            return None;
        }
        value = value * 10 + d;
        k = k + 1;
    }
    assert(s@.subrange(start as int, s@.len() as int) =~= body);
    Some(value)
}

/// The pieces of `s` between occurrences of `sep` (`str::split`).
pub open spec fn split_on(s: Seq<char>, sep: char) -> Seq<Seq<char>>
    decreases s.len(),
{
    if s.len() == 0 {
        seq![Seq::empty()]
    } else {
        let prev = split_on(s.drop_last(), sep);
        if s.last() == sep {
            prev.push(Seq::empty())
        } else {
            prev.update(prev.len() - 1, prev.last().push(s.last()))
        }
    }
}

/// Splits `s` at every `sep`.
pub fn split_on_char(s: &[char], sep: char) -> (r: Vec<Vec<char>>)
    ensures
        char_lines(r@) == split_on(s@, sep),
        r@.len() >= 1,
{
    let mut done: Vec<Vec<char>> = Vec::new();
    let mut cur: Vec<char> = Vec::new();
    let mut k: usize = 0;
    while k < s.len()
        invariant
            k <= s.len(),
            char_lines(done@).push(cur@) == split_on(s@.take(k as int), sep),
        decreases s.len() - k,
    {
        let ghost prev = char_lines(done@).push(cur@);
        proof {
            assert(s@.take(k + 1).drop_last() =~= s@.take(k as int));
            assert(s@.take(k + 1).last() == s@[k as int]);
        }
        if s[k] == sep {
            done.push(cur);
            cur = Vec::new();
            assert(char_lines(done@).push(cur@) =~= prev.push(Seq::empty()));
        } else {
            cur.push(s[k]);
            assert(char_lines(done@).push(cur@) =~= prev.update(prev.len() - 1, prev.last().push(s@[k as int])));
        }
        k = k + 1;
    }
    done.push(cur);
    assert(s@.take(s@.len() as int) =~= s@);
    assert(char_lines(done@) =~= split_on(s@, sep));
    done
}

/// A line without one trailing carriage return.
pub open spec fn drop_cr(p: Seq<char>) -> Seq<char> {
    if p.len() > 0 && p.last() == '\r' {
        p.drop_last()
    } else {
        p
    }
}

/// Lines as `BufRead::lines` yields them: split at `\n`, a `\r` before
/// each `\n` removed, and no empty line after a final newline.
pub open spec fn read_lines(text: Seq<char>) -> Seq<Seq<char>> {
    let pieces = split_on(text, '\n');
    let body = Seq::new((pieces.len() - 1) as nat, |k: int| drop_cr(pieces[k]));
    if pieces.last().len() > 0 {
        body.push(pieces.last())
    } else {
        body
    }
}

/// The lines of `text`, as `BufRead::lines` yields them.
pub fn read_lines_of(text: &[char]) -> (r: Vec<Vec<char>>)
    ensures
        char_lines(r@) == read_lines(text@),
{
    let pieces = split_on_char(text, '\n');
    let ghost views = char_lines(pieces@);
    let n = pieces.len();
    let mut out: Vec<Vec<char>> = Vec::new();
    let mut k: usize = 0;
    while k + 1 < n
        invariant
            n == pieces.len(),
            n >= 1,
            k < n,
            views == char_lines(pieces@),
            char_lines(out@) == Seq::new(k as nat, |m: int| drop_cr(views[m])),
        decreases n - k,
    {
        let p = &pieces[k];
        let line = if p.len() > 0 && p[p.len() - 1] == '\r' {
            copy_chars(p.as_slice(), 0, p.len() - 1)
        } else {
            p.clone()
        };
        assert(views[k as int] == p@);
        assert(line@ =~= drop_cr(views[k as int]));
        let ghost before = char_lines(out@);
        out.push(line);
        assert(char_lines(out@) =~= before.push(line@));
        assert(before.push(line@) =~= Seq::new((k + 1) as nat, |m: int| drop_cr(views[m])));
        k = k + 1;
    }
    let last = &pieces[n - 1];
    assert(views[n - 1] == last@);
    if last.len() > 0 {
        let ghost before = char_lines(out@);
        out.push(last.clone());
        assert(char_lines(out@) =~= before.push(last@));
    }
    out
}

} // verus!
