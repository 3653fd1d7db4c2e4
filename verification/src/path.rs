//! Slash-separated path normalization shared by joins and package discovery.
use crate::text::{chars_of, string_from};
use vstd::prelude::*;

verus! {

/// The character views of a list of strings.
pub open spec fn texts(v: Seq<String>) -> Seq<Seq<char>> {
    Seq::new(v.len(), |i: int| v[i]@)
}

/// `..` as a path component.
pub open spec fn parent_part() -> Seq<char> {
    seq!['.', '.']
}

/// A backslash inside a component reads as a forward slash.
pub open spec fn normalize_char(c: char) -> char {
    if c == '\\' {
        '/'
    } else {
        c
    }
}

/// Applies one raw component to the normalized component stack.
///
/// Empty components and `.` vanish; `..` pops a real component or stays
/// when nothing can be popped; other parts are pushed.
pub open spec fn push_segment(stack: Seq<Seq<char>>, seg: Seq<char>) -> Seq<Seq<char>> {
    if seg.len() == 0 || seg == seq!['.'] {
        stack
    } else if seg == parent_part() {
        if stack.len() > 0 && stack.last() != parent_part() {
            stack.drop_last()
        } else {
            stack.push(parent_part())
        }
    } else {
        stack.push(seg.map_values(|c: char| normalize_char(c)))
    }
}

/// Stack and pending component after reading the first `i` characters of `p`.
pub open spec fn split_state(p: Seq<char>, i: nat) -> (Seq<Seq<char>>, Seq<char>)
    decreases i,
{
    if i == 0 || i > p.len() {
        (Seq::empty(), Seq::empty())
    } else {
        let prev = split_state(p, (i - 1) as nat);
        if p[i - 1] == '/' {
            (push_segment(prev.0, prev.1), Seq::empty())
        } else {
            (prev.0, prev.1.push(p[i - 1]))
        }
    }
}

/// Normalized components of a `/`-separated path (root and `.` dropped, `..` folded).
pub open spec fn components_spec(p: Seq<char>) -> Seq<Seq<char>> {
    let st = split_state(p, p.len());
    push_segment(st.0, st.1)
}

fn is_dot(seg: &Vec<char>) -> (r: bool)
    ensures
        r == (seg@ == seq!['.']),
{
    if seg.len() == 1 && seg[0] == '.' {
        assert(seg@ =~= seq!['.']);
        true
    } else {
        false
    }
}

fn is_dot_dot_chars(seg: &[char]) -> (r: bool)
    ensures
        r == (seg@ == parent_part()),
{
    if seg.len() == 2 && seg[0] == '.' && seg[1] == '.' {
        assert(seg@ =~= parent_part());
        true
    } else {
        false
    }
}

/// Whether `s` is the `..` component.
pub fn is_parent_part(s: &String) -> (r: bool)
    ensures
        r == (s@ == parent_part()),
{
    let cs = chars_of(s.as_str());
    is_dot_dot_chars(cs.as_slice())
}

fn push_segment_exec(stack: &mut Vec<String>, seg: &Vec<char>)
    ensures
        texts(final(stack)@) == push_segment(texts(old(stack)@), seg@),
{
    let ghost before = texts(stack@);
    if seg.len() == 0 || is_dot(seg) {
        return;
    }
    if is_dot_dot_chars(seg.as_slice()) {
        let n = stack.len();
        if n > 0 && !is_parent_part(&stack[n - 1]) {
            stack.pop();
            assert(texts(stack@) =~= before.drop_last());
        } else {
            let dd = string_from(seg.as_slice());
            stack.push(dd);
            assert(texts(stack@) =~= before.push(parent_part()));
        }
        return;
    }
    let mut mapped: Vec<char> = Vec::new();
    let mut k: usize = 0;
    while k < seg.len()
        invariant
            k <= seg.len(),
            mapped@ == seg@.take(k as int).map_values(|c: char| normalize_char(c)),
        decreases seg.len() - k,
    {
        let c = seg[k];
        mapped.push(if c == '\\' { '/' } else { c });
        proof {
            assert(seg@.take(k as int + 1).map_values(|c: char| normalize_char(c))
                =~= seg@.take(k as int).map_values(|c: char| normalize_char(c)).push(
                normalize_char(c),
            ));
        }
        k = k + 1;
    }
    assert(seg@.take(seg.len() as int) =~= seg@);
    let part = string_from(mapped.as_slice());
    stack.push(part);
    assert(texts(stack@) =~= before.push(seg@.map_values(|c: char| normalize_char(c))));
}

/// Normalized components of a `/`-separated path.
///
/// Empty parts and `.` vanish, `..` removes the previous real component (or
/// stays when there is none), and backslashes inside a part become `/`.
pub fn components(path: &str) -> (r: Vec<String>)
    ensures
        texts(r@) == components_spec(path@),
{
    let cs = chars_of(path);
    let mut stack: Vec<String> = Vec::new();
    let mut cur: Vec<char> = Vec::new();
    let mut k: usize = 0;
    assert(texts(stack@) =~= Seq::<Seq<char>>::empty());
    while k < cs.len()
        invariant
            k <= cs.len(),
            cs@ == path@,
            (texts(stack@), cur@) == split_state(path@, k as nat),
        decreases cs.len() - k,
    {
        let c = cs[k];
        if c == '/' {
            push_segment_exec(&mut stack, &cur);
            cur = Vec::new();
            assert(cur@ =~= Seq::<char>::empty());
        } else {
            cur.push(c);
        }
        k = k + 1;
    }
    push_segment_exec(&mut stack, &cur);
    stack
}

/// Whether two component lists are equal.
pub fn parts_eq(a: &[String], b: &[String]) -> (r: bool)
    ensures
        r == (texts(a@) == texts(b@)),
{
    if a.len() != b.len() {
        proof {
            assert(texts(a@).len() != texts(b@).len());
        }
        return false;
    }
    let mut k: usize = 0;
    while k < a.len()
        invariant
            k <= a.len(),
            a.len() == b.len(),
            forall|m: int| 0 <= m < k ==> #[trigger] a@[m]@ == b@[m]@,
        decreases a.len() - k,
    {
        if a[k] != b[k] {
            proof {
                assert(texts(a@)[k as int] != texts(b@)[k as int]);
            }
            return false;
        }
        k = k + 1;
    }
    assert(texts(a@) =~= texts(b@));
    true
}

} // verus!
