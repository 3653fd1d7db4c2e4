//! Unix paths read component by component, the way `std::path::Path`
//! compares, prefixes, and names them on Unix hosts. On Windows, `Path`
//! also splits on `\` and reads drive and UNC prefixes, which this model
//! does not: there the library reads paths with Unix syntax only.
use crate::path::{parts_eq, texts};
use crate::text::{chars_of, concat, owned, str_eq, string_from, text_before, text_lt};
use vstd::prelude::*;

verus! {

/// The pieces of `p` between `/` separators (empty pieces included).
pub open spec fn slash_pieces(p: Seq<char>) -> Seq<Seq<char>>
    decreases p.len(),
{
    if p.len() == 0 {
        seq![Seq::empty()]
    } else {
        let prev = slash_pieces(p.drop_last());
        if p.last() == '/' {
            prev.push(Seq::empty())
        } else {
            prev.update(prev.len() - 1, prev.last().push(p.last()))
        }
    }
}

/// The root component.
pub open spec fn root_part() -> Seq<char> {
    seq!['/']
}

/// Whether `p` starts at the root.
pub open spec fn rooted(p: Seq<char>) -> bool {
    p.len() > 0 && p[0] == '/'
}

/// The pieces among the first `n` that are components: empty pieces and
/// `.` vanish, except a `.` that starts a relative path.
pub open spec fn kept_pieces(pieces: Seq<Seq<char>>, is_rooted: bool, n: nat) -> Seq<Seq<char>>
    decreases n,
{
    if n == 0 || n > pieces.len() {
        Seq::empty()
    } else {
        let prev = kept_pieces(pieces, is_rooted, (n - 1) as nat);
        let piece = pieces[n - 1];
        if piece.len() == 0 || (piece == seq!['.'] && !(n == 1 && !is_rooted)) {
            prev
        } else {
            prev.push(piece)
        }
    }
}

/// The components of a Unix path: `/` for the root, then the names, with
/// `.` kept only at the start of a relative path and `..` kept as is.
pub open spec fn rust_parts(p: Seq<char>) -> Seq<Seq<char>> {
    let pieces = slash_pieces(p);
    let rest = kept_pieces(pieces, rooted(p), pieces.len());
    if rooted(p) {
        seq![root_part()] + rest
    } else {
        rest
    }
}

/// `base`'s components are a prefix of `p`'s (`Path::starts_with`).
pub open spec fn path_starts_with(p: Seq<char>, base: Seq<char>) -> bool {
    let a = rust_parts(p);
    let b = rust_parts(base);
    b.len() <= a.len() && a.subrange(0, b.len() as int) == b
}

/// The last component when it is a name (`Path::file_name`).
pub open spec fn file_name(p: Seq<char>) -> Option<Seq<char>> {
    let parts = rust_parts(p);
    if parts.len() > 0 && parts.last() != root_part() && parts.last() != seq!['.']
        && parts.last() != seq!['.', '.'] {
        Some(parts.last())
    } else {
        None
    }
}

fn split_slashes(p: &[char]) -> (r: Vec<Vec<char>>)
    ensures
        Seq::new(r@.len(), |k: int| r@[k]@) == slash_pieces(p@),
{
    let mut done: Vec<Vec<char>> = Vec::new();
    let mut cur: Vec<char> = Vec::new();
    let mut k: usize = 0;
    while k < p.len()
        invariant
            k <= p.len(),
            Seq::new(done@.len(), |m: int| done@[m]@).push(cur@) == slash_pieces(p@.take(k as int)),
        decreases p.len() - k,
    {
        let ghost prev = Seq::new(done@.len(), |m: int| done@[m]@).push(cur@);
        proof {
            assert(p@.take(k + 1).drop_last() =~= p@.take(k as int));
            assert(p@.take(k + 1).last() == p@[k as int]);
        }
        if p[k] == '/' {
            done.push(cur);
            cur = Vec::new();
            assert(Seq::new(done@.len(), |m: int| done@[m]@).push(cur@) =~= prev.push(Seq::empty()));
        } else {
            cur.push(p[k]);
            assert(Seq::new(done@.len(), |m: int| done@[m]@).push(cur@) =~= prev.update(
                prev.len() - 1,
                prev.last().push(p@[k as int]),
            ));
        }
        k = k + 1;
    }
    done.push(cur);
    assert(p@.take(p@.len() as int) =~= p@);
    assert(Seq::new(done@.len(), |m: int| done@[m]@) =~= slash_pieces(p@));
    done
}

/// The components of a Unix path, as `std::path::Path::components` gives them.
pub fn path_parts(p: &str) -> (r: Vec<String>)
    ensures
        texts(r@) == rust_parts(p@),
{
    let cs = chars_of(p);
    let pieces = split_slashes(cs.as_slice());
    let ghost views = Seq::new(pieces@.len(), |m: int| pieces@[m]@);
    let is_rooted = cs.len() > 0 && cs[0] == '/';
    let mut out: Vec<String> = Vec::new();
    if is_rooted {
        out.push(owned("/"));
        proof {
            reveal_strlit("/");
            assert("/"@ =~= root_part());
            assert(texts(out@) =~= seq![root_part()]);
        }
    } else {
        assert(texts(out@) =~= Seq::<Seq<char>>::empty());
    }
    let ghost head = texts(out@);
    assert(head == (if rooted(p@) { seq![root_part()] } else { Seq::<Seq<char>>::empty() }));
    let mut k: usize = 0;
    while k < pieces.len()
        invariant
            k <= pieces.len(),
            views == Seq::new(pieces@.len(), |m: int| pieces@[m]@),
            views == slash_pieces(p@),
            is_rooted == rooted(p@),
            texts(out@) == head + kept_pieces(views, is_rooted, k as nat),
        decreases pieces.len() - k,
    {
        let piece = &pieces[k];
        let is_dot = piece.len() == 1 && piece[0] == '.';
        assert(is_dot == (piece@ == seq!['.'])) by {
            if piece@ == seq!['.'] {
                assert(piece@.len() == 1);
            }
            if is_dot {
                assert(piece@ =~= seq!['.']);
            }
        }
        assert(views[k as int] == piece@);
        if piece.len() == 0 || (is_dot && !(k == 0 && !is_rooted)) {
        } else {
            let ghost before = texts(out@);
            out.push(string_from(piece.as_slice()));
            assert(texts(out@) =~= before.push(piece@));
        }
        k = k + 1;
    }
    out
}

/// Whether two paths have the same components (`Path` equality).
pub fn same_path(a: &str, b: &str) -> (r: bool)
    ensures
        r == (rust_parts(a@) == rust_parts(b@)),
{
    let pa = path_parts(a);
    let pb = path_parts(b);
    parts_eq(pa.as_slice(), pb.as_slice())
}

/// Whether `p` lies under `base` component by component (`Path::starts_with`).
pub fn starts_with_path(p: &str, base: &str) -> (r: bool)
    ensures
        r == path_starts_with(p@, base@),
{
    let pa = path_parts(p);
    let pb = path_parts(base);
    if pb.len() > pa.len() {
        return false;
    }
    let head = crate::path_index::copy_parts(&pa.as_slice()[0..pb.len()]);
    assert(texts(head@) =~= texts(pa@).subrange(0, pb@.len() as int));
    parts_eq(head.as_slice(), pb.as_slice())
}

/// The last component of `p` when it is a name (`Path::file_name`).
pub fn file_name_of(p: &str) -> (r: Option<String>)
    ensures
        match r {
            Some(n) => file_name(p@) == Some(n@),
            None => file_name(p@) is None,
        },
{
    let parts = path_parts(p);
    let n = parts.len();
    if n == 0 {
        return None;
    }
    let last = &parts[n - 1];
    assert(texts(parts@)[n - 1] == last@);
    let cs = chars_of(last.as_str());
    proof {
        reveal_strlit("/");
    }
    let is_root = cs.len() == 1 && cs[0] == '/';
    let is_dot = cs.len() == 1 && cs[0] == '.';
    let is_dot_dot = cs.len() == 2 && cs[0] == '.' && cs[1] == '.';
    assert(is_root == (last@ == root_part())) by {
        if last@ == root_part() {
            assert(cs@.len() == 1);
        }
        if is_root {
            assert(cs@ =~= root_part());
        }
    }
    assert(is_dot == (last@ == seq!['.'])) by {
        if last@ == seq!['.'] {
            assert(cs@.len() == 1);
        }
        if is_dot {
            assert(cs@ =~= seq!['.']);
        }
    }
    assert(is_dot_dot == (last@ == seq!['.', '.'])) by {
        if last@ == seq!['.', '.'] {
            assert(cs@.len() == 2);
        }
        if is_dot_dot {
            assert(cs@ =~= seq!['.', '.']);
        }
    }
    if is_root || is_dot || is_dot_dot {
        None
    } else {
        Some(last.clone())
    }
}

/// `base` joined with the relative path `rel` (`Path::join`): `rel` itself
/// when it is absolute or `base` is empty, otherwise the two with one `/`
/// between them.
pub open spec fn joined(base: Seq<char>, rel: Seq<char>) -> Seq<char> {
    if rooted(rel) || base.len() == 0 {
        rel
    } else if base.last() == '/' {
        base + rel
    } else {
        base + seq!['/'] + rel
    }
}

/// `base` joined with `rel`, as `Path::join` builds it.
pub fn join_path(base: &str, rel: &str) -> (r: String)
    ensures
        r@ == joined(base@, rel@),
{
    let bc = chars_of(base);
    let rc = chars_of(rel);
    if (rc.len() > 0 && rc[0] == '/') || bc.len() == 0 {
        return owned(rel);
    }
    if bc[bc.len() - 1] == '/' {
        return concat(base, rel);
    }
    let head = concat(base, "/");
    proof {
        reveal_strlit("/");
    }
    concat(head.as_str(), rel)
}

/// Whether `p` has a final component that can be dropped: it is not empty
/// and does not end in its root.
pub open spec fn has_parent(p: Seq<char>) -> bool {
    rust_parts(p).len() > 0 && rust_parts(p).last() != root_part()
}

/// The path without its final component (`std::path::Path::parent`).
///
/// The documentation of `Path::parent` says that it returns the path
/// without its final component, and `None` when the path ends in its root
/// or is empty; the contract states that over the component model above.
/// Which of the equivalent spellings of the shorter path comes back
/// (`Path::parent` hands back a slice of `p`) is left unsaid. The model is
/// Unix path syntax, so this holds on Unix hosts; on Windows, where `Path`
/// also splits on `\` and reads drive prefixes, a path holding either may
/// have another parent than the model says.
#[verifier::external_body]
pub(crate) fn parent_path(p: &str) -> (r: Option<String>)
    ensures
        r is Some <==> has_parent(p@),
        r matches Some(q) ==> rust_parts(q@) == rust_parts(p@).drop_last(),
{
    std::path::Path::new(p).parent().map(|q| q.to_string_lossy().into_owned())
}

/// The directories from `p` up to its last ancestor: `p` itself, then each
/// parent in turn (`Path::pop` until it fails).
pub fn ancestors(p: &str) -> (r: Vec<String>)
    ensures
        r@.len() >= 1,
        r@[0]@ == p@,
        forall|k: int| 0 <= k < r@.len() - 1 ==> has_parent(#[trigger] r@[k]@) && rust_parts(r@[k + 1]@)
            == rust_parts(r@[k]@).drop_last(),
        !has_parent(r@[r@.len() - 1]@),
{
    let mut out: Vec<String> = Vec::new();
    let mut cur = owned(p);
    loop
        invariant
            out@.len() >= 1 ==> out@[0]@ == p@,
            out@.len() == 0 ==> cur@ == p@,
            out@.len() >= 1 ==> has_parent(out@[out@.len() - 1]@) && rust_parts(cur@) == rust_parts(
                out@[out@.len() - 1]@,
            ).drop_last(),
            forall|k: int| 0 <= k < out@.len() - 1 ==> has_parent(#[trigger] out@[k]@) && rust_parts(out@[k + 1]@)
                == rust_parts(out@[k]@).drop_last(),
        decreases rust_parts(cur@).len(),
    {
        let next = parent_path(cur.as_str());
        let ghost before = out@;
        let ghost at = cur@;
        out.push(cur);
        match next {
            Some(q) => {
                proof {
                    assert(out@[out@.len() - 1]@ == at);
                    assert forall|k: int| 0 <= k < out@.len() - 1 implies has_parent(#[trigger] out@[k]@)
                        && rust_parts(out@[k + 1]@) == rust_parts(out@[k]@).drop_last() by {
                        if k < before.len() - 1 {
                            assert(out@[k] == before[k] && out@[k + 1] == before[k + 1]);
                        } else {
                            assert(out@[k] == before[k]);
                        }
                    }
                }
                cur = q;
            },
            None => {
                proof {
                    assert forall|k: int| 0 <= k < out@.len() - 1 implies has_parent(#[trigger] out@[k]@)
                        && rust_parts(out@[k + 1]@) == rust_parts(out@[k]@).drop_last() by {
                        if k < before.len() - 1 {
                            assert(out@[k] == before[k] && out@[k + 1] == before[k + 1]);
                        } else {
                            assert(out@[k] == before[k]);
                        }
                    }
                }
                return out;
            },
        }
    }
}

/// Where a component sorts among the kinds of components: the root, then
/// `.`, then `..`, then names (`std::path::Component`'s order).
pub open spec fn part_rank(q: Seq<char>) -> int {
    if q == root_part() {
        1
    } else if q == seq!['.'] {
        2
    } else if q == seq!['.', '.'] {
        3
    } else {
        4
    }
}

/// Component `a` sorts before component `b`.
pub open spec fn part_lt(a: Seq<char>, b: Seq<char>) -> bool {
    part_rank(a) < part_rank(b) || (part_rank(a) == 4 && part_rank(b) == 4 && text_lt(a, b))
}

/// Components `x` sort before components `y`, one by one, a proper prefix
/// first.
pub open spec fn parts_lt(x: Seq<Seq<char>>, y: Seq<Seq<char>>) -> bool
    decreases x.len(),
{
    if y.len() == 0 {
        false
    } else if x.len() == 0 {
        true
    } else if x[0] != y[0] {
        part_lt(x[0], y[0])
    } else {
        parts_lt(x.skip(1), y.skip(1))
    }
}

/// Path `a` sorts before path `b` (`Path`'s order: by components).
pub open spec fn path_lt(a: Seq<char>, b: Seq<char>) -> bool {
    parts_lt(rust_parts(a), rust_parts(b))
}

/// The first index at or after `k` whose path sorts after `key`.
pub open spec fn first_path_after(paths: Seq<Seq<char>>, key: Seq<char>, k: int) -> int
    decreases paths.len() - k,
{
    if 0 <= k < paths.len() && !path_lt(key, paths[k]) {
        first_path_after(paths, key, k + 1)
    } else {
        k
    }
}

/// The texts of a list of strings.
pub open spec fn path_texts(v: Seq<String>) -> Seq<Seq<char>> {
    Seq::new(v.len(), |k: int| v[k]@)
}

/// `v` sorted by path, equal paths kept in their order.
pub open spec fn sorted_paths(v: Seq<String>) -> Seq<String>
    decreases v.len(),
{
    if v.len() == 0 {
        Seq::empty()
    } else {
        let prev = sorted_paths(v.drop_last());
        prev.insert(first_path_after(path_texts(prev), v.last()@, 0), v.last())
    }
}

fn part_rank_of(q: &String) -> (r: u8)
    ensures
        r == part_rank(q@),
{
    proof {
        reveal_strlit("/");
        reveal_strlit(".");
        reveal_strlit("..");
        assert("/"@ =~= root_part());
        assert("."@ =~= seq!['.']);
        assert(".."@ =~= seq!['.', '.']);
    }
    if str_eq(q.as_str(), "/") {
        1
    } else if str_eq(q.as_str(), ".") {
        2
    } else if str_eq(q.as_str(), "..") {
        3
    } else {
        4
    }
}

fn part_before(a: &String, b: &String) -> (r: bool)
    ensures
        r == part_lt(a@, b@),
{
    let ra = part_rank_of(a);
    let rb = part_rank_of(b);
    ra < rb || (ra == 4 && rb == 4 && text_before(a.as_str(), b.as_str()))
}

fn parts_before(x: &Vec<String>, y: &Vec<String>) -> (r: bool)
    ensures
        r == parts_lt(texts(x@), texts(y@)),
{
    let ghost tx = texts(x@);
    let ghost ty = texts(y@);
    let mut k: usize = 0;
    assert(tx.skip(0) =~= tx);
    assert(ty.skip(0) =~= ty);
    while k < x.len() && k < y.len() && str_eq(x[k].as_str(), y[k].as_str())
        invariant
            k <= x@.len(),
            k <= y@.len(),
            tx == texts(x@),
            ty == texts(y@),
            parts_lt(tx.skip(k as int), ty.skip(k as int)) == parts_lt(tx, ty),
        decreases x.len() - k,
    {
        proof {
            assert(tx.skip(k as int)[0] == x@[k as int]@);
            assert(ty.skip(k as int)[0] == y@[k as int]@);
            assert(tx.skip(k as int).skip(1) =~= tx.skip(k + 1));
            assert(ty.skip(k as int).skip(1) =~= ty.skip(k + 1));
        }
        k = k + 1;
    }
    let ghost sx = tx.skip(k as int);
    let ghost sy = ty.skip(k as int);
    if k >= y.len() {
        assert(sy.len() == 0);
        false
    } else if k >= x.len() {
        assert(sx.len() == 0);
        true
    } else {
        assert(sx[0] == x@[k as int]@ && sy[0] == y@[k as int]@);
        part_before(&x[k], &y[k])
    }
}

/// Paths sorted as `Path` orders them (by components); equal paths keep
/// their order.
pub fn sort_paths(paths: Vec<String>) -> (r: Vec<String>)
    ensures
        r@ == sorted_paths(paths@),
{
    let ghost input = paths@;
    let total = paths.len();
    let mut rest = paths;
    let mut out: Vec<String> = Vec::new();
    let mut parts: Vec<Vec<String>> = Vec::new();
    let mut n: usize = 0;
    while rest.len() > 0
        invariant
            n + rest@.len() == input.len(),
            input.len() == total,
            rest@ == input.subrange(n as int, input.len() as int),
            out@ == sorted_paths(input.take(n as int)),
            parts@.len() == out@.len(),
            forall|m: int| 0 <= m < out@.len() ==> texts(#[trigger] parts@[m]@) == rust_parts(out@[m]@),
        decreases rest.len(),
    {
        let p = rest.remove(0);
        let pp = path_parts(p.as_str());
        let mut i: usize = 0;
        while i < out.len() && !parts_before(&pp, &parts[i])
            invariant
                i <= out@.len(),
                parts@.len() == out@.len(),
                texts(pp@) == rust_parts(p@),
                forall|m: int| 0 <= m < out@.len() ==> texts(#[trigger] parts@[m]@) == rust_parts(out@[m]@),
                first_path_after(path_texts(out@), p@, i as int) == first_path_after(path_texts(out@), p@, 0),
            decreases out.len() - i,
        {
            assert(path_texts(out@)[i as int] == out@[i as int]@);
            assert(texts(parts@[i as int]@) == rust_parts(out@[i as int]@));
            i = i + 1;
        }
        proof {
            if i < out@.len() {
                assert(path_texts(out@)[i as int] == out@[i as int]@);
                assert(texts(parts@[i as int]@) == rust_parts(out@[i as int]@));
            }
            assert(input.take(n + 1).drop_last() =~= input.take(n as int));
            assert(input.take(n + 1).last() == p);
        }
        let ghost before_out = out@;
        let ghost before_parts = parts@;
        out.insert(i, p);
        parts.insert(i, pp);
        proof {
            assert forall|m: int| 0 <= m < out@.len() implies texts(#[trigger] parts@[m]@) == rust_parts(out@[m]@) by {
                if m < i {
                    assert(out@[m] == before_out[m] && parts@[m] == before_parts[m]);
                } else if m > i {
                    assert(out@[m] == before_out[m - 1] && parts@[m] == before_parts[m - 1]);
                }
            }
        }
        n = n + 1;
    }
    assert(input.take(input.len() as int) =~= input);
    out
}

proof fn lemma_part_lt_order(a: Seq<char>, b: Seq<char>, c: Seq<char>)
    ensures
        part_lt(a, b) ==> !part_lt(b, a),
        part_lt(a, b) && part_lt(b, c) ==> part_lt(a, c),
{
    crate::text::lemma_text_lt_asymmetric(a, b);
    if part_lt(a, b) && part_lt(b, c) && part_rank(a) == 4 && part_rank(b) == 4 && part_rank(c) == 4 {
        crate::text::lemma_text_lt_transitive(a, b, c);
    }
}

/// Of two component lists at most one sorts first.
pub proof fn lemma_parts_lt_asymmetric(x: Seq<Seq<char>>, y: Seq<Seq<char>>)
    ensures
        parts_lt(x, y) ==> !parts_lt(y, x),
    decreases x.len(),
{
    if x.len() > 0 && y.len() > 0 {
        if x[0] != y[0] {
            lemma_part_lt_order(x[0], y[0], y[0]);
        } else {
            lemma_parts_lt_asymmetric(x.skip(1), y.skip(1));
        }
    }
}

/// Sorting component lists is transitive.
pub proof fn lemma_parts_lt_transitive(x: Seq<Seq<char>>, y: Seq<Seq<char>>, z: Seq<Seq<char>>)
    requires
        parts_lt(x, y),
        parts_lt(y, z),
    ensures
        parts_lt(x, z),
    decreases x.len(),
{
    if x.len() > 0 {
        lemma_part_lt_order(x[0], y[0], z[0]);
        lemma_part_lt_order(y[0], x[0], z[0]);
        if x[0] == y[0] && y[0] == z[0] {
            lemma_parts_lt_transitive(x.skip(1), y.skip(1), z.skip(1));
        }
    }
}

proof fn lemma_first_path_after(paths: Seq<Seq<char>>, key: Seq<char>, k: int)
    requires
        0 <= k <= paths.len(),
    ensures
        k <= first_path_after(paths, key, k) <= paths.len(),
        forall|m: int| k <= m < first_path_after(paths, key, k) ==> !path_lt(key, #[trigger] paths[m]),
        first_path_after(paths, key, k) < paths.len() ==> path_lt(key, paths[first_path_after(paths, key, k)]),
    decreases paths.len() - k,
{
    if k < paths.len() && !path_lt(key, paths[k]) {
        lemma_first_path_after(paths, key, k + 1);
    }
}

/// Sorting paths keeps every path, as often as it came, and leaves no path
/// after one that sorts after it.
pub proof fn lemma_sorted_paths(v: Seq<String>)
    ensures
        sorted_paths(v).to_multiset() =~= v.to_multiset(),
        forall|i: int, j: int|
            0 <= i < j < sorted_paths(v).len() ==> !path_lt(#[trigger] sorted_paths(v)[j]@, #[trigger] sorted_paths(v)[i]@),
    decreases v.len(),
{
    broadcast use vstd::seq_lib::group_to_multiset_ensures;
    if v.len() > 0 {
        let prev = sorted_paths(v.drop_last());
        lemma_sorted_paths(v.drop_last());
        let x = v.last();
        let keys = path_texts(prev);
        let p = first_path_after(keys, x@, 0);
        lemma_first_path_after(keys, x@, 0);
        let s = prev.insert(p, x);
        assert(s == sorted_paths(v));
        assert(s.remove(p) =~= prev);
        assert(s[p] == x);
        assert(s.to_multiset().remove(x) =~= prev.to_multiset());
        assert(s.to_multiset().count(x) > 0);
        assert(v.drop_last().push(x) =~= v);
        assert(s.to_multiset() =~= prev.to_multiset().insert(x));
        assert forall|i: int, j: int| 0 <= i < j < s.len() implies !path_lt(#[trigger] s[j]@, #[trigger] s[i]@) by {
            if j < p {
                assert(s[i] == prev[i] && s[j] == prev[j]);
            } else if j == p {
                assert(s[i] == prev[i]);
                assert(keys[i] == prev[i]@);
            } else if i == p {
                assert(s[j] == prev[j - 1]);
                assert(keys[p] == prev[p]@);
                if path_lt(prev[j - 1]@, x@) {
                    if j - 1 == p {
                        lemma_parts_lt_asymmetric(rust_parts(x@), rust_parts(prev[p]@));
                    } else {
                        assert(!path_lt(prev[j - 1]@, prev[p]@));
                        lemma_parts_lt_transitive(rust_parts(prev[j - 1]@), rust_parts(x@), rust_parts(prev[p]@));
                    }
                }
            } else if i < p {
                assert(s[i] == prev[i] && s[j] == prev[j - 1]);
            } else {
                assert(s[i] == prev[i - 1] && s[j] == prev[j - 1]);
            }
        }
    }
}

} // verus!
