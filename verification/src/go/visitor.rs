//! Finds named Go functions and their body spans, and scores each body.
use crate::error::Error;
use crate::go::cognitive::{self, capped, cognitive};
use crate::go::cyclomatic::{self, cyclomatic};
use crate::go::lex::{
    balanced_end, brackets_balanced, byte_at, ident_byte, ident_start, is_ident_byte, is_ident_start,
    is_word, keyword, keyword_bytes, lemma_balanced_end, lemma_balanced_span, lemma_balanced_within,
    lemma_skip_noise, opt_pos, plain, skip_balanced, skip_noise, skip_noise_spec, word_at, Keyword,
    CARRIAGE_RETURN, CLOSE_BRACE, CLOSE_BRACKET, CLOSE_PAREN, DOT, NEWLINE, OPEN_BRACE, OPEN_BRACKET,
    OPEN_PAREN, SPACE, STAR, TAB,
};
use crate::go::complexity::count_metric;
use crate::go::structure::{problem_text, structure_check, validate_structure};
use crate::merge::FunctionComplexity;
use crate::metric::Metric;
use crate::text::{concat, owned, push_char};
use vstd::prelude::*;

verus! {

/// A named function as the scan sees it: name bytes, one-based lines, and
/// the byte span of its `{ ... }` body.
pub struct FnShape {
    pub name: Seq<u8>,
    pub start_line: int,
    pub end_line: int,
    pub body_lo: int,
    pub body_hi: int,
}

/// Space, tab, newline, or carriage return.
pub open spec fn space_byte(c: u8) -> bool {
    c == SPACE || c == TAB || c == NEWLINE || c == CARRIAGE_RETURN
}

/// First position at or after `i` that is not whitespace.
pub open spec fn spaces_end(b: Seq<u8>, i: int) -> int
    decreases b.len() - i,
{
    if 0 <= i < b.len() && space_byte(b[i]) {
        spaces_end(b, i + 1)
    } else {
        i
    }
}

/// First position at or after `j` that cannot continue an identifier.
pub open spec fn ident_end(b: Seq<u8>, j: int) -> int
    decreases b.len() - j,
{
    if 0 <= j < b.len() && ident_byte(b[j]) {
        ident_end(b, j + 1)
    } else {
        j
    }
}

/// The identifier starting at `i` and the position after it.
pub open spec fn ident_at(b: Seq<u8>, i: int) -> Option<(Seq<u8>, int)> {
    if 0 <= i < b.len() && ident_start(b[i]) {
        Some((b.subrange(i, ident_end(b, i + 1)), ident_end(b, i + 1)))
    } else {
        None
    }
}

/// The receiver type name: the first identifier in `[i, end)` after `*`,
/// spaces and tabs.
pub open spec fn receiver_scan(b: Seq<u8>, i: int, end: int) -> Option<Seq<u8>>
    decreases end - i,
{
    if 0 <= i < end && i < b.len() {
        let c = b[i];
        if c == STAR || c == SPACE || c == TAB {
            receiver_scan(b, i + 1, end)
        } else if ident_byte(c) {
            match ident_at(b, i) {
                Some((ty, _)) => Some(ty),
                None => None,
            }
        } else {
            None
        }
    } else {
        None
    }
}

/// The type named inside a receiver `(name *T)` spanning `[lo, hi)`.
pub open spec fn receiver_type(b: Seq<u8>, lo: int, hi: int) -> Option<Seq<u8>> {
    let i = spaces_end(b, lo);
    let start = match ident_at(b, i) {
        Some((_, next)) => spaces_end(b, next),
        None => i,
    };
    receiver_scan(b, start, if hi < b.len() { hi } else { b.len() as int })
}

/// Name of a method `func (recv) Name`, qualified as `Type.Name` when the
/// receiver names a type; `None` for a function literal.
pub open spec fn method_name(b: Seq<u8>, i: int) -> Option<(Seq<u8>, int)> {
    match balanced_end(b, i, OPEN_PAREN, CLOSE_PAREN) {
        None => None,
        Some(after_recv) => match ident_at(b, spaces_end(b, after_recv)) {
            None => None,
            Some((name, next)) => Some(
                (
                    match receiver_type(b, i + 1, after_recv - 1) {
                        Some(ty) => ty + seq![DOT] + name,
                        None => name,
                    },
                    next,
                ),
            ),
        },
    }
}

/// The function name at `i` and the position after it.
pub open spec fn func_name(b: Seq<u8>, i: int) -> Option<(Seq<u8>, int)> {
    if byte_at(b, i) == OPEN_PAREN {
        method_name(b, i)
    } else {
        ident_at(b, i)
    }
}

/// A bracket pair starting at `i`: its end, if `i` opens one that closes.
pub open spec fn bracket_end(b: Seq<u8>, i: int) -> Option<int> {
    if b[i] == OPEN_PAREN {
        balanced_end(b, i, OPEN_PAREN, CLOSE_PAREN)
    } else if b[i] == OPEN_BRACKET {
        balanced_end(b, i, OPEN_BRACKET, CLOSE_BRACKET)
    } else {
        None
    }
}

/// End of a result type written as words: the first `{` or newline outside
/// bracket pairs.
pub open spec fn typeish_end(b: Seq<u8>, i: int) -> int
    decreases b.len() - i,
{
    if 0 <= i < b.len() {
        if b[i] == OPEN_BRACE || b[i] == NEWLINE {
            i
        } else {
            proof {
                lemma_balanced_end(b, i, OPEN_PAREN, CLOSE_PAREN);
                lemma_balanced_end(b, i, OPEN_BRACKET, CLOSE_BRACKET);
            }
            match bracket_end(b, i) {
                Some(n) => typeish_end(b, n),
                None => typeish_end(b, i + 1),
            }
        }
    } else {
        i
    }
}

/// A byte that can start a result type written as words.
pub open spec fn typeish_start(c: u8) -> bool {
    ident_byte(c) || c == STAR || c == OPEN_BRACKET
}

/// End of the optional result type at `i` (the end of input counts as `{`).
pub open spec fn result_end(b: Seq<u8>, i: int) -> Option<int> {
    let c = if 0 <= i < b.len() {
        b[i]
    } else {
        OPEN_BRACE
    };
    if c == OPEN_BRACE {
        Some(i)
    } else if c == OPEN_PAREN {
        balanced_end(b, i, OPEN_PAREN, CLOSE_PAREN)
    } else if typeish_start(c) {
        Some(typeish_end(b, i))
    } else {
        Some(i)
    }
}

/// End of the signature (parameters and optional result) at `i`.
pub open spec fn signature_end(b: Seq<u8>, i: int) -> Option<int> {
    let j = spaces_end(b, i);
    if 0 <= j < b.len() && b[j] == OPEN_PAREN {
        match balanced_end(b, j, OPEN_PAREN, CLOSE_PAREN) {
            None => None,
            Some(k) => result_end(b, spaces_end(b, k)),
        }
    } else {
        None
    }
}

/// Span `[lo, hi)` of the `{ ... }` body at `i`.
pub open spec fn body_span(b: Seq<u8>, i: int) -> Option<(int, int)> {
    let j = spaces_end(b, i);
    if 0 <= j < b.len() && b[j] == OPEN_BRACE {
        match balanced_end(b, j, OPEN_BRACE, CLOSE_BRACE) {
            Some(hi) => Some((j, hi)),
            None => None,
        }
    } else {
        None
    }
}

/// Name and body span of the function whose header follows `func` at `after`.
pub open spec fn func_parts(b: Seq<u8>, after: int) -> Option<(Seq<u8>, int, int)> {
    match func_name(b, spaces_end(b, after)) {
        None => None,
        Some((name, after_name)) => match signature_end(b, spaces_end(b, after_name)) {
            None => None,
            Some(k) => match body_span(b, k) {
                None => None,
                Some((lo, hi)) => Some((name, lo, hi)),
            },
        },
    }
}

/// Newlines in `s`.
pub open spec fn newlines(s: Seq<u8>) -> nat
    decreases s.len(),
{
    if s.len() == 0 {
        0
    } else {
        newlines(s.drop_last()) + if s.last() == NEWLINE {
            1nat
        } else {
            0nat
        }
    }
}

/// One-based line of byte offset `offset`.
pub open spec fn line_of(b: Seq<u8>, offset: int) -> int {
    newlines(b.subrange(0, if offset < b.len() { offset } else { b.len() as int })) + 1int
}

/// The named function whose `func` keyword is at `start`, if it parses.
pub open spec fn parse_func(b: Seq<u8>, start: int) -> Option<FnShape> {
    if word_at(b, start, keyword_bytes(Keyword::Func)) {
        match func_parts(b, start + 4) {
            None => None,
            Some((name, lo, hi)) => Some(
                FnShape {
                    name,
                    start_line: line_of(b, start),
                    end_line: line_of(b, if hi >= 1 { hi - 1 } else { 0 }),
                    body_lo: lo,
                    body_hi: hi,
                },
            ),
        }
    } else {
        None
    }
}

/// Named functions found from `i` on, in source order (nested ones too).
pub open spec fn found_from(b: Seq<u8>, i: int) -> Seq<FnShape>
    decreases b.len() - i,
{
    if 0 <= i < b.len() {
        proof {
            lemma_skip_noise(b, i);
        }
        let j = skip_noise_spec(b, i);
        if j >= b.len() {
            Seq::empty()
        } else if word_at(b, j, keyword_bytes(Keyword::Func)) {
            match parse_func(b, j) {
                Some(f) => seq![f] + found_from(b, j + 4),
                None => found_from(b, j + 4),
            }
        } else {
            found_from(b, j + 1)
        }
    } else {
        Seq::empty()
    }
}

/// Every named function of the source.
pub open spec fn found_functions(b: Seq<u8>) -> Seq<FnShape> {
    found_from(b, 0)
}

/// `inner`'s body lies inside `outer`'s and `inner` spans fewer lines.
pub open spec fn nested_shape(outer: FnShape, inner: FnShape) -> bool {
    outer.body_lo <= inner.body_lo && inner.body_hi <= outer.body_hi && (inner.start_line
        > outer.start_line || inner.end_line < outer.end_line)
}

/// Position `pos` lies in the body of a function nested in function `k`.
pub open spec fn masked_by(fns: Seq<FnShape>, k: int, m: int, pos: int) -> bool {
    nested_shape(fns[k], fns[m]) && fns[m].body_lo <= pos < fns[m].body_hi
}

/// Body of function `k` with the bodies of functions nested in it blanked
/// out, so that their decisions count only for themselves.
pub open spec fn masked_body(b: Seq<u8>, fns: Seq<FnShape>, k: int) -> Seq<u8> {
    let f = fns[k];
    Seq::new(
        (f.body_hi - f.body_lo) as nat,
        |x: int|
            if exists|m: int| 0 <= m < fns.len() && #[trigger] masked_by(fns, k, m, f.body_lo + x) {
                SPACE
            } else {
                b[f.body_lo + x]
            },
    )
}

/// The selected metric of a body.
pub open spec fn metric_value(metric: Metric, body: Seq<u8>) -> nat {
    match metric {
        Metric::Cyclomatic => cyclomatic(body),
        Metric::Cognitive => capped(cognitive(body)),
    }
}

/// Name bytes read as characters.
pub open spec fn name_text(n: Seq<u8>) -> Seq<char> {
    n.map_values(|c: u8| c as char)
}

pub proof fn lemma_spaces_end(b: Seq<u8>, i: int)
    ensures
        i <= spaces_end(b, i),
        i <= b.len() ==> spaces_end(b, i) <= b.len(),
    decreases b.len() - i,
{
    if 0 <= i < b.len() && space_byte(b[i]) {
        lemma_spaces_end(b, i + 1);
    }
}

pub proof fn lemma_ident_end(b: Seq<u8>, j: int)
    ensures
        j <= ident_end(b, j),
        j <= b.len() ==> ident_end(b, j) <= b.len(),
    decreases b.len() - j,
{
    if 0 <= j < b.len() && ident_byte(b[j]) {
        lemma_ident_end(b, j + 1);
    }
}

pub proof fn lemma_typeish_end(b: Seq<u8>, i: int)
    ensures
        i <= typeish_end(b, i),
        i <= b.len() ==> typeish_end(b, i) <= b.len(),
    decreases b.len() - i,
{
    if 0 <= i < b.len() && b[i] != OPEN_BRACE && b[i] != NEWLINE {
        lemma_balanced_end(b, i, OPEN_PAREN, CLOSE_PAREN);
        lemma_balanced_end(b, i, OPEN_BRACKET, CLOSE_BRACKET);
        match bracket_end(b, i) {
            Some(n) => lemma_typeish_end(b, n),
            None => lemma_typeish_end(b, i + 1),
        }
    }
}

pub proof fn lemma_newlines(s: Seq<u8>)
    ensures
        newlines(s) <= s.len(),
    decreases s.len(),
{
    if s.len() > 0 {
        lemma_newlines(s.drop_last());
    }
}

pub proof fn lemma_body_span(b: Seq<u8>, i: int)
    ensures
        body_span(b, i) matches Some((lo, hi)) ==> 0 <= lo < hi <= b.len(),
{
    lemma_balanced_end(b, spaces_end(b, i), OPEN_BRACE, CLOSE_BRACE);
}

pub proof fn lemma_func_parts(b: Seq<u8>, after: int)
    ensures
        func_parts(b, after) matches Some((n, lo, hi)) ==> 0 <= lo < hi <= b.len(),
{
    if let Some((name, after_name)) = func_name(b, spaces_end(b, after)) {
        if let Some(k) = signature_end(b, spaces_end(b, after_name)) {
            lemma_body_span(b, k);
        }
    }
}

/// A named function found in the source: name bytes, one-based lines, and
/// the byte span of its body.
#[derive(Debug, Clone)]
pub struct FoundFn {
    pub name: Vec<u8>,
    pub start_line: usize,
    pub end_line: usize,
    pub body_lo: usize,
    pub body_hi: usize,
}

impl FoundFn {
    /// The scan's view of this function.
    pub open spec fn shape(&self) -> FnShape {
        FnShape {
            name: self.name@,
            start_line: self.start_line as int,
            end_line: self.end_line as int,
            body_lo: self.body_lo as int,
            body_hi: self.body_hi as int,
        }
    }
}

/// The shapes of a list of found functions.
pub open spec fn shapes(v: Seq<FoundFn>) -> Seq<FnShape> {
    Seq::new(v.len(), |k: int| v[k].shape())
}

/// Body spans lie inside the source.
pub open spec fn spans_valid(fns: Seq<FnShape>, len: int) -> bool {
    forall|k: int| 0 <= k < fns.len() ==> 0 <= #[trigger] fns[k].body_lo <= fns[k].body_hi <= len
}

fn skip_spaces(bytes: &[u8], i: usize) -> (r: usize)
    ensures
        r == spaces_end(bytes@, i as int),
{
    let mut pos = i;
    while pos < bytes.len() && (bytes[pos] == SPACE || bytes[pos] == TAB || bytes[pos] == NEWLINE
        || bytes[pos] == CARRIAGE_RETURN)
        invariant
            i <= pos,
            spaces_end(bytes@, pos as int) == spaces_end(bytes@, i as int),
        decreases bytes.len() - pos,
    {
        pos = pos + 1;
    }
    pos
}

fn copy_range(bytes: &[u8], lo: usize, hi: usize) -> (r: Vec<u8>)
    requires
        lo <= hi <= bytes.len(),
    ensures
        r@ == bytes@.subrange(lo as int, hi as int),
{
    let mut out: Vec<u8> = Vec::new();
    let mut k = lo;
    while k < hi
        invariant
            lo <= k <= hi <= bytes.len(),
            out@ == bytes@.subrange(lo as int, k as int),
        decreases hi - k,
    {
        out.push(bytes[k]);
        proof {
            assert(bytes@.subrange(lo as int, k + 1) =~= bytes@.subrange(lo as int, k as int).push(
                bytes@[k as int],
            ));
        }
        k = k + 1;
    }
    out
}

fn read_ident(bytes: &[u8], i: usize) -> (r: Option<(Vec<u8>, usize)>)
    ensures
        r matches Some((n, e)) ==> ident_at(bytes@, i as int) == Some((n@, e as int)),
        r is None ==> ident_at(bytes@, i as int) is None,
{
    if !(i < bytes.len() && is_ident_start(bytes[i])) {
        return None;
    }
    let mut end = i + 1;
    while end < bytes.len() && is_ident_byte(bytes[end])
        invariant
            i < end <= bytes.len(),
            ident_end(bytes@, end as int) == ident_end(bytes@, i + 1),
        decreases bytes.len() - end,
    {
        end = end + 1;
    }
    Some((copy_range(bytes, i, end), end))
}

fn scan_receiver_type(bytes: &[u8], start: usize, hi: usize) -> (r: Option<Vec<u8>>)
    ensures
        r matches Some(t) ==> receiver_scan(bytes@, start as int, if hi < bytes@.len() { hi as int } else { bytes@.len() as int }) == Some(t@),
        r is None ==> receiver_scan(bytes@, start as int, if hi < bytes@.len() { hi as int } else { bytes@.len() as int }) is None,
{
    let end = if hi < bytes.len() {
        hi
    } else {
        bytes.len()
    };
    let mut i = start;
    while i < end
        invariant
            end <= bytes.len(),
            end == (if hi < bytes@.len() { hi as int } else { bytes@.len() as int }),
            receiver_scan(bytes@, i as int, end as int) == receiver_scan(bytes@, start as int, end as int),
        decreases end - i,
    {
        let c = bytes[i];
        if c == STAR || c == SPACE || c == TAB {
            i = i + 1;
            continue;
        }
        if is_ident_byte(c) {
            return match read_ident(bytes, i) {
                Some((ty, _)) => Some(ty),
                None => None,
            };
        }
        return None;
    }
    None
}

fn after_optional_ident(bytes: &[u8], lo: usize) -> (r: usize)
    ensures
        r == (match ident_at(bytes@, spaces_end(bytes@, lo as int)) {
            Some((_, next)) => spaces_end(bytes@, next),
            None => spaces_end(bytes@, lo as int),
        }),
{
    let i = skip_spaces(bytes, lo);
    if let Some((_, next)) = read_ident(bytes, i) {
        return skip_spaces(bytes, next);
    }
    i
}

fn receiver_type_of(bytes: &[u8], lo: usize, hi: usize) -> (r: Option<Vec<u8>>)
    ensures
        r matches Some(t) ==> receiver_type(bytes@, lo as int, hi as int) == Some(t@),
        r is None ==> receiver_type(bytes@, lo as int, hi as int) is None,
{
    let i = after_optional_ident(bytes, lo);
    scan_receiver_type(bytes, i, hi)
}

fn parse_method_name(bytes: &[u8], i: usize) -> (r: Option<(Vec<u8>, usize)>)
    ensures
        r matches Some((n, e)) ==> method_name(bytes@, i as int) == Some((n@, e as int)),
        r is None ==> method_name(bytes@, i as int) is None,
{
    proof {
        lemma_balanced_end(bytes@, i as int, OPEN_PAREN, CLOSE_PAREN);
    }
    let after_recv = match skip_balanced(bytes, i, OPEN_PAREN, CLOSE_PAREN) {
        Some(a) => a,
        None => {
            return None;
        },
    };
    let after = skip_spaces(bytes, after_recv);
    let (name, next) = match read_ident(bytes, after) {
        Some(found) => found,
        None => {
            return None;
        },
    };
    match receiver_type_of(bytes, i + 1, after_recv - 1) {
        Some(ty) => {
            let mut full = ty;
            full.push(DOT);
            let mut k: usize = 0;
            let ghost head = full@;
            while k < name.len()
                invariant
                    k <= name.len(),
                    full@ == head + name@.subrange(0, k as int),
                decreases name.len() - k,
            {
                full.push(name[k]);
                proof {
                    assert(name@.subrange(0, k + 1) =~= name@.subrange(0, k as int).push(name@[k as int]));
                }
                k = k + 1;
            }
            proof {
                assert(name@.subrange(0, name@.len() as int) =~= name@);
            }
            Some((full, next))
        },
        None => Some((name, next)),
    }
}

fn parse_func_name(bytes: &[u8], i: usize) -> (r: Option<(Vec<u8>, usize)>)
    ensures
        r matches Some((n, e)) ==> func_name(bytes@, i as int) == Some((n@, e as int)),
        r is None ==> func_name(bytes@, i as int) is None,
{
    if i < bytes.len() && bytes[i] == OPEN_PAREN {
        return parse_method_name(bytes, i);
    }
    read_ident(bytes, i)
}

fn skip_typeish_bracket(bytes: &[u8], i: usize) -> (r: Option<usize>)
    requires
        i < bytes.len(),
    ensures
        opt_pos(r) == bracket_end(bytes@, i as int),
{
    if bytes[i] == OPEN_PAREN {
        skip_balanced(bytes, i, OPEN_PAREN, CLOSE_PAREN)
    } else if bytes[i] == OPEN_BRACKET {
        skip_balanced(bytes, i, OPEN_BRACKET, CLOSE_BRACKET)
    } else {
        None
    }
}

/// Skips a result type written as words, stopping at `{` or a newline
/// outside bracket pairs.
pub fn skip_typeish(bytes: &[u8], i: usize) -> (r: usize)
    ensures
        r == typeish_end(bytes@, i as int),
{
    let mut pos = i;
    while pos < bytes.len()
        invariant
            typeish_end(bytes@, pos as int) == typeish_end(bytes@, i as int),
        decreases bytes.len() - pos,
    {
        if bytes[pos] == OPEN_BRACE || bytes[pos] == NEWLINE {
            return pos;
        }
        proof {
            lemma_balanced_end(bytes@, pos as int, OPEN_PAREN, CLOSE_PAREN);
            lemma_balanced_end(bytes@, pos as int, OPEN_BRACKET, CLOSE_BRACKET);
        }
        if let Some(next) = skip_typeish_bracket(bytes, pos) {
            pos = next;
            continue;
        }
        pos = pos + 1;
    }
    pos
}

fn starts_typeish(b: u8) -> (r: bool)
    ensures
        r == typeish_start(b),
{
    is_ident_byte(b) || b == STAR || b == OPEN_BRACKET
}

fn skip_result_byte(bytes: &[u8], i: usize, b: u8) -> (r: Option<usize>)
    requires
        b == (if i < bytes@.len() { bytes@[i as int] } else { OPEN_BRACE }),
    ensures
        opt_pos(r) == result_end(bytes@, i as int),
{
    if b == OPEN_BRACE {
        return Some(i);
    }
    if b == OPEN_PAREN {
        return skip_balanced(bytes, i, OPEN_PAREN, CLOSE_PAREN);
    }
    if starts_typeish(b) {
        return Some(skip_typeish(bytes, i));
    }
    Some(i)
}

fn skip_result_type(bytes: &[u8], i: usize) -> (r: Option<usize>)
    ensures
        opt_pos(r) == result_end(bytes@, i as int),
{
    let b = if i < bytes.len() {
        bytes[i]
    } else {
        OPEN_BRACE
    };
    skip_result_byte(bytes, i, b)
}

/// Skips a signature: parameters `(...)` and an optional result type.
pub fn skip_signature(bytes: &[u8], i: usize) -> (r: Option<usize>)
    ensures
        opt_pos(r) == signature_end(bytes@, i as int),
{
    let j = skip_spaces(bytes, i);
    if !(j < bytes.len() && bytes[j] == OPEN_PAREN) {
        return None;
    }
    match skip_balanced(bytes, j, OPEN_PAREN, CLOSE_PAREN) {
        None => None,
        Some(k) => {
            let k2 = skip_spaces(bytes, k);
            skip_result_type(bytes, k2)
        },
    }
}

/// Matches the `{` at `open` with its `}`.
pub fn match_braces(bytes: &[u8], open: usize) -> (r: Option<usize>)
    ensures
        opt_pos(r) == balanced_end(bytes@, open as int, OPEN_BRACE, CLOSE_BRACE),
{
    skip_balanced(bytes, open, OPEN_BRACE, CLOSE_BRACE)
}

fn parse_func_body(bytes: &[u8], i: usize) -> (r: Option<(usize, usize)>)
    ensures
        r matches Some((lo, hi)) ==> body_span(bytes@, i as int) == Some((lo as int, hi as int)),
        r is None ==> body_span(bytes@, i as int) is None,
{
    let j = skip_spaces(bytes, i);
    if !(j < bytes.len() && bytes[j] == OPEN_BRACE) {
        return None;
    }
    match match_braces(bytes, j) {
        Some(hi) => Some((j, hi)),
        None => None,
    }
}

fn parse_func_parts(bytes: &[u8], after_func: usize) -> (r: Option<(Vec<u8>, usize, usize)>)
    ensures
        r matches Some((n, lo, hi)) ==> func_parts(bytes@, after_func as int) == Some(
            (n@, lo as int, hi as int),
        ),
        r is None ==> func_parts(bytes@, after_func as int) is None,
{
    let i = skip_spaces(bytes, after_func);
    let (name, after_name) = match parse_func_name(bytes, i) {
        Some(found) => found,
        None => {
            return None;
        },
    };
    let k = skip_spaces(bytes, after_name);
    let sig = match skip_signature(bytes, k) {
        Some(s) => s,
        None => {
            return None;
        },
    };
    match parse_func_body(bytes, sig) {
        Some((lo, hi)) => Some((name, lo, hi)),
        None => None,
    }
}

fn line_of_offset(bytes: &[u8], offset: usize) -> (r: usize)
    requires
        offset < bytes.len(),
    ensures
        r == line_of(bytes@, offset as int),
{
    let mut n: usize = 0;
    let mut k: usize = 0;
    while k < offset
        invariant
            k <= offset < bytes.len(),
            n == newlines(bytes@.subrange(0, k as int)),
            n <= k,
        decreases offset - k,
    {
        proof {
            assert(bytes@.subrange(0, k + 1).drop_last() =~= bytes@.subrange(0, k as int));
        }
        if bytes[k] == NEWLINE {
            n = n + 1;
        }
        k = k + 1;
    }
    n + 1
}

/// The named function whose `func` keyword is at `start`, if it parses.
pub fn try_parse_func(bytes: &[u8], start: usize) -> (r: Option<FoundFn>)
    ensures
        r matches Some(f) ==> parse_func(bytes@, start as int) == Some(f.shape()),
        r is None ==> parse_func(bytes@, start as int) is None,
{
    if !is_word(bytes, start, keyword(Keyword::Func)) {
        return None;
    }
    proof {
        assert(bytes@.len() == bytes.len());
    }
    let (name, body_lo, body_hi) = match parse_func_parts(bytes, start + 4) {
        Some(parts) => parts,
        None => {
            return None;
        },
    };
    proof {
        lemma_func_parts(bytes@, start + 4);
    }
    let start_line = line_of_offset(bytes, start);
    let end_line = line_of_offset(bytes, body_hi - 1);
    Some(FoundFn { name, start_line, end_line, body_lo, body_hi })
}

pub proof fn lemma_found_from(b: Seq<u8>, i: int)
    ensures
        spans_valid(found_from(b, i), b.len() as int),
    decreases b.len() - i,
{
    if 0 <= i < b.len() {
        lemma_skip_noise(b, i);
        let j = skip_noise_spec(b, i);
        if j < b.len() {
            if word_at(b, j, keyword_bytes(Keyword::Func)) {
                lemma_found_from(b, j + 4);
                lemma_func_parts(b, j + 4);
                let rest = found_from(b, j + 4);
                if let Some(f) = parse_func(b, j) {
                    assert forall|k: int| 0 <= k < (seq![f] + rest).len() implies 0 <= #[trigger] (
                    seq![f] + rest)[k].body_lo <= (seq![f] + rest)[k].body_hi <= b.len() by {
                        if k > 0 {
                            assert((seq![f] + rest)[k] == rest[k - 1]);
                        }
                    }
                }
            } else {
                lemma_found_from(b, j + 1);
            }
        }
    }
}

fn find_functions(bytes: &[u8]) -> (r: Vec<FoundFn>)
    ensures
        shapes(r@) == found_functions(bytes@),
{
    let mut out: Vec<FoundFn> = Vec::new();
    let mut i: usize = 0;
    while i < bytes.len()
        invariant
            i <= bytes.len(),
            shapes(out@) + found_from(bytes@, i as int) == found_functions(bytes@),
        decreases bytes.len() - i,
    {
        proof {
            lemma_skip_noise(bytes@, i as int);
        }
        let ghost before = i as int;
        i = skip_noise(bytes, i);
        if i >= bytes.len() {
            assert(found_from(bytes@, before) =~= Seq::<FnShape>::empty());
            assert(shapes(out@) + found_from(bytes@, before) =~= shapes(out@));
            return out;
        }
        if is_word(bytes, i, keyword(Keyword::Func)) {
            proof {
                assert(bytes@.len() == bytes.len());
            }
            let ghost prev = shapes(out@);
            match try_parse_func(bytes, i) {
                Some(func) => {
                    out.push(func);
                    proof {
                        assert(shapes(out@) =~= prev.push(func.shape()));
                        assert(found_from(bytes@, before) == seq![func.shape()] + found_from(bytes@, i + 4));
                        assert(prev + found_from(bytes@, before) =~= shapes(out@) + found_from(bytes@, i + 4));
                    }
                },
                None => {},
            }
            i = i + 4;
            continue;
        }
        i = i + 1;
    }
    assert(found_from(bytes@, i as int) =~= Seq::<FnShape>::empty());
    assert(shapes(out@) + found_from(bytes@, i as int) =~= shapes(out@));
    out
}

fn is_nested(outer: &FoundFn, inner: &FoundFn) -> (r: bool)
    ensures
        r == nested_shape(outer.shape(), inner.shape()),
{
    let smaller = inner.start_line > outer.start_line || inner.end_line < outer.end_line;
    outer.body_lo <= inner.body_lo && inner.body_hi <= outer.body_hi && smaller
}

fn mask_body(bytes: &[u8], all: &Vec<FoundFn>, k: usize) -> (body: Vec<u8>)
    requires
        k < all.len(),
        spans_valid(shapes(all@), bytes@.len() as int),
    ensures
        body@ == masked_body(bytes@, shapes(all@), k as int),
{
    let ghost fns = shapes(all@);
    let func = &all[k];
    assert(fns[k as int] == func.shape());
    assert(0 <= fns[k as int].body_lo <= fns[k as int].body_hi <= bytes@.len());
    let lo = func.body_lo;
    let mut body = copy_range(bytes, func.body_lo, func.body_hi);
    let mut m: usize = 0;
    while m < all.len()
        invariant
            m <= all.len(),
            k < all.len(),
            fns == shapes(all@),
            *func == all@[k as int],
            lo == func.body_lo,
            spans_valid(fns, bytes@.len() as int),
            body@.len() == func.body_hi - func.body_lo,
            forall|x: int|
                0 <= x < body@.len() ==> #[trigger] body@[x] == if exists|q: int|
                    0 <= q < m && #[trigger] masked_by(fns, k as int, q, lo + x) {
                    SPACE
                } else {
                    bytes@[lo + x]
                },
        decreases all.len() - m,
    {
        let other = &all[m];
        assert(fns[m as int] == other.shape());
        assert(0 <= fns[m as int].body_lo <= fns[m as int].body_hi <= bytes@.len());
        let ghost before = body@;
        if is_nested(func, other) {
            let hi_m = other.body_hi - lo;
            let mut x = other.body_lo - lo;
            while x < hi_m
                invariant
                    lo == func.body_lo,
                    lo <= other.body_lo,
                    other.body_hi <= func.body_hi,
                    hi_m == other.body_hi - lo,
                    other.body_lo <= other.body_hi,
                    other.body_lo - lo <= x <= hi_m,
                    body@.len() == before.len(),
                    before.len() == func.body_hi - func.body_lo,
                    forall|y: int|
                        0 <= y < body@.len() ==> #[trigger] body@[y] == if other.body_lo - lo <= y
                            < x {
                            SPACE
                        } else {
                            before[y]
                        },
                decreases hi_m - x,
            {
                body.set(x, SPACE);
                x = x + 1;
            }
        }
        proof {
            assert forall|x: int| 0 <= x < body@.len() implies #[trigger] body@[x] == if exists|q: int|
                0 <= q < m + 1 && #[trigger] masked_by(fns, k as int, q, lo + x) {
                SPACE
            } else {
                bytes@[lo + x]
            } by {
                if masked_by(fns, k as int, m as int, lo + x) {
                    assert(body@[x] == SPACE);
                } else {
                    assert(body@[x] == before[x]);
                    if exists|q: int| 0 <= q < m + 1 && #[trigger] masked_by(fns, k as int, q, lo + x) {
                        let q = choose|q: int| 0 <= q < m + 1 && #[trigger] masked_by(fns, k as int, q, lo + x);
                        assert(q < m);
                    }
                }
            }
        }
        m = m + 1;
    }
    assert(body@ =~= masked_body(bytes@, fns, k as int));
    body
}

fn name_string(name: &[u8]) -> (s: String)
    ensures
        s@ == name_text(name@),
{
    let mut out = String::new();
    let mut k: usize = 0;
    while k < name.len()
        invariant
            k <= name.len(),
            out@ == name_text(name@.subrange(0, k as int)),
        decreases name.len() - k,
    {
        push_char(&mut out, name[k] as char);
        proof {
            assert(name_text(name@.subrange(0, k + 1)) =~= name_text(name@.subrange(0, k as int)).push(
                name@[k as int] as char,
            ));
        }
        k = k + 1;
    }
    assert(name@.subrange(0, name@.len() as int) =~= name@);
    out
}

/// `rows` are the functions of source bytes `b` at `path`, each with its
/// lines and the metric of its body (nested bodies blanked out).
pub open spec fn rows_for(rows: Seq<FunctionComplexity>, path: Seq<char>, b: Seq<u8>, metric: Metric) -> bool {
    let fns = found_functions(b);
    &&& rows.len() == fns.len()
    &&& forall|k: int|
        0 <= k < rows.len() ==> {
            &&& (#[trigger] rows[k]).file@ == path
            &&& rows[k].name@ == name_text(fns[k].name)
            &&& rows[k].start_line == fns[k].start_line
            &&& rows[k].end_line == fns[k].end_line
            &&& rows[k].complexity == metric_value(metric, masked_body(b, fns, k))
        }
}

fn to_complexity(path: &str, bytes: &[u8], metric: Metric, all: &Vec<FoundFn>, k: usize) -> (r: FunctionComplexity)
    requires
        k < all.len(),
        spans_valid(shapes(all@), bytes@.len() as int),
    ensures
        r.file@ == path@,
        r.name@ == name_text(all@[k as int].name@),
        r.start_line == all@[k as int].start_line,
        r.end_line == all@[k as int].end_line,
        r.complexity == metric_value(metric, masked_body(bytes@, shapes(all@), k as int)),
{
    let body = mask_body(bytes, all, k);
    let func = &all[k];
    FunctionComplexity {
        file: owned(path),
        name: name_string(func.name.as_slice()),
        start_line: func.start_line,
        end_line: func.end_line,
        complexity: count_metric(metric, body.as_slice()),
    }
}

/// Parses `source` as if it lived at `path`.
///
/// Fails with a collect error naming the path when the source fails the
/// structural scan (unclosed literal or comment, unbalanced brackets).
pub fn analyze_source(path: &str, source: &str, metric: Metric) -> (r: Result<
    Vec<FunctionComplexity>,
    Error,
>)
    ensures
        structure_check(vstd::utf8::encode_utf8(source@)) matches Err(p) ==> (r matches Err(
            Error::Collect(m),
        ) && m@ == path@ + ": "@ + problem_text(p)),
        structure_check(vstd::utf8::encode_utf8(source@)) is Ok ==> (r matches Ok(rows) && rows_for(
            rows@,
            path@,
            vstd::utf8::encode_utf8(source@),
            metric,
        )),
{
    let bytes = source.as_bytes();
    assert(bytes@ == vstd::utf8::encode_utf8(source@));
    if let Err(reason) = validate_structure(bytes) {
        let head = concat(path, ": ");
        let message = concat(head.as_str(), reason);
        return Err(Error::Collect(message));
    }
    let found = find_functions(bytes);
    proof {
        lemma_found_from(bytes@, 0);
    }
    let mut rows: Vec<FunctionComplexity> = Vec::new();
    let mut k: usize = 0;
    while k < found.len()
        invariant
            k <= found.len(),
            bytes@ == vstd::utf8::encode_utf8(source@),
            shapes(found@) == found_functions(bytes@),
            spans_valid(shapes(found@), bytes@.len() as int),
            rows@.len() == k,
            forall|j: int|
                0 <= j < k ==> {
                    &&& (#[trigger] rows@[j]).file@ == path@
                    &&& rows@[j].name@ == name_text(found_functions(bytes@)[j].name)
                    &&& rows@[j].start_line == found_functions(bytes@)[j].start_line
                    &&& rows@[j].end_line == found_functions(bytes@)[j].end_line
                    &&& rows@[j].complexity == metric_value(
                        metric,
                        masked_body(bytes@, found_functions(bytes@), j),
                    )
                },
        decreases found.len() - k,
    {
        let row = to_complexity(path, bytes, metric, &found, k);
        assert(shapes(found@)[k as int] == found@[k as int].shape());
        rows.push(row);
        k = k + 1;
    }
    Ok(rows)
}

/// An identifier running from `j` up to a non-identifier byte at `e` ends at `e`.
proof fn lemma_ident_end_to(b: Seq<u8>, j: int, e: int)
    requires
        0 <= j <= e < b.len(),
        forall|k: int| j <= k < e ==> ident_byte(#[trigger] b[k]),
        !ident_byte(b[e]),
    ensures
        ident_end(b, j) == e,
    decreases e - j,
{
    if j < e {
        lemma_ident_end_to(b, j + 1, e);
    }
}

/// A result type written as words, with its brackets closing before `re`,
/// runs up to the `{` after the space at `re`.
proof fn lemma_typeish_to(b: Seq<u8>, i: int, re: int)
    requires
        0 <= i <= re,
        re + 1 < b.len(),
        b[re] == SPACE,
        b[re + 1] == OPEN_BRACE,
        forall|k: int|
            i <= k < re ==> #[trigger] b[k] != OPEN_BRACE && b[k] != NEWLINE && (bracket_end(b, k) matches Some(
                m,
            ) ==> k < m <= re),
    ensures
        typeish_end(b, i) == re + 1,
    decreases re - i,
{
    if i < re {
        match bracket_end(b, i) {
            Some(m) => lemma_typeish_to(b, m, re),
            None => lemma_typeish_to(b, i + 1, re),
        }
    } else {
        assert(bracket_end(b, re) is None);
        assert(typeish_end(b, re + 1) == re + 1);
    }
}

/// Brackets of plain contents `res` at `rs`, balanced in both kinds, close
/// within them.
proof fn lemma_res_brackets(b: Seq<u8>, rs: int, res: Seq<u8>)
    requires
        0 <= rs,
        rs + res.len() <= b.len(),
        b.subrange(rs, rs + res.len()) == res,
        plain(res),
        brackets_balanced(res, OPEN_PAREN, CLOSE_PAREN),
        brackets_balanced(res, OPEN_BRACKET, CLOSE_BRACKET),
    ensures
        forall|k: int|
            rs <= k < rs + res.len() ==> (#[trigger] bracket_end(b, k) matches Some(m) ==> k < m <= rs
                + res.len()),
{
    assert forall|k: int| rs <= k < rs + res.len() implies (#[trigger] bracket_end(b, k) matches Some(m) ==> k
        < m <= rs + res.len()) by {
        assert(b[k] == res[k - rs]);
        if b[k] == OPEN_PAREN {
            lemma_balanced_within(b, rs, res, k - rs, OPEN_PAREN, CLOSE_PAREN);
        } else if b[k] == OPEN_BRACKET {
            lemma_balanced_within(b, rs, res, k - rs, OPEN_BRACKET, CLOSE_BRACKET);
        }
    }
}

/// The result type that the function scan reads: none, one written as
/// words (a name, a pointer, slice, array, map, channel or function type)
/// without `{` or a newline, or a parenthesised list; none holds a comment
/// or string, and their brackets are balanced.
pub open spec fn result_type_ok(res: Seq<u8>) -> bool {
    ||| res.len() == 0
    ||| {
        &&& res.len() > 0
        &&& (ident_byte(res[0]) || res[0] == 42u8 || res[0] == 91u8)
        &&& plain(res)
        &&& forall|k: int| 0 <= k < res.len() ==> #[trigger] res[k] != 123u8 && res[k] != 10u8
        &&& brackets_balanced(res, 40u8, 41u8)
        &&& brackets_balanced(res, 91u8, 93u8)
    }
    ||| {
        &&& res.len() >= 2
        &&& res[0] == 40u8
        &&& res[res.len() - 1] == 41u8
        &&& plain(res)
        &&& brackets_balanced(res.subrange(1, res.len() - 1), 40u8, 41u8)
    }
}

/// Where the signature read from the result type at `rs` ends: at the `{`
/// after it, or after a parenthesised list.
proof fn lemma_result_read(b: Seq<u8>, rs: int, res: Seq<u8>)
    requires
        0 <= rs,
        rs + res.len() + 1 < b.len(),
        b.subrange(rs, rs + res.len()) == res,
        b[rs + res.len()] == SPACE,
        b[rs + res.len() + 1] == OPEN_BRACE,
        result_type_ok(res),
    ensures
        result_end(b, spaces_end(b, rs)) == Some(
            if res.len() >= 2 && res[0] == 40u8 {
                rs + res.len()
            } else {
                rs + res.len() + 1
            },
        ),
{
    let re = rs + res.len();
    if res.len() == 0 {
        assert(spaces_end(b, rs) == spaces_end(b, rs + 1));
        assert(spaces_end(b, rs + 1) == rs + 1);
    } else {
        assert(b[rs] == res[0]);
        assert(spaces_end(b, rs) == rs);
        if res[0] == 40u8 {
            let inner = res.subrange(1, res.len() - 1);
            assert(b.subrange(rs + 1, rs + 1 + inner.len()) =~= inner);
            assert(plain(inner)) by {
                assert forall|k: int| 0 <= k < inner.len() implies #[trigger] inner[k] != 47u8 && !crate::go::lex::is_quote(
                    inner[k],
                ) by {
                    assert(inner[k] == res[k + 1]);
                }
            }
            assert(b[rs + 1 + inner.len()] == res[res.len() - 1]);
            lemma_balanced_span(b, rs, inner, OPEN_PAREN, CLOSE_PAREN);
        } else {
            lemma_res_brackets(b, rs, res);
            assert forall|k: int| rs <= k < re implies #[trigger] b[k] != OPEN_BRACE && b[k] != NEWLINE && (
            bracket_end(b, k) matches Some(m) ==> k < m <= re) by {
                assert(b[k] == res[k - rs]);
            }
            lemma_typeish_to(b, rs, re);
        }
    }
}

/// The bytes of `func name(params) res { body }`.
pub open spec fn declaration_bytes(name: Seq<u8>, params: Seq<u8>, res: Seq<u8>, body: Seq<u8>) -> Seq<u8> {
    seq![102u8, 117u8, 110u8, 99u8, 32u8] + name + seq![40u8] + params + seq![41u8, 32u8] + res + seq![
        32u8,
        123u8,
    ] + body + seq![125u8]
}

#[verifier::rlimit(40)]
proof fn lemma_declaration_layout(name: Seq<u8>, params: Seq<u8>, res: Seq<u8>, body: Seq<u8>)
    requires
        name.len() > 0,
    ensures
        ({
            let b = declaration_bytes(name, params, res, body);
            let an = 5 + name.len() as int;
            let rs = an + params.len() as int + 3;
            let re = rs + res.len() as int;
            let open = re + 1;
            &&& b.len() == open + body.len() + 2
            &&& b.subrange(0, 4) =~= keyword_bytes(Keyword::Func)
            &&& b[4] == SPACE
            &&& b.subrange(5, an) =~= name
            &&& b[5] == name[0]
            &&& (forall|j: int| 5 <= j < an ==> #[trigger] b[j] == name[j - 5])
            &&& b[an] == OPEN_PAREN
            &&& b.subrange(an + 1, an + 1 + params.len() as int) =~= params
            &&& b[an + 1 + params.len() as int] == CLOSE_PAREN
            &&& b[rs - 1] == SPACE
            &&& b.subrange(rs, re) =~= res
            &&& b[re] == SPACE
            &&& b[open] == OPEN_BRACE
            &&& b.subrange(open + 1, open + 1 + body.len() as int) =~= body
            &&& b[open + 1 + body.len() as int] == CLOSE_BRACE
        }),
{
    let b = declaration_bytes(name, params, res, body);
    let an = 5 + name.len() as int;
    let rs = an + params.len() as int + 3;
    let re = rs + res.len() as int;
    let open = re + 1;
    assert(b.subrange(0, 4) =~= keyword_bytes(Keyword::Func));
    assert(b.subrange(5, an) =~= name);
    assert(b.subrange(an + 1, an + 1 + params.len() as int) =~= params);
    assert(b.subrange(rs, re) =~= res);
    assert(b.subrange(open + 1, open + 1 + body.len() as int) =~= body);
}

/// The signature `(params) res` at `an` and the block `{ body }` after it,
/// ending the input, are read as such: the body spans from its `{` to the end.
#[verifier::rlimit(40)]
proof fn lemma_signature_and_body(b: Seq<u8>, an: int, params: Seq<u8>, res: Seq<u8>, body: Seq<u8>)
    requires
        0 <= an,
        b.len() == an + params.len() + res.len() + body.len() + 6,
        b[an] == OPEN_PAREN,
        b.subrange(an + 1, an + 1 + params.len() as int) == params,
        b[an + 1 + params.len() as int] == CLOSE_PAREN,
        b[an + 2 + params.len() as int] == SPACE,
        b.subrange(an + 3 + params.len() as int, an + 3 + params.len() as int + res.len() as int) == res,
        b[an + 3 + params.len() as int + res.len() as int] == SPACE,
        b[an + 4 + params.len() as int + res.len() as int] == OPEN_BRACE,
        b.subrange(an + 5 + params.len() as int + res.len() as int, b.len() - 1) == body,
        b[b.len() - 1] == CLOSE_BRACE,
        plain(params),
        brackets_balanced(params, 40u8, 41u8),
        result_type_ok(res),
        plain(body),
        brackets_balanced(body, 123u8, 125u8),
    ensures
        signature_end(b, an) matches Some(k) && body_span(b, k) == Some(
            (an + 4 + params.len() as int + res.len() as int, b.len() as int),
        ),
{
    let rs = an + 3 + params.len() as int;
    let re = rs + res.len();
    let open = re + 1;
    assert(spaces_end(b, an) == an);
    lemma_balanced_span(b, an, params, OPEN_PAREN, CLOSE_PAREN);
    lemma_result_read(b, rs, res);
    let sig = if res.len() >= 2 && res[0] == 40u8 {
        re
    } else {
        open
    };
    assert(signature_end(b, an) == Some(sig));
    assert(spaces_end(b, sig) == open) by {
        if sig == re {
            assert(spaces_end(b, open) == open);
        }
    }
    assert(b.subrange(open + 1, open + 1 + body.len()) == body);
    lemma_balanced_span(b, open, body, OPEN_BRACE, CLOSE_BRACE);
    assert(body_span(b, sig) == Some((open, b.len() as int)));
}

/// Every well-formed top-level function declaration is found, whatever
/// its result type: `func name(params) res { body }` (a plain name, a
/// parameter list and body without comments or strings and with balanced
/// brackets, and a result type as [`result_type_ok`] describes) parses as
/// the function `name` whose body spans from its `{` to the end.
#[verifier::rlimit(60)]
pub proof fn lemma_declared_function_found(
    name: Seq<u8>,
    params: Seq<u8>,
    res: Seq<u8>,
    body: Seq<u8>,
)
    requires
        name.len() > 0,
        ident_start(name[0]),
        forall|k: int| 0 <= k < name.len() ==> ident_byte(#[trigger] name[k]),
        plain(params),
        brackets_balanced(params, 40u8, 41u8),
        result_type_ok(res),
        plain(body),
        brackets_balanced(body, 123u8, 125u8),
    ensures
        ({
            let b = declaration_bytes(name, params, res, body);
            parse_func(b, 0) matches Some(f) && f.name == name && f.start_line == 1 && f.body_lo == b.len()
                - body.len() - 2 && f.body_hi == b.len()
        }),
{
    let b = declaration_bytes(name, params, res, body);
    lemma_declaration_layout(name, params, res, body);
    let nl = name.len() as int;
    let an = 5 + nl;
    let k = an + params.len() + 2;
    let rs = k + 1;
    let re = rs + res.len();
    let open = re + 1;
    assert(word_at(b, 0, keyword_bytes(Keyword::Func)));
    assert(spaces_end(b, 4) == 5) by {
        assert(spaces_end(b, 5) == 5);
    }
    assert forall|j: int| 6 <= j < an implies ident_byte(#[trigger] b[j]) by {
        assert(b[j] == name[j - 5]);
    }
    lemma_ident_end_to(b, 6, an);
    assert(func_name(b, 5) == Some((name, an)));
    assert(spaces_end(b, an) == an);
    lemma_signature_and_body(b, an, params, res, body);
    assert(func_parts(b, 4) == Some((name, open, b.len() as int)));
    assert(b.subrange(0, 0) =~= Seq::<u8>::empty());
}

/// The bytes of `func (r T) name(params) res { body }`, or of
/// `func (r *T) ...` when `pointer` holds.
pub open spec fn method_bytes(
    r: Seq<u8>,
    pointer: bool,
    t: Seq<u8>,
    name: Seq<u8>,
    params: Seq<u8>,
    res: Seq<u8>,
    body: Seq<u8>,
) -> Seq<u8> {
    seq![102u8, 117u8, 110u8, 99u8, 32u8, 40u8] + r + (if pointer {
        seq![32u8, 42u8]
    } else {
        seq![32u8]
    }) + t + seq![41u8, 32u8] + name + seq![40u8] + params + seq![41u8, 32u8] + res + seq![32u8, 123u8]
        + body + seq![125u8]
}

/// An identifier: a letter or underscore, then letters, digits or
/// underscores.
pub open spec fn identifier(w: Seq<u8>) -> bool {
    &&& w.len() > 0
    &&& ident_start(w[0])
    &&& forall|k: int| 0 <= k < w.len() ==> ident_byte(#[trigger] w[k])
}

#[verifier::rlimit(60)]
proof fn lemma_method_layout(
    r: Seq<u8>,
    pointer: bool,
    t: Seq<u8>,
    name: Seq<u8>,
    params: Seq<u8>,
    res: Seq<u8>,
    body: Seq<u8>,
)
    requires
        r.len() > 0,
        t.len() > 0,
        name.len() > 0,
    ensures
        ({
            let b = method_bytes(r, pointer, t, name, params, res, body);
            let sl: int = if pointer { 2 } else { 1 };
            let ts = 6 + r.len() as int + sl;
            let cp = ts + t.len() as int;
            let ns = cp + 2;
            let an = ns + name.len() as int;
            &&& b.len() == an + params.len() + res.len() + body.len() + 6
            &&& b.subrange(0, 4) =~= keyword_bytes(Keyword::Func)
            &&& b[4] == SPACE
            &&& b[5] == OPEN_PAREN
            &&& b.subrange(6, cp) =~= r + (if pointer { seq![32u8, 42u8] } else { seq![32u8] }) + t
            &&& (forall|j: int| 6 <= j < 6 + r.len() ==> #[trigger] b[j] == r[j - 6])
            &&& b[6 + r.len() as int] == SPACE
            &&& (pointer ==> b[7 + r.len() as int] == STAR)
            &&& (forall|j: int| ts <= j < cp ==> #[trigger] b[j] == t[j - ts])
            &&& b.subrange(ts, cp) =~= t
            &&& b[cp] == CLOSE_PAREN
            &&& b[cp + 1] == SPACE
            &&& (forall|j: int| ns <= j < an ==> #[trigger] b[j] == name[j - ns])
            &&& b.subrange(ns, an) =~= name
            &&& b[an] == OPEN_PAREN
            &&& b.subrange(an + 1, an + 1 + params.len() as int) =~= params
            &&& b[an + 1 + params.len() as int] == CLOSE_PAREN
            &&& b[an + 2 + params.len() as int] == SPACE
            &&& b.subrange(an + 3 + params.len() as int, an + 3 + params.len() as int + res.len() as int)
                =~= res
            &&& b[an + 3 + params.len() as int + res.len() as int] == SPACE
            &&& b[an + 4 + params.len() as int + res.len() as int] == OPEN_BRACE
            &&& b.subrange(an + 5 + params.len() as int + res.len() as int, b.len() - 1) =~= body
            &&& b[b.len() - 1] == CLOSE_BRACE
        }),
{
    let b = method_bytes(r, pointer, t, name, params, res, body);
    let sep: Seq<u8> = if pointer {
        seq![32u8, 42u8]
    } else {
        seq![32u8]
    };
    let sl: int = if pointer { 2 } else { 1 };
    let ts = 6 + r.len() as int + sl;
    let cp = ts + t.len() as int;
    let ns = cp + 2;
    let an = ns + name.len() as int;
    assert(b.subrange(0, 4) =~= keyword_bytes(Keyword::Func));
    assert(b.subrange(6, cp) =~= r + sep + t);
    assert(b.subrange(ts, cp) =~= t);
    assert(b.subrange(ns, an) =~= name);
    assert(b.subrange(an + 1, an + 1 + params.len() as int) =~= params);
    assert(b.subrange(an + 3 + params.len() as int, an + 3 + params.len() as int + res.len() as int) =~= res);
    assert(b.subrange(an + 5 + params.len() as int + res.len() as int, b.len() - 1) =~= body);
}

/// The receiver `(r T)` or `(r *T)` at 5 names the type `T`, and the
/// method name after it is read.
#[verifier::rlimit(60)]
proof fn lemma_method_name_read(
    r: Seq<u8>,
    pointer: bool,
    t: Seq<u8>,
    name: Seq<u8>,
    params: Seq<u8>,
    res: Seq<u8>,
    body: Seq<u8>,
)
    requires
        identifier(r),
        identifier(t),
        identifier(name),
    ensures
        ({
            let b = method_bytes(r, pointer, t, name, params, res, body);
            let sl: int = if pointer { 2 } else { 1 };
            let an = 8 + r.len() as int + sl + t.len() as int + name.len() as int;
            func_name(b, 5) == Some((t + seq![DOT] + name, an))
        }),
{
    let b = method_bytes(r, pointer, t, name, params, res, body);
    lemma_method_layout(r, pointer, t, name, params, res, body);
    let sep: Seq<u8> = if pointer {
        seq![32u8, 42u8]
    } else {
        seq![32u8]
    };
    let sl: int = if pointer { 2 } else { 1 };
    let ts = 6 + r.len() as int + sl;
    let cp = ts + t.len() as int;
    let ns = cp + 2;
    let an = ns + name.len() as int;
    let inner = r + sep + t;
    assert(plain(inner) && forall|i: int| 0 <= i < inner.len() ==> #[trigger] inner[i] != OPEN_PAREN
        && inner[i] != CLOSE_PAREN) by {
        assert forall|i: int| 0 <= i < inner.len() implies #[trigger] inner[i] != OPEN_PAREN && inner[i]
            != CLOSE_PAREN && inner[i] != 47u8 && !crate::go::lex::is_quote(inner[i]) by {
            if i < r.len() {
                assert(inner[i] == r[i]);
            } else if i < r.len() + sl {
                assert(inner[i] == sep[i - r.len()]);
            } else {
                assert(inner[i] == t[i - r.len() - sl]);
            }
        }
    }
    crate::go::lex::lemma_no_brackets_balanced(inner, OPEN_PAREN, CLOSE_PAREN);
    lemma_balanced_span(b, 5, inner, OPEN_PAREN, CLOSE_PAREN);
    assert(balanced_end(b, 5, OPEN_PAREN, CLOSE_PAREN) == Some(cp + 1));
    assert(spaces_end(b, cp + 1) == ns) by {
        assert(b[ns] == name[0]);
        assert(spaces_end(b, ns) == ns);
    }
    lemma_ident_end_to(b, ns + 1, an);
    assert(b[ns] == name[0]);
    assert(ident_at(b, ns) == Some((name, an)));
    assert(b[6] == r[0]);
    assert(spaces_end(b, 6) == 6);
    lemma_ident_end_to(b, 7, 6 + r.len() as int);
    assert(ident_at(b, 6) == Some((r, 6 + r.len() as int)));
    assert(b[ts] == t[0]);
    lemma_ident_end_to(b, ts + 1, cp);
    assert(ident_at(b, ts) == Some((t, cp)));
    assert(receiver_scan(b, ts, cp) == Some(t));
    if pointer {
        assert(spaces_end(b, 6 + r.len() as int) == 7 + r.len() as int) by {
            assert(spaces_end(b, 7 + r.len() as int) == 7 + r.len() as int);
        }
        assert(receiver_scan(b, 7 + r.len() as int, cp) == receiver_scan(b, ts, cp));
    } else {
        assert(spaces_end(b, 6 + r.len() as int) == ts) by {
            assert(spaces_end(b, ts) == ts);
        }
    }
    assert(receiver_type(b, 6, cp) == Some(t));
    assert(byte_at(b, 5) == OPEN_PAREN);
}

/// Every well-formed method declaration is found under its receiver's
/// type: `func (r T) name(params) res { body }` and `func (r *T) ...`
/// (plain identifiers, a parameter list and body without comments or
/// strings and with balanced brackets, and a result type as
/// [`result_type_ok`] describes) parse as the function `T.name` whose body
/// spans from its `{` to the end.
#[verifier::rlimit(40)]
pub proof fn lemma_declared_method_found(
    r: Seq<u8>,
    pointer: bool,
    t: Seq<u8>,
    name: Seq<u8>,
    params: Seq<u8>,
    res: Seq<u8>,
    body: Seq<u8>,
)
    requires
        identifier(r),
        identifier(t),
        identifier(name),
        plain(params),
        brackets_balanced(params, 40u8, 41u8),
        result_type_ok(res),
        plain(body),
        brackets_balanced(body, 123u8, 125u8),
    ensures
        ({
            let b = method_bytes(r, pointer, t, name, params, res, body);
            parse_func(b, 0) matches Some(f) && f.name == t + seq![46u8] + name && f.start_line == 1
                && f.body_lo == b.len() - body.len() - 2 && f.body_hi == b.len()
        }),
{
    let b = method_bytes(r, pointer, t, name, params, res, body);
    lemma_method_layout(r, pointer, t, name, params, res, body);
    lemma_method_name_read(r, pointer, t, name, params, res, body);
    let sl: int = if pointer { 2 } else { 1 };
    let an = 8 + r.len() as int + sl + t.len() as int + name.len() as int;
    let open = an + 4 + params.len() as int + res.len() as int;
    assert(word_at(b, 0, keyword_bytes(Keyword::Func)));
    assert(spaces_end(b, 4) == 5) by {
        assert(spaces_end(b, 5) == 5);
    }
    assert(spaces_end(b, an) == an);
    lemma_signature_and_body(b, an, params, res, body);
    assert(func_parts(b, 4) == Some((t + seq![DOT] + name, open, b.len() as int)));
    assert(b.subrange(0, 0) =~= Seq::<u8>::empty());
}

} // verus!
