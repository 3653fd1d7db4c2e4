//! Cognitive complexity of a Go function body.
use crate::go::lex::{
    balanced_end, balanced_from, bool_op_at, brackets_balanced, byte_at, ident_byte, is_bool_op, is_quote, is_word, keyword, keyword_bytes,
    lemma_balanced_end, lemma_balanced_span, lemma_plain_at, lemma_skip_noise, matches_at, opt_pos, plain,
    skip_balanced, skip_noise, skip_noise_spec, word_at, Keyword, AMPERSAND, CLOSE_BRACE, CLOSE_PAREN,
    COMMA, OPEN_BRACE, PIPE, SEMICOLON, SLASH, SPACE,
};
use vstd::prelude::*;

verus! {

/// `n`, or `usize::MAX` when it does not fit.
pub open spec fn capped(n: nat) -> nat {
    if n > usize::MAX {
        usize::MAX as nat
    } else {
        n
    }
}

/// The two-byte operator made of `c` twice.
pub open spec fn doubled(c: u8) -> Seq<u8> {
    seq![c, c]
}

/// End of the scan, a boolean operator, or one of `;`, `{`, `)`, `,` at `j`.
pub open spec fn bool_or_stop_at(b: Seq<u8>, j: int) -> bool {
    j >= b.len() || bool_op_at(b, j) || b[j] == SEMICOLON || b[j] == OPEN_BRACE || b[j]
        == CLOSE_PAREN || b[j] == COMMA
}

/// First position from `i` on (outside comments and strings) where an
/// operand of a boolean run ends.
pub open spec fn stop_from(b: Seq<u8>, i: int) -> int
    decreases b.len() - i,
{
    if 0 <= i < b.len() {
        proof {
            lemma_skip_noise(b, i);
        }
        let j = skip_noise_spec(b, i);
        if bool_or_stop_at(b, j) {
            j
        } else {
            stop_from(b, j + 1)
        }
    } else {
        i
    }
}

/// End of a run of the operator `c c` whose operands continue at `i`.
pub open spec fn run_end(b: Seq<u8>, i: int, c: u8) -> int
    decreases b.len() - i,
{
    proof {
        lemma_stop_from(b, i);
    }
    let k = stop_from(b, i);
    if matches_at(b, k, doubled(c)) {
        run_end(b, k + 2, c)
    } else {
        k
    }
}

/// End of the `&&` or `||` run starting at `i`, if one starts there.
pub open spec fn bool_run_end(b: Seq<u8>, i: int) -> Option<int> {
    if matches_at(b, i, doubled(AMPERSAND)) {
        Some(run_end(b, i + 2, AMPERSAND))
    } else if matches_at(b, i, doubled(PIPE)) {
        Some(run_end(b, i + 2, PIPE))
    } else {
        None
    }
}

/// The `{` that opens the block of a control statement whose header starts
/// at `i`; `None` when a `;` or the end comes first.
pub open spec fn block_open_from(b: Seq<u8>, i: int) -> Option<int>
    decreases b.len() - i,
{
    if 0 <= i < b.len() {
        proof {
            lemma_skip_noise(b, i);
        }
        let j = skip_noise_spec(b, i);
        if j >= b.len() {
            None
        } else if b[j] == OPEN_BRACE {
            Some(j)
        } else if b[j] == SEMICOLON {
            None
        } else {
            block_open_from(b, j + 1)
        }
    } else {
        None
    }
}

/// Boolean runs in `b` from `i` on.
pub open spec fn bools_from(b: Seq<u8>, i: int) -> nat
    decreases b.len() - i,
{
    if 0 <= i < b.len() {
        proof {
            lemma_skip_noise(b, i);
        }
        let j = skip_noise_spec(b, i);
        if j < b.len() {
            proof {
                lemma_bool_run_end(b, j);
            }
            match bool_run_end(b, j) {
                Some(e) => 1 + bools_from(b, e),
                None => bools_from(b, j + 1),
            }
        } else {
            0
        }
    } else {
        0
    }
}

/// Length of the control keyword (`if`, `for`, `switch`, `select`) at `j`, or 0.
pub open spec fn control_len(b: Seq<u8>, j: int) -> int {
    if word_at(b, j, keyword_bytes(Keyword::If)) {
        2
    } else if word_at(b, j, keyword_bytes(Keyword::For)) {
        3
    } else if word_at(b, j, keyword_bytes(Keyword::Switch)) {
        6
    } else if word_at(b, j, keyword_bytes(Keyword::Select)) {
        6
    } else {
        0
    }
}

/// Where the scan resumes after a control statement whose header starts at `start`.
pub open spec fn control_next(b: Seq<u8>, start: int) -> int {
    match block_open_from(b, start) {
        None => start,
        Some(open) => match balanced_end(b, open, OPEN_BRACE, CLOSE_BRACE) {
            None => open + 1,
            Some(end) => end,
        },
    }
}

/// Where the scan resumes after the token at `j`, if one counts there.
pub open spec fn token_next(b: Seq<u8>, j: int) -> Option<int> {
    match bool_run_end(b, j) {
        Some(e) => Some(e),
        None => if word_at(b, j, keyword_bytes(Keyword::Else)) {
            Some(j + 4)
        } else if control_len(b, j) > 0 {
            Some(control_next(b, j + control_len(b, j)))
        } else {
            None
        },
    }
}

/// Weight of a control statement's header and block (its keyword excluded):
/// boolean runs in the header, and the block scanned one level deeper.
pub open spec fn control_weight(b: Seq<u8>, start: int, nesting: nat) -> nat
    decreases b.len(), b.len() - start,
{
    match block_open_from(b, start) {
        None => 0,
        Some(open) => {
            proof {
                lemma_block_open_from(b, start);
                lemma_balanced_end(b, open, OPEN_BRACE, CLOSE_BRACE);
            }
            bools_from(b.subrange(start, open), 0) + match balanced_end(
                b,
                open,
                OPEN_BRACE,
                CLOSE_BRACE,
            ) {
                None => 0,
                Some(end) => if end > open + 1 {
                    cognitive_from(b.subrange(open + 1, end - 1), 0, nesting + 1)
                } else {
                    0
                },
            }
        },
    }
}

/// Weight of the token at `j`: 1 for a boolean run or `else`, and
/// `1 + nesting` plus the statement's weight for a control keyword.
pub open spec fn token_weight(b: Seq<u8>, j: int, nesting: nat) -> nat
    decreases b.len(), b.len() - j - 1,
{
    if bool_run_end(b, j) is Some || word_at(b, j, keyword_bytes(Keyword::Else)) {
        1
    } else if control_len(b, j) > 0 && 0 <= j < b.len() {
        (1 + nesting) + control_weight(b, j + control_len(b, j), nesting)
    } else {
        0
    }
}

/// Cognitive weight of `b` from `i` on, at the given nesting depth.
pub open spec fn cognitive_from(b: Seq<u8>, i: int, nesting: nat) -> nat
    decreases b.len(), b.len() - i,
{
    if 0 <= i < b.len() {
        proof {
            lemma_skip_noise(b, i);
        }
        let j = skip_noise_spec(b, i);
        if j >= b.len() {
            0
        } else {
            proof {
                lemma_token_next(b, j);
            }
            match token_next(b, j) {
                Some(next) => token_weight(b, j, nesting) + cognitive_from(b, next, nesting),
                None => cognitive_from(b, j + 1, nesting),
            }
        }
    } else {
        0
    }
}

/// Cognitive complexity of a whole body at nesting depth 0.
pub open spec fn cognitive(b: Seq<u8>) -> nat {
    cognitive_from(b, 0, 0)
}

pub proof fn lemma_stop_from(b: Seq<u8>, i: int)
    ensures
        i <= stop_from(b, i),
        i <= b.len() ==> stop_from(b, i) <= b.len(),
    decreases b.len() - i,
{
    if 0 <= i < b.len() {
        lemma_skip_noise(b, i);
        let j = skip_noise_spec(b, i);
        if !bool_or_stop_at(b, j) {
            lemma_stop_from(b, j + 1);
        }
    }
}

pub proof fn lemma_run_end(b: Seq<u8>, i: int, c: u8)
    ensures
        i <= run_end(b, i, c),
        i <= b.len() ==> run_end(b, i, c) <= b.len(),
    decreases b.len() - i,
{
    lemma_stop_from(b, i);
    let k = stop_from(b, i);
    if matches_at(b, k, doubled(c)) {
        lemma_run_end(b, k + 2, c);
    }
}

pub proof fn lemma_bool_run_end(b: Seq<u8>, i: int)
    ensures
        bool_run_end(b, i) matches Some(e) ==> i + 2 <= e <= b.len(),
{
    lemma_run_end(b, i + 2, AMPERSAND);
    lemma_run_end(b, i + 2, PIPE);
}

pub proof fn lemma_block_open_from(b: Seq<u8>, i: int)
    ensures
        block_open_from(b, i) matches Some(o) ==> i <= o < b.len() && b[o] == OPEN_BRACE,
    decreases b.len() - i,
{
    if 0 <= i < b.len() {
        lemma_skip_noise(b, i);
        let j = skip_noise_spec(b, i);
        if j < b.len() && b[j] != OPEN_BRACE && b[j] != SEMICOLON {
            lemma_block_open_from(b, j + 1);
        }
    }
}

pub proof fn lemma_token_next(b: Seq<u8>, j: int)
    requires
        0 <= j < b.len(),
    ensures
        token_next(b, j) matches Some(n) ==> j < n <= b.len(),
{
    lemma_bool_run_end(b, j);
    let start = j + control_len(b, j);
    lemma_block_open_from(b, start);
    if let Some(open) = block_open_from(b, start) {
        lemma_balanced_end(b, open, OPEN_BRACE, CLOSE_BRACE);
    }
}

pub proof fn lemma_bools_bound(b: Seq<u8>, i: int)
    requires
        0 <= i <= b.len(),
    ensures
        bools_from(b, i) <= b.len() - i,
    decreases b.len() - i,
{
    if i < b.len() {
        lemma_skip_noise(b, i);
        let j = skip_noise_spec(b, i);
        if j < b.len() {
            lemma_bool_run_end(b, j);
            match bool_run_end(b, j) {
                Some(e) => lemma_bools_bound(b, e),
                None => lemma_bools_bound(b, j + 1),
            }
        }
    }
}

fn at_bool_or_stop(bytes: &[u8], i: usize) -> (r: bool)
    ensures
        r == bool_or_stop_at(bytes@, i as int),
{
    if i >= bytes.len() {
        return true;
    }
    if is_bool_op(bytes, i) {
        return true;
    }
    let c = bytes[i];
    c == SEMICOLON || c == OPEN_BRACE || c == CLOSE_PAREN || c == COMMA
}

fn skip_to_bool_or_stop(bytes: &[u8], i: usize) -> (r: usize)
    ensures
        r == stop_from(bytes@, i as int),
{
    let mut pos = i;
    while pos < bytes.len()
        invariant
            stop_from(bytes@, pos as int) == stop_from(bytes@, i as int),
        decreases bytes.len() - pos,
    {
        proof {
            lemma_skip_noise(bytes@, pos as int);
        }
        pos = skip_noise(bytes, pos);
        if at_bool_or_stop(bytes, pos) {
            return pos;
        }
        pos = pos + 1;
    }
    pos
}

fn is_doubled(bytes: &[u8], i: usize, c: u8) -> (r: bool)
    ensures
        r == matches_at(bytes@, i as int, doubled(c)),
        r ==> i + 2 <= bytes.len(),
{
    if i < bytes.len() && bytes.len() - i >= 2 && bytes[i] == c && bytes[i + 1] == c {
        assert(bytes@.subrange(i as int, i + 2) =~= doubled(c));
        true
    } else {
        proof {
            if matches_at(bytes@, i as int, doubled(c)) {
                assert(bytes@.subrange(i as int, i + 2)[0] == c);
                assert(bytes@.subrange(i as int, i + 2)[1] == c);
            }
        }
        false
    }
}

fn consume_bool_run(bytes: &[u8], i: usize) -> (r: Option<usize>)
    ensures
        opt_pos(r) == bool_run_end(bytes@, i as int),
{
    let c: u8 = if is_doubled(bytes, i, AMPERSAND) {
        AMPERSAND
    } else {
        PIPE
    };
    if !is_doubled(bytes, i, c) {
        return None;
    }
    let mut pos = i + 2;
    proof {
        lemma_stop_from(bytes@, pos as int);
    }
    let mut k = skip_to_bool_or_stop(bytes, pos);
    while is_doubled(bytes, k, c)
        invariant
            pos <= k <= bytes.len(),
            k == stop_from(bytes@, pos as int),
            bool_run_end(bytes@, i as int) == Some(run_end(bytes@, pos as int, c)),
        decreases bytes.len() - k,
    {
        pos = k + 2;
        proof {
            lemma_stop_from(bytes@, pos as int);
        }
        k = skip_to_bool_or_stop(bytes, pos);
    }
    Some(k)
}

fn find_block_open(bytes: &[u8], i: usize) -> (r: Option<usize>)
    ensures
        opt_pos(r) == block_open_from(bytes@, i as int),
{
    let mut pos = i;
    while pos < bytes.len()
        invariant
            block_open_from(bytes@, pos as int) == block_open_from(bytes@, i as int),
        decreases bytes.len() - pos,
    {
        proof {
            lemma_skip_noise(bytes@, pos as int);
        }
        pos = skip_noise(bytes, pos);
        if pos >= bytes.len() {
            return None;
        }
        if bytes[pos] == OPEN_BRACE {
            return Some(pos);
        }
        if bytes[pos] == SEMICOLON {
            return None;
        }
        pos = pos + 1;
    }
    None
}

fn scan_bools(bytes: &[u8]) -> (n: usize)
    ensures
        n == bools_from(bytes@, 0),
{
    proof {
        lemma_bools_bound(bytes@, 0);
    }
    let mut n: usize = 0;
    let mut i: usize = 0;
    while i < bytes.len()
        invariant
            i <= bytes.len(),
            n + bools_from(bytes@, i as int) == bools_from(bytes@, 0),
            bools_from(bytes@, 0) <= bytes@.len(),
        decreases bytes.len() - i,
    {
        proof {
            lemma_skip_noise(bytes@, i as int);
        }
        let ghost before = i as int;
        i = skip_noise(bytes, i);
        if i < bytes.len() {
            proof {
                lemma_bool_run_end(bytes@, i as int);
            }
            assert(bools_from(bytes@, before) == match bool_run_end(bytes@, i as int) {
                Some(e) => 1 + bools_from(bytes@, e),
                None => bools_from(bytes@, i + 1),
            });
            if let Some(end) = consume_bool_run(bytes, i) {
                n = n + 1;
                i = end;
            } else {
                i = i + 1;
            }
        }
    }
    n
}

fn after_control(bytes: &[u8], start: usize, nesting: usize) -> (r: (usize, usize))
    requires
        start <= bytes.len(),
        nesting + bytes@.len() <= usize::MAX,
    ensures
        r.0 == control_next(bytes@, start as int),
        r.1 == capped(control_weight(bytes@, start as int, nesting as nat)),
    decreases bytes@.len(), 0int,
{
    proof {
        lemma_block_open_from(bytes@, start as int);
    }
    let open = match find_block_open(bytes, start) {
        None => {
            return (start, 0);
        },
        Some(open) => open,
    };
    proof {
        lemma_bools_bound(bytes@.subrange(start as int, open as int), 0);
        lemma_balanced_end(bytes@, open as int, OPEN_BRACE, CLOSE_BRACE);
    }
    let head = scan_bools(&bytes[start..open]);
    match skip_balanced(bytes, open, OPEN_BRACE, CLOSE_BRACE) {
        None => (open + 1, head),
        Some(end) => {
            if end > open + 1 {
                let inner = scan(&bytes[open + 1..end - 1], nesting + 1);
                (end, head.saturating_add(inner))
            } else {
                (end, head)
            }
        },
    }
}

fn take_token(bytes: &[u8], i: usize, nesting: usize) -> (r: Option<(usize, usize)>)
    requires
        i < bytes.len(),
        nesting + bytes@.len() <= usize::MAX,
    ensures
        r matches Some((next, w)) ==> token_next(bytes@, i as int) == Some(next as int) && w
            == capped(token_weight(bytes@, i as int, nesting as nat)),
        r is None ==> token_next(bytes@, i as int) is None,
    decreases bytes@.len(), 1int,
{
    proof {
        lemma_bool_run_end(bytes@, i as int);
    }
    if let Some(end) = consume_bool_run(bytes, i) {
        return Some((end, 1));
    }
    if is_word(bytes, i, keyword(Keyword::Else)) {
        return Some((i + 4, 1));
    }
    let width: usize = if is_word(bytes, i, keyword(Keyword::If)) {
        2
    } else if is_word(bytes, i, keyword(Keyword::For)) {
        3
    } else if is_word(bytes, i, keyword(Keyword::Switch)) {
        6
    } else if is_word(bytes, i, keyword(Keyword::Select)) {
        6
    } else {
        0
    };
    if width == 0 {
        return None;
    }
    let (next, weight) = after_control(bytes, i + width, nesting);
    Some((next, (1 + nesting).saturating_add(weight)))
}

fn scan(bytes: &[u8], nesting: usize) -> (r: usize)
    requires
        nesting + bytes@.len() <= usize::MAX,
    ensures
        r == capped(cognitive_from(bytes@, 0, nesting as nat)),
    decreases bytes@.len(), 2int,
{
    let mut total: usize = 0;
    let mut i: usize = 0;
    while i < bytes.len()
        invariant
            i <= bytes.len(),
            nesting + bytes@.len() <= usize::MAX,
            capped(total as nat + cognitive_from(bytes@, i as int, nesting as nat)) == capped(
                cognitive_from(bytes@, 0, nesting as nat),
            ),
        ensures
            total == capped(cognitive_from(bytes@, 0, nesting as nat)),
        decreases bytes.len() - i,
    {
        proof {
            lemma_skip_noise(bytes@, i as int);
        }
        let ghost before = i as int;
        i = skip_noise(bytes, i);
        if i >= bytes.len() {
            break;
        }
        proof {
            lemma_token_next(bytes@, i as int);
        }
        assert(cognitive_from(bytes@, before, nesting as nat) == match token_next(bytes@, i as int) {
            Some(next) => token_weight(bytes@, i as int, nesting as nat) + cognitive_from(
                bytes@,
                next,
                nesting as nat,
            ),
            None => cognitive_from(bytes@, i + 1, nesting as nat),
        });
        if let Some((next, weight)) = take_token(bytes, i, nesting) {
            total = total.saturating_add(weight);
            i = next;
            continue;
        }
        i = i + 1;
    }
    total
}

/// Cognitive complexity of `body` (0 or more): 1 per `&&`/`||` run and per
/// `else`, and `1 + nesting` per `if`, `for`, `switch` and `select`, whose
/// blocks are scanned one level deeper; the sum stops at `usize::MAX`.
pub fn count(body: &[u8]) -> (n: usize)
    ensures
        n == capped(cognitive(body@)),
{
    proof {
        assert(body@.len() == body.len());
    }
    scan(body, 0)
}

/// A header of plain bytes without `{` or `;` leads to the `{` after it.
proof fn lemma_open_after_header(b: Seq<u8>, i: int, open: int)
    requires
        0 <= i <= open < b.len(),
        b[open] == OPEN_BRACE,
        forall|k: int|
            i <= k < open ==> #[trigger] b[k] != OPEN_BRACE && b[k] != SEMICOLON && b[k] != SLASH && !is_quote(
                b[k],
            ),
    ensures
        block_open_from(b, i) == Some(open),
    decreases open - i,
{
    lemma_plain_at(b, i);
    if i < open {
        lemma_open_after_header(b, i + 1, open);
    }
}

/// Plain bytes without `&` or `|` hold no boolean run.
proof fn lemma_no_bools(b: Seq<u8>, i: int)
    requires
        0 <= i,
        forall|k: int| 0 <= k < b.len() ==> #[trigger] b[k] != AMPERSAND && b[k] != PIPE && b[k] != SLASH
            && !is_quote(b[k]),
    ensures
        bools_from(b, i) == 0,
    decreases b.len() - i,
{
    if i < b.len() {
        lemma_plain_at(b, i);
        assert(bool_run_end(b, i) is None);
        lemma_no_bools(b, i + 1);
    }
}

/// A space counts nothing and the scan moves past it.
proof fn lemma_space_step(b: Seq<u8>, j: int, nesting: nat)
    requires
        0 <= j < b.len(),
        b[j] == SPACE,
    ensures
        cognitive_from(b, j, nesting) == cognitive_from(b, j + 1, nesting),
{
    lemma_plain_at(b, j);
    assert(bool_run_end(b, j) is None);
    assert(!word_at(b, j, keyword_bytes(Keyword::Else)));
    assert(control_len(b, j) == 0);
}

/// The control keyword set off by spaces at `j` is read as that keyword.
proof fn lemma_control_word_at(b: Seq<u8>, j: int, kw: Seq<u8>)
    requires
        kw == seq![105u8, 102u8] || kw == seq![102u8, 111u8, 114u8] || kw == seq![
            115u8,
            119u8,
            105u8,
            116u8,
            99u8,
            104u8,
        ] || kw == seq![115u8, 101u8, 108u8, 101u8, 99u8, 116u8],
        1 <= j,
        j + kw.len() < b.len(),
        b[j - 1] == SPACE,
        b.subrange(j, j + kw.len()) == kw,
        b[j + kw.len()] == SPACE,
    ensures
        bool_run_end(b, j) is None,
        !word_at(b, j, keyword_bytes(Keyword::Else)),
        control_len(b, j) == kw.len(),
{
    assert(b[j] == kw[0]);
    assert(b[j + 1] == kw[1]);
    if kw.len() > 2 {
        assert(b[j + 2] == kw[2]);
    }
    if kw.len() > 3 {
        assert(b.subrange(j, j + kw.len()).subrange(0, 4) == kw.subrange(0, 4));
    }
}

/// The weight of a control statement whose keyword ends at `start`, whose
/// header runs to the `{` at `open`, and whose block `body` closes just
/// before `end`.
#[verifier::rlimit(40)]
proof fn lemma_control_statement(b: Seq<u8>, start: int, open: int, body: Seq<u8>, n: nat)
    requires
        1 <= start <= open,
        open + body.len() + 2 < b.len(),
        forall|k: int|
            start <= k < open ==> #[trigger] b[k] != OPEN_BRACE && b[k] != SEMICOLON && b[k] != SLASH
                && !is_quote(b[k]) && b[k] != AMPERSAND && b[k] != PIPE,
        b[open] == OPEN_BRACE,
        b.subrange(open + 1, open + 1 + body.len()) == body,
        b[open + 1 + body.len()] == CLOSE_BRACE,
        plain(body),
        brackets_balanced(body, OPEN_BRACE, CLOSE_BRACE),
    ensures
        control_next(b, start) == open + body.len() + 2,
        control_weight(b, start, n) == cognitive_from(body, 0, n + 1),
{
    let end = open + body.len() + 2;
    lemma_open_after_header(b, start, open);
    lemma_balanced_span(b, open, body, OPEN_BRACE, CLOSE_BRACE);
    let header = b.subrange(start, open);
    assert forall|k: int| 0 <= k < header.len() implies #[trigger] header[k] != AMPERSAND && header[k] != PIPE
        && header[k] != SLASH && !is_quote(header[k]) by {
        assert(header[k] == b[start + k]);
    }
    lemma_no_bools(header, 0);
    assert(b.subrange(open + 1, end - 1) =~= body);
}

/// The statement laid out in `b`: a space, the keyword, its header up to
/// the `{` at `open`, the block `body`, `}`, and a final space.
#[verifier::rlimit(40)]
proof fn lemma_control_in(b: Seq<u8>, kw: Seq<u8>, open: int, body: Seq<u8>, n: nat)
    requires
        kw == seq![105u8, 102u8] || kw == seq![102u8, 111u8, 114u8] || kw == seq![
            115u8,
            119u8,
            105u8,
            116u8,
            99u8,
            104u8,
        ] || kw == seq![115u8, 101u8, 108u8, 101u8, 99u8, 116u8],
        1 + kw.len() <= open,
        b.len() == open + body.len() + 3,
        b[0] == SPACE,
        b.subrange(1, 1 + kw.len() as int) == kw,
        b[1 + kw.len() as int] == SPACE,
        forall|k: int|
            1 + kw.len() <= k < open ==> #[trigger] b[k] != OPEN_BRACE && b[k] != SEMICOLON && b[k] != SLASH
                && !is_quote(b[k]) && b[k] != AMPERSAND && b[k] != PIPE,
        b[open] == OPEN_BRACE,
        b.subrange(open + 1, open + 1 + body.len()) == body,
        b[open + 1 + body.len()] == CLOSE_BRACE,
        b[open + body.len() + 2] == SPACE,
        plain(body),
        brackets_balanced(body, OPEN_BRACE, CLOSE_BRACE),
    ensures
        cognitive_from(b, 0, n) == 1 + n + cognitive_from(body, 0, n + 1),
{
    let start = 1 + kw.len() as int;
    let end = open + body.len() + 2;
    lemma_control_word_at(b, 1, kw);
    lemma_control_statement(b, start, open, body, n);
    lemma_space_step(b, 0, n);
    lemma_plain_at(b, 1);
    assert(token_next(b, 1) == Some(end));
    assert(token_weight(b, 1, n) == 1 + n + cognitive_from(body, 0, n + 1));
    assert(cognitive_from(b, 1, n) == token_weight(b, 1, n) + cognitive_from(b, end, n));
    lemma_space_step(b, end, n);
}

/// A control statement adds one plus its nesting depth and scores its
/// block one level deeper: for the keyword `if`, `for`, `switch` or
/// `select`, a header `h` and a block body `body` (both without comments or
/// strings, the header without `{`, `;`, `&` or `|`, the body's braces
/// balanced), the statement `K h { body }` at depth `n` weighs
/// `1 + n` plus the weight of `body` at depth `n + 1`.
pub proof fn lemma_control_nests(kw: Seq<u8>, h: Seq<u8>, body: Seq<u8>, n: nat)
    requires
        kw == seq![105u8, 102u8] || kw == seq![102u8, 111u8, 114u8] || kw == seq![
            115u8,
            119u8,
            105u8,
            116u8,
            99u8,
            104u8,
        ] || kw == seq![115u8, 101u8, 108u8, 101u8, 99u8, 116u8],
        forall|k: int| 0 <= k < h.len() ==> #[trigger] h[k] != OPEN_BRACE && h[k] != SEMICOLON && h[k]
            != AMPERSAND && h[k] != PIPE,
        plain(h),
        plain(body),
        brackets_balanced(body, OPEN_BRACE, CLOSE_BRACE),
    ensures
        cognitive_from(
            seq![SPACE] + kw + seq![SPACE] + h + seq![SPACE, OPEN_BRACE] + body + seq![CLOSE_BRACE, SPACE],
            0,
            n,
        ) == 1 + n + cognitive_from(body, 0, n + 1),
{
    let b = seq![SPACE] + kw + seq![SPACE] + h + seq![SPACE, OPEN_BRACE] + body + seq![CLOSE_BRACE, SPACE];
    let kl = kw.len() as int;
    let start = 1 + kl;
    let open = kl + h.len() + 3;
    let end = open + body.len() + 2;
    assert(b.len() == end + 1);
    assert(b[0] == SPACE);
    assert(b.subrange(1, 1 + kl) =~= kw);
    assert(b[1 + kl] == SPACE);
    assert(b[open] == OPEN_BRACE);
    assert(b.subrange(open + 1, open + 1 + body.len()) =~= body);
    assert(b[open + 1 + body.len()] == CLOSE_BRACE);
    assert(b[end] == SPACE);
    assert forall|k: int| start <= k < open implies #[trigger] b[k] != OPEN_BRACE && b[k] != SEMICOLON && b[k]
        != SLASH && !is_quote(b[k]) && b[k] != AMPERSAND && b[k] != PIPE by {
        if start < k < open - 1 {
            assert(b[k] == h[k - start - 1]);
        }
    }
    lemma_control_in(b, kw, open, body, n);
}

/// `o` moved on by `d`.
pub open spec fn moved(o: Option<int>, d: int) -> Option<int> {
    match o {
        Some(v) => Some(v + d),
        None => None,
    }
}

/// `w` occurs at `|p| + k` of `p + q` just when it occurs at `k` of `q`.
proof fn lemma_matches_shift(p: Seq<u8>, q: Seq<u8>, k: int, w: Seq<u8>)
    requires
        0 <= k,
    ensures
        matches_at(p + q, p.len() + k, w) == matches_at(q, k, w),
{
    if k + w.len() <= q.len() {
        assert((p + q).subrange(p.len() + k, p.len() + k + w.len()) =~= q.subrange(k, k + w.len()));
    }
}

/// A whole word at `|p| + k` of `p + q` is one at `k` of `q`, when `q`
/// starts with a byte that cannot continue a word.
proof fn lemma_word_shift(p: Seq<u8>, q: Seq<u8>, k: int, w: Seq<u8>)
    requires
        0 <= k < q.len(),
        !ident_byte(q[0]),
        w.len() > 0,
        ident_byte(w[0]),
    ensures
        word_at(p + q, p.len() + k, w) == word_at(q, k, w),
{
    let b = p + q;
    lemma_matches_shift(p, q, k, w);
    if k == 0 {
        if matches_at(q, 0, w) {
            assert(q.subrange(0, w.len() as int)[0] == q[0]);
        }
    } else {
        assert(byte_at(b, p.len() + k - 1) == byte_at(q, k - 1));
    }
    assert(byte_at(b, p.len() + k + w.len()) == byte_at(q, k + w.len()));
}

/// Operands end at the same place of `q`, read alone or after `p`.
proof fn lemma_stop_shift(p: Seq<u8>, q: Seq<u8>, k: int)
    requires
        0 <= k <= q.len(),
        plain(q),
    ensures
        stop_from(p + q, p.len() + k) == p.len() + stop_from(q, k),
    decreases q.len() - k,
{
    let b = p + q;
    if k < q.len() {
        assert(b[p.len() + k] == q[k]);
        lemma_plain_at(b, p.len() + k);
        lemma_plain_at(q, k);
        lemma_matches_shift(p, q, k, doubled(AMPERSAND));
        lemma_matches_shift(p, q, k, doubled(PIPE));
        if !bool_or_stop_at(q, k) {
            lemma_stop_shift(p, q, k + 1);
        }
    }
}

/// A boolean run of `q` ends at the same place after `p`.
proof fn lemma_run_shift(p: Seq<u8>, q: Seq<u8>, k: int, c: u8)
    requires
        0 <= k,
        plain(q),
    ensures
        run_end(p + q, p.len() + k, c) == p.len() + run_end(q, k, c),
    decreases q.len() - k,
{
    if k <= q.len() {
        lemma_stop_shift(p, q, k);
    }
    lemma_stop_from(q, k);
    let e = stop_from(q, k);
    lemma_matches_shift(p, q, e, doubled(c));
    if matches_at(q, e, doubled(c)) {
        lemma_run_shift(p, q, e + 2, c);
    }
}

proof fn lemma_bool_run_shift(p: Seq<u8>, q: Seq<u8>, k: int)
    requires
        0 <= k,
        plain(q),
    ensures
        bool_run_end(p + q, p.len() + k) == moved(bool_run_end(q, k), p.len() as int),
{
    lemma_matches_shift(p, q, k, doubled(AMPERSAND));
    lemma_matches_shift(p, q, k, doubled(PIPE));
    lemma_run_shift(p, q, k + 2, AMPERSAND);
    lemma_run_shift(p, q, k + 2, PIPE);
}

proof fn lemma_block_open_shift(p: Seq<u8>, q: Seq<u8>, k: int)
    requires
        0 <= k <= q.len(),
        plain(q),
    ensures
        block_open_from(p + q, p.len() + k) == moved(block_open_from(q, k), p.len() as int),
    decreases q.len() - k,
{
    let b = p + q;
    if k < q.len() {
        assert(b[p.len() + k] == q[k]);
        lemma_plain_at(b, p.len() + k);
        lemma_plain_at(q, k);
        lemma_block_open_shift(p, q, k + 1);
    }
}

proof fn lemma_balanced_from_shift(p: Seq<u8>, q: Seq<u8>, k: int, depth: int)
    requires
        0 <= k <= q.len(),
        plain(q),
    ensures
        balanced_from(p + q, p.len() + k, depth, OPEN_BRACE, CLOSE_BRACE) == moved(
            balanced_from(q, k, depth, OPEN_BRACE, CLOSE_BRACE),
            p.len() as int,
        ),
    decreases q.len() - k,
{
    let b = p + q;
    if k < q.len() {
        assert(b[p.len() + k] == q[k]);
        lemma_plain_at(b, p.len() + k);
        lemma_plain_at(q, k);
        lemma_balanced_from_shift(p, q, k + 1, depth + 1);
        lemma_balanced_from_shift(p, q, k + 1, depth - 1);
        lemma_balanced_from_shift(p, q, k + 1, depth);
    }
}

proof fn lemma_balanced_end_shift(p: Seq<u8>, q: Seq<u8>, k: int)
    requires
        0 <= k <= q.len(),
        plain(q),
    ensures
        balanced_end(p + q, p.len() + k, OPEN_BRACE, CLOSE_BRACE) == moved(
            balanced_end(q, k, OPEN_BRACE, CLOSE_BRACE),
            p.len() as int,
        ),
{
    if k < q.len() {
        assert((p + q)[p.len() + k] == q[k]);
    }
    lemma_balanced_from_shift(p, q, k, 0);
}

/// A control statement's header and block weigh the same after `p`.
#[verifier::rlimit(40)]
proof fn lemma_control_weight_shift(p: Seq<u8>, q: Seq<u8>, s: int, n: nat)
    requires
        0 <= s <= q.len(),
        plain(q),
    ensures
        control_weight(p + q, p.len() + s, n) == control_weight(q, s, n),
        control_next(p + q, p.len() + s) == p.len() + control_next(q, s),
{
    let b = p + q;
    let d = p.len() as int;
    lemma_block_open_shift(p, q, s);
    lemma_block_open_from(q, s);
    match block_open_from(q, s) {
        None => {},
        Some(open) => {
            assert(b.subrange(d + s, d + open) =~= q.subrange(s, open));
            lemma_balanced_end_shift(p, q, open);
            lemma_balanced_end(q, open, OPEN_BRACE, CLOSE_BRACE);
            match balanced_end(q, open, OPEN_BRACE, CLOSE_BRACE) {
                None => {},
                Some(end) => {
                    if end > open + 1 {
                        assert(b.subrange(d + open + 1, d + end - 1) =~= q.subrange(open + 1, end - 1));
                    }
                },
            }
        },
    }
}

/// The token at `k` of `q` is read and weighed the same after `p`.
proof fn lemma_token_shift(p: Seq<u8>, q: Seq<u8>, k: int, n: nat)
    requires
        0 <= k < q.len(),
        plain(q),
        !ident_byte(q[0]),
    ensures
        token_next(p + q, p.len() + k) == moved(token_next(q, k), p.len() as int),
        token_weight(p + q, p.len() + k, n) == token_weight(q, k, n),
{
    let b = p + q;
    lemma_bool_run_shift(p, q, k);
    lemma_word_shift(p, q, k, keyword_bytes(Keyword::Else));
    lemma_word_shift(p, q, k, keyword_bytes(Keyword::If));
    lemma_word_shift(p, q, k, keyword_bytes(Keyword::For));
    lemma_word_shift(p, q, k, keyword_bytes(Keyword::Switch));
    lemma_word_shift(p, q, k, keyword_bytes(Keyword::Select));
    assert(control_len(b, p.len() + k) == control_len(q, k));
    let c = control_len(q, k);
    if c > 0 {
        assert(k + c <= q.len());
        lemma_control_weight_shift(p, q, k + c, n);
    }
}

/// The weight of `q` from `k` on is the same after any prefix `p`, when
/// `q` has no comments or strings and starts with a byte that cannot
/// continue a word.
proof fn lemma_cognitive_shift(p: Seq<u8>, q: Seq<u8>, k: int, n: nat)
    requires
        0 <= k <= q.len(),
        q.len() > 0,
        plain(q),
        !ident_byte(q[0]),
    ensures
        cognitive_from(p + q, p.len() + k, n) == cognitive_from(q, k, n),
    decreases q.len() - k,
{
    let b = p + q;
    if k < q.len() {
        assert(b[p.len() + k] == q[k]);
        lemma_plain_at(b, p.len() + k);
        lemma_plain_at(q, k);
        lemma_token_shift(p, q, k, n);
        lemma_token_next(q, k);
        match token_next(q, k) {
            Some(next) => lemma_cognitive_shift(p, q, next, n),
            None => lemma_cognitive_shift(p, q, k + 1, n),
        }
    }
}

/// `else` adds exactly one, at any nesting depth: ` else ` in front of a
/// body `s` without comments or strings raises its weight by one.
pub proof fn lemma_else_adds_one(s: Seq<u8>, n: nat)
    requires
        plain(s),
    ensures
        cognitive_from(seq![SPACE] + seq![101u8, 108u8, 115u8, 101u8] + seq![SPACE] + s, 0, n) == 1
            + cognitive_from(seq![SPACE] + s, 0, n),
{
    let p = seq![SPACE] + seq![101u8, 108u8, 115u8, 101u8];
    let q = seq![SPACE] + s;
    let b = p + q;
    assert(seq![SPACE] + seq![101u8, 108u8, 115u8, 101u8] + seq![SPACE] + s =~= b);
    assert(plain(q)) by {
        assert forall|i: int| 0 <= i < q.len() implies #[trigger] q[i] != SLASH && !is_quote(q[i]) by {
            if i > 0 {
                assert(q[i] == s[i - 1]);
            }
        }
    }
    assert(b[0] == SPACE);
    assert(b[5] == SPACE);
    lemma_space_step(b, 0, n);
    lemma_plain_at(b, 1);
    assert(b.subrange(1, 5) =~= keyword_bytes(Keyword::Else));
    assert(word_at(b, 1, keyword_bytes(Keyword::Else)));
    assert(bool_run_end(b, 1) is None);
    assert(token_next(b, 1) == Some(5int));
    assert(token_weight(b, 1, n) == 1);
    lemma_cognitive_shift(p, q, 0, n);
}

/// Bytes that never end an operand nor start an operator or a comment.
pub open spec fn operand_bytes(x: Seq<u8>) -> bool {
    forall|k: int|
        0 <= k < x.len() ==> #[trigger] x[k] != AMPERSAND && x[k] != PIPE && x[k] != SEMICOLON && x[k]
            != OPEN_BRACE && x[k] != CLOSE_PAREN && x[k] != COMMA && x[k] != SLASH && !is_quote(x[k])
}

/// An operand running from `i` to a stop at `e` ends there.
proof fn lemma_operand_stop(b: Seq<u8>, i: int, e: int)
    requires
        0 <= i <= e < b.len(),
        forall|k: int|
            i <= k < e ==> #[trigger] b[k] != AMPERSAND && b[k] != PIPE && b[k] != SEMICOLON && b[k]
                != OPEN_BRACE && b[k] != CLOSE_PAREN && b[k] != COMMA && b[k] != SLASH && !is_quote(b[k]),
        b[e] != SLASH && !is_quote(b[e]),
        bool_or_stop_at(b, e),
    ensures
        stop_from(b, i) == e,
    decreases e - i,
{
    lemma_plain_at(b, i);
    if i < e {
        if matches_at(b, i, doubled(AMPERSAND)) {
            assert(b.subrange(i, i + 2)[0] == b[i]);
        }
        if matches_at(b, i, doubled(PIPE)) {
            assert(b.subrange(i, i + 2)[0] == b[i]);
        }
        lemma_operand_stop(b, i + 1, e);
    }
}

/// Layout of ` c1c1 x c2c2 y ;` followed by `s`.
#[verifier::rlimit(40)]
proof fn lemma_run_layout(c1: u8, x: Seq<u8>, c2: u8, y: Seq<u8>, s: Seq<u8>)
    requires
        c1 == AMPERSAND || c1 == PIPE,
        c2 == AMPERSAND || c2 == PIPE,
        operand_bytes(x),
        operand_bytes(y),
    ensures
        ({
            let b = seq![SPACE, c1, c1] + x + seq![c2, c2] + y + seq![SEMICOLON] + s;
            let m = 3 + x.len() as int;
            let e = m + 2 + y.len() as int;
            &&& b.len() == e + 1 + s.len()
            &&& b[0] == SPACE
            &&& b[1] == c1 && b[2] == c1
            &&& b[m] == c2 && b[m + 1] == c2
            &&& b[e] == SEMICOLON
            &&& (forall|k: int| 3 <= k < m ==> #[trigger] b[k] == x[k - 3])
            &&& (forall|k: int| m + 2 <= k < e ==> #[trigger] b[k] == y[k - m - 2])
            &&& b.subrange(e, b.len() as int) =~= seq![SEMICOLON] + s
            &&& b =~= seq![SPACE, c1, c1] + x + seq![c2, c2] + y + (seq![SEMICOLON] + s)
        }),
{
}

/// A run of `c c` at `j` weighs one and the scan resumes where it ends.
proof fn lemma_run_token(b: Seq<u8>, j: int, c: u8, n: nat)
    requires
        c == AMPERSAND || c == PIPE,
        0 <= j,
        j + 2 <= b.len(),
        b[j] == c,
        b[j + 1] == c,
    ensures
        cognitive_from(b, j, n) == 1 + cognitive_from(b, run_end(b, j + 2, c), n),
{
    lemma_plain_at(b, j);
    assert(b.subrange(j, j + 2) =~= doubled(c));
    if c == PIPE {
        assert(!matches_at(b, j, doubled(AMPERSAND))) by {
            if matches_at(b, j, doubled(AMPERSAND)) {
                assert(b.subrange(j, j + 2)[0] == b[j]);
            }
        }
    }
    assert(bool_run_end(b, j) == Some(run_end(b, j + 2, c)));
    lemma_run_end(b, j + 2, c);
    assert(token_next(b, j) == Some(run_end(b, j + 2, c)));
    assert(token_weight(b, j, n) == 1);
}

/// Each run of one boolean operator counts once, and a change of operator
/// starts a new run: in ` c1c1 x c2c2 y ;` (operands `x`, `y` without
/// operators, stops, comments or strings) the operators weigh 1 when they
/// are the same and 2 when they differ, at any nesting depth.
#[verifier::rlimit(40)]
pub proof fn lemma_bool_runs(c1: u8, x: Seq<u8>, c2: u8, y: Seq<u8>, s: Seq<u8>, n: nat)
    requires
        c1 == 38u8 || c1 == 124u8,
        c2 == 38u8 || c2 == 124u8,
        operand_bytes(x),
        operand_bytes(y),
        plain(s),
    ensures
        cognitive_from(seq![SPACE, c1, c1] + x + seq![c2, c2] + y + seq![SEMICOLON] + s, 0, n) == (if c1
            == c2 {
            1nat
        } else {
            2nat
        }) + cognitive_from(seq![SEMICOLON] + s, 0, n),
{
    let b = seq![SPACE, c1, c1] + x + seq![c2, c2] + y + seq![SEMICOLON] + s;
    let p = seq![SPACE, c1, c1] + x + seq![c2, c2] + y;
    let q = seq![SEMICOLON] + s;
    let m = 3 + x.len() as int;
    let e = m + 2 + y.len() as int;
    lemma_run_layout(c1, x, c2, y, s);
    assert(b == p + q);
    assert(p.len() == e);
    assert(plain(q)) by {
        assert forall|i: int| 0 <= i < q.len() implies #[trigger] q[i] != SLASH && !is_quote(q[i]) by {
            if i > 0 {
                assert(q[i] == s[i - 1]);
            }
        }
    }
    lemma_space_step(b, 0, n);
    assert(bool_op_at(b, m)) by {
        assert(b.subrange(m, m + 2) =~= seq![c2, c2]);
    }
    assert(!matches_at(b, e, doubled(c1)) && !matches_at(b, e, doubled(c2))) by {
        if matches_at(b, e, doubled(c1)) || matches_at(b, e, doubled(c2)) {
            assert(b.subrange(e, e + 2)[0] == b[e]);
        }
    }
    lemma_operand_stop(b, 3, m);
    lemma_operand_stop(b, m + 2, e);
    assert(run_end(b, m + 2, c2) == e);
    lemma_cognitive_shift(p, q, 0, n);
    lemma_run_token(b, 1, c1, n);
    if c1 == c2 {
        assert(b.subrange(m, m + 2) =~= doubled(c1));
        assert(run_end(b, 3, c1) == run_end(b, m + 2, c1));
    } else {
        assert(!matches_at(b, m, doubled(c1))) by {
            assert(b.subrange(m, m + 2)[0] == b[m]);
        }
        assert(run_end(b, 3, c1) == m);
        lemma_run_token(b, m, c2, n);
    }
}

} // verus!
