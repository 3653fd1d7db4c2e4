//! Shared scanners over Go source bytes: comments, string literals, balanced
//! brackets, and whole words.
use vstd::prelude::*;

verus! {

pub const TAB: u8 = 9;
pub const NEWLINE: u8 = 10;
pub const CARRIAGE_RETURN: u8 = 13;
pub const SPACE: u8 = 32;
pub const DOUBLE_QUOTE: u8 = 34;
pub const AMPERSAND: u8 = 38;
pub const SINGLE_QUOTE: u8 = 39;
pub const OPEN_PAREN: u8 = 40;
pub const CLOSE_PAREN: u8 = 41;
pub const STAR: u8 = 42;
pub const COMMA: u8 = 44;
pub const DOT: u8 = 46;
pub const SLASH: u8 = 47;
pub const SEMICOLON: u8 = 59;
pub const OPEN_BRACKET: u8 = 91;
pub const BACKSLASH: u8 = 92;
pub const CLOSE_BRACKET: u8 = 93;
pub const UNDERSCORE: u8 = 95;
pub const BACKTICK: u8 = 96;
pub const OPEN_BRACE: u8 = 123;
pub const PIPE: u8 = 124;
pub const CLOSE_BRACE: u8 = 125;

/// Which literal was left open at the end of the input.
#[derive(Debug, Clone, Copy, PartialEq, Eq, Structural)]
pub enum Unclosed {
    /// A `"..."`, `'...'` or raw string literal.
    String,
    /// A `/* ... */` comment.
    Comment,
}

/// Go keywords that the complexity scanners look for.
#[derive(Debug, Clone, Copy, PartialEq, Eq, Structural)]
pub enum Keyword {
    If,
    For,
    Case,
    Default,
    Else,
    Switch,
    Select,
    Func,
}

/// The ASCII bytes of a keyword.
pub open spec fn keyword_bytes(k: Keyword) -> Seq<u8> {
    match k {
        Keyword::If => seq![105u8, 102u8],
        Keyword::For => seq![102u8, 111u8, 114u8],
        Keyword::Case => seq![99u8, 97u8, 115u8, 101u8],
        Keyword::Default => seq![100u8, 101u8, 102u8, 97u8, 117u8, 108u8, 116u8],
        Keyword::Else => seq![101u8, 108u8, 115u8, 101u8],
        Keyword::Switch => seq![115u8, 119u8, 105u8, 116u8, 99u8, 104u8],
        Keyword::Select => seq![115u8, 101u8, 108u8, 101u8, 99u8, 116u8],
        Keyword::Func => seq![102u8, 117u8, 110u8, 99u8],
    }
}

/// The byte at `i`, or 0 outside the input.
pub open spec fn byte_at(b: Seq<u8>, i: int) -> u8 {
    if 0 <= i < b.len() {
        b[i]
    } else {
        0
    }
}

/// ASCII letter, digit, or underscore.
pub open spec fn ident_byte(c: u8) -> bool {
    (48 <= c <= 57) || (65 <= c <= 90) || (97 <= c <= 122) || c == UNDERSCORE
}

/// ASCII letter or underscore.
pub open spec fn ident_start(c: u8) -> bool {
    (65 <= c <= 90) || (97 <= c <= 122) || c == UNDERSCORE
}

/// A byte that opens a string literal.
pub open spec fn is_quote(c: u8) -> bool {
    c == DOUBLE_QUOTE || c == SINGLE_QUOTE || c == BACKTICK
}

/// `w` occurs in `b` at `i`.
pub open spec fn matches_at(b: Seq<u8>, i: int, w: Seq<u8>) -> bool {
    0 <= i && i + w.len() <= b.len() && b.subrange(i, i + w.len()) == w
}

/// `w` occurs at `i` with no identifier byte directly before or after it.
pub open spec fn word_at(b: Seq<u8>, i: int, w: Seq<u8>) -> bool {
    matches_at(b, i, w) && !ident_byte(byte_at(b, i - 1)) && !ident_byte(byte_at(b, i + w.len()))
}

/// `&&` or `||` at `i`.
pub open spec fn bool_op_at(b: Seq<u8>, i: int) -> bool {
    matches_at(b, i, seq![AMPERSAND, AMPERSAND]) || matches_at(b, i, seq![PIPE, PIPE])
}

/// First newline at or after `j`, or the end of the input.
pub open spec fn line_end(b: Seq<u8>, j: int) -> int
    decreases b.len() - j,
{
    if j >= b.len() || b[j] == NEWLINE {
        j
    } else {
        line_end(b, j + 1)
    }
}

/// Position just past the first `*/` at or after `j`.
pub open spec fn block_close(b: Seq<u8>, j: int) -> Option<int>
    decreases b.len() - j,
{
    if j + 1 >= b.len() {
        None
    } else if b[j] == STAR && b[j + 1] == SLASH {
        Some(j + 2)
    } else {
        block_close(b, j + 1)
    }
}

/// Position just past the first backtick at or after `j`.
pub open spec fn raw_close(b: Seq<u8>, j: int) -> Option<int>
    decreases b.len() - j,
{
    if j >= b.len() {
        None
    } else if b[j] == BACKTICK {
        Some(j + 1)
    } else {
        raw_close(b, j + 1)
    }
}

/// Position just past the first unescaped `q` at or after `j`.
pub open spec fn quoted_close(b: Seq<u8>, j: int, q: u8) -> Option<int>
    decreases b.len() - j,
{
    if j >= b.len() {
        None
    } else if b[j] == q {
        Some(j + 1)
    } else if b[j] == BACKSLASH {
        if j + 1 < b.len() {
            quoted_close(b, j + 2, q)
        } else {
            None
        }
    } else {
        quoted_close(b, j + 1, q)
    }
}

/// End of the string literal whose quote is at `start`, if it is closed.
pub open spec fn string_close(b: Seq<u8>, start: int) -> Option<int> {
    if 0 <= start < b.len() {
        if b[start] == BACKTICK {
            raw_close(b, start + 1)
        } else {
            quoted_close(b, start + 1, b[start])
        }
    } else {
        None
    }
}

/// End of the string literal at `start`; an unclosed literal runs to the end.
pub open spec fn string_end(b: Seq<u8>, start: int) -> int {
    match string_close(b, start) {
        Some(e) => e,
        None => b.len() as int,
    }
}

/// For a `/` at `i`: `None` when no comment starts there, otherwise the end
/// of the comment (`None` inside when a block comment is never closed).
pub open spec fn comment_close(b: Seq<u8>, i: int) -> Option<Option<int>> {
    if i + 1 < b.len() && b[i + 1] == SLASH {
        Some(Some(line_end(b, i + 2)))
    } else if i + 1 < b.len() && b[i + 1] == STAR {
        Some(block_close(b, i + 2))
    } else {
        None
    }
}

/// One comment or string literal at `i`: where the scan resumes, or `None`
/// when `i` is not noise.
pub open spec fn noise_step(b: Seq<u8>, i: int) -> Option<int> {
    if b[i] == SLASH {
        match comment_close(b, i) {
            None => None,
            Some(Some(e)) => Some(e),
            Some(None) => Some(b.len() as int),
        }
    } else if is_quote(b[i]) {
        Some(string_end(b, i))
    } else {
        None
    }
}

/// First position at or after `i` that does not start a comment or string.
pub open spec fn skip_noise_spec(b: Seq<u8>, i: int) -> int
    decreases b.len() - i,
{
    if 0 <= i < b.len() && noise_step(b, i) is Some {
        proof {
            lemma_noise_step(b, i);
        }
        skip_noise_spec(b, noise_step(b, i)->0)
    } else {
        i
    }
}

/// One comment or string token at `i`, with the literal left open reported.
pub open spec fn noise_token(b: Seq<u8>, i: int) -> Option<Result<int, Unclosed>> {
    if 0 <= i < b.len() && b[i] == SLASH {
        match comment_close(b, i) {
            None => None,
            Some(Some(e)) => Some(Ok(e)),
            Some(None) => Some(Err(Unclosed::Comment)),
        }
    } else if 0 <= i < b.len() && is_quote(b[i]) {
        match string_close(b, i) {
            Some(e) => Some(Ok(e)),
            None => Some(Err(Unclosed::String)),
        }
    } else {
        None
    }
}

/// Scans for the closer that brings `depth` open brackets back to zero,
/// skipping comments and strings.
pub open spec fn balanced_from(b: Seq<u8>, i: int, depth: int, open_ch: u8, close_ch: u8) -> Option<int>
    decreases b.len() - i,
{
    if 0 <= i < b.len() {
        proof {
            lemma_skip_noise(b, i);
        }
        let j = skip_noise_spec(b, i);
        if j >= b.len() {
            None
        } else if b[j] == open_ch {
            balanced_from(b, j + 1, depth + 1, open_ch, close_ch)
        } else if b[j] == close_ch {
            if depth - 1 == 0 {
                Some(j + 1)
            } else {
                balanced_from(b, j + 1, depth - 1, open_ch, close_ch)
            }
        } else {
            balanced_from(b, j + 1, depth, open_ch, close_ch)
        }
    } else {
        None
    }
}

/// Position just past the bracket that closes the one at `open`.
pub open spec fn balanced_end(b: Seq<u8>, open: int, open_ch: u8, close_ch: u8) -> Option<int> {
    if 0 <= open < b.len() && b[open] == open_ch {
        balanced_from(b, open, 0, open_ch, close_ch)
    } else {
        None
    }
}

/// `o` read as an optional position.
pub open spec fn opt_pos(o: Option<usize>) -> Option<int> {
    match o {
        Some(v) => Some(v as int),
        None => None,
    }
}

pub proof fn lemma_line_end(b: Seq<u8>, j: int)
    requires
        j <= b.len(),
    ensures
        j <= line_end(b, j) <= b.len(),
    decreases b.len() - j,
{
    if j < b.len() && b[j] != NEWLINE {
        lemma_line_end(b, j + 1);
    }
}

pub proof fn lemma_block_close(b: Seq<u8>, j: int)
    ensures
        block_close(b, j) matches Some(e) ==> j + 2 <= e <= b.len(),
    decreases b.len() - j,
{
    if j + 1 < b.len() && !(b[j] == STAR && b[j + 1] == SLASH) {
        lemma_block_close(b, j + 1);
    }
}

pub proof fn lemma_raw_close(b: Seq<u8>, j: int)
    ensures
        raw_close(b, j) matches Some(e) ==> j + 1 <= e <= b.len(),
    decreases b.len() - j,
{
    if j < b.len() && b[j] != BACKTICK {
        lemma_raw_close(b, j + 1);
    }
}

pub proof fn lemma_quoted_close(b: Seq<u8>, j: int, q: u8)
    ensures
        quoted_close(b, j, q) matches Some(e) ==> j + 1 <= e <= b.len(),
    decreases b.len() - j,
{
    if j < b.len() && b[j] != q {
        if b[j] == BACKSLASH {
            if j + 1 < b.len() {
                lemma_quoted_close(b, j + 2, q);
            }
        } else {
            lemma_quoted_close(b, j + 1, q);
        }
    }
}

pub proof fn lemma_string_close(b: Seq<u8>, start: int)
    ensures
        string_close(b, start) matches Some(e) ==> start < e <= b.len(),
        0 <= start < b.len() ==> start < string_end(b, start) <= b.len(),
{
    if 0 <= start < b.len() {
        lemma_raw_close(b, start + 1);
        lemma_quoted_close(b, start + 1, b[start]);
    }
}

pub proof fn lemma_comment_close(b: Seq<u8>, i: int)
    requires
        0 <= i < b.len(),
    ensures
        comment_close(b, i) matches Some(Some(e)) ==> i < e <= b.len(),
{
    if i + 1 < b.len() {
        lemma_line_end(b, i + 2);
        lemma_block_close(b, i + 2);
    }
}

pub proof fn lemma_noise_step(b: Seq<u8>, i: int)
    requires
        0 <= i < b.len(),
    ensures
        noise_step(b, i) matches Some(n) ==> i < n <= b.len(),
{
    lemma_comment_close(b, i);
    lemma_string_close(b, i);
}

pub proof fn lemma_skip_noise(b: Seq<u8>, i: int)
    ensures
        i <= skip_noise_spec(b, i),
        i <= b.len() ==> skip_noise_spec(b, i) <= b.len(),
        i > b.len() ==> skip_noise_spec(b, i) == i,
        0 <= i && skip_noise_spec(b, i) < b.len() ==> noise_step(b, skip_noise_spec(b, i)) is None,
    decreases b.len() - i,
{
    if 0 <= i < b.len() && noise_step(b, i) is Some {
        lemma_noise_step(b, i);
        lemma_skip_noise(b, noise_step(b, i)->0);
    }
}

pub proof fn lemma_balanced_from(b: Seq<u8>, i: int, depth: int, open_ch: u8, close_ch: u8)
    ensures
        balanced_from(b, i, depth, open_ch, close_ch) matches Some(e) ==> i < e <= b.len(),
    decreases b.len() - i,
{
    if 0 <= i < b.len() {
        lemma_skip_noise(b, i);
        let j = skip_noise_spec(b, i);
        if j < b.len() {
            lemma_balanced_from(b, j + 1, depth + 1, open_ch, close_ch);
            lemma_balanced_from(b, j + 1, depth - 1, open_ch, close_ch);
            lemma_balanced_from(b, j + 1, depth, open_ch, close_ch);
        }
    }
}

pub proof fn lemma_balanced_end(b: Seq<u8>, open: int, open_ch: u8, close_ch: u8)
    ensures
        balanced_end(b, open, open_ch, close_ch) matches Some(e) ==> open < e <= b.len(),
{
    lemma_balanced_from(b, open, 0, open_ch, close_ch);
}

/// The bytes of keyword `k`.
pub fn keyword(k: Keyword) -> (w: &'static [u8])
    ensures
        w@ == keyword_bytes(k),
{
    match k {
        Keyword::If => &[105u8, 102u8],
        Keyword::For => &[102u8, 111u8, 114u8],
        Keyword::Case => &[99u8, 97u8, 115u8, 101u8],
        Keyword::Default => &[100u8, 101u8, 102u8, 97u8, 117u8, 108u8, 116u8],
        Keyword::Else => &[101u8, 108u8, 115u8, 101u8],
        Keyword::Switch => &[115u8, 119u8, 105u8, 116u8, 99u8, 104u8],
        Keyword::Select => &[115u8, 101u8, 108u8, 101u8, 99u8, 116u8],
        Keyword::Func => &[102u8, 117u8, 110u8, 99u8],
    }
}

/// Whether `b` can continue a Go identifier.
pub fn is_ident_byte(b: u8) -> (r: bool)
    ensures
        r == ident_byte(b),
{
    (48 <= b && b <= 57) || (65 <= b && b <= 90) || (97 <= b && b <= 122) || b == UNDERSCORE
}

/// Whether `b` can start a Go identifier.
pub fn is_ident_start(b: u8) -> (r: bool)
    ensures
        r == ident_start(b),
{
    (65 <= b && b <= 90) || (97 <= b && b <= 122) || b == UNDERSCORE
}

/// The byte at `i`, or 0 past the end.
pub fn get_byte(bytes: &[u8], i: usize) -> (r: u8)
    ensures
        r == byte_at(bytes@, i as int),
{
    if i < bytes.len() {
        bytes[i]
    } else {
        0
    }
}

/// Returns whether `op` matches the bytes at `i`.
pub fn match_op(bytes: &[u8], i: usize, op: &[u8]) -> (r: bool)
    ensures
        r == matches_at(bytes@, i as int, op@),
{
    if i > bytes.len() || op.len() > bytes.len() - i {
        return false;
    }
    let mut k: usize = 0;
    while k < op.len()
        invariant
            k <= op.len(),
            i + op.len() <= bytes.len(),
            forall|m: int| 0 <= m < k ==> bytes@[i + m] == op@[m],
        decreases op.len() - k,
    {
        if bytes[i + k] != op[k] {
            assert(bytes@.subrange(i as int, i + op@.len())[k as int] != op@[k as int]);
            return false;
        }
        k = k + 1;
    }
    assert(bytes@.subrange(i as int, i + op@.len()) =~= op@);
    true
}

/// Returns whether `word` is a whole identifier at `i`.
pub fn is_word(bytes: &[u8], i: usize, word: &[u8]) -> (r: bool)
    ensures
        r == word_at(bytes@, i as int, word@),
{
    if !match_op(bytes, i, word) {
        return false;
    }
    let before = if i == 0 {
        0
    } else {
        bytes[i - 1]
    };
    !is_ident_byte(before) && !is_ident_byte(get_byte(bytes, i + word.len()))
}

/// Whether `&&` or `||` starts at `i`.
pub fn is_bool_op(bytes: &[u8], i: usize) -> (r: bool)
    ensures
        r == bool_op_at(bytes@, i as int),
{
    match_op(bytes, i, &[AMPERSAND, AMPERSAND]) || match_op(bytes, i, &[PIPE, PIPE])
}

fn skip_line_comment(bytes: &[u8], i: usize) -> (r: usize)
    requires
        i + 2 <= bytes.len(),
    ensures
        r == line_end(bytes@, i + 2),
{
    let ghost start: int = i + 2;
    let mut i = i + 2;
    while i < bytes.len() && bytes[i] != NEWLINE
        invariant
            i <= bytes.len(),
            line_end(bytes@, i as int) == line_end(bytes@, start),
        decreases bytes.len() - i,
    {
        i = i + 1;
    }
    i
}

fn try_skip_block_comment(bytes: &[u8], i: usize) -> (r: Option<usize>)
    requires
        i + 2 <= bytes.len(),
    ensures
        opt_pos(r) == block_close(bytes@, i + 2),
{
    let mut j = i + 2;
    while bytes.len() - j > 1
        invariant
            2 <= j <= bytes.len(),
            block_close(bytes@, j as int) == block_close(bytes@, i + 2),
        decreases bytes.len() - j,
    {
        if bytes[j] == STAR && bytes[j + 1] == SLASH {
            return Some(j + 2);
        }
        j = j + 1;
    }
    None
}

fn try_skip_raw_string(bytes: &[u8], start: usize) -> (r: Option<usize>)
    requires
        start < bytes.len(),
    ensures
        opt_pos(r) == raw_close(bytes@, start + 1),
{
    let mut i = start + 1;
    while i < bytes.len()
        invariant
            i <= bytes.len(),
            raw_close(bytes@, i as int) == raw_close(bytes@, start + 1),
        decreases bytes.len() - i,
    {
        if bytes[i] == BACKTICK {
            return Some(i + 1);
        }
        i = i + 1;
    }
    None
}

fn after_quoted_byte(bytes: &[u8], i: usize) -> (r: Option<usize>)
    requires
        i < bytes.len(),
    ensures
        bytes@[i as int] != BACKSLASH ==> r == Some((i + 1) as usize),
        bytes@[i as int] == BACKSLASH ==> r == (if i + 1 < bytes.len() { Some((i + 2) as usize) } else { None::<usize> }),
{
    if bytes[i] != BACKSLASH {
        return Some(i + 1);
    }
    if i + 1 < bytes.len() {
        Some(i + 2)
    } else {
        None
    }
}

fn try_skip_quoted_string(bytes: &[u8], start: usize, quote: u8) -> (r: Option<usize>)
    requires
        start < bytes.len(),
    ensures
        opt_pos(r) == quoted_close(bytes@, start + 1, quote),
{
    let mut i = start + 1;
    while i < bytes.len()
        invariant
            i <= bytes.len(),
            quoted_close(bytes@, i as int, quote) == quoted_close(bytes@, start + 1, quote),
        decreases bytes.len() - i,
    {
        if bytes[i] == quote {
            return Some(i + 1);
        }
        match after_quoted_byte(bytes, i) {
            Some(next) => {
                i = next;
            },
            None => {
                return None;
            },
        }
    }
    None
}

fn try_skip_string(bytes: &[u8], start: usize) -> (r: Option<usize>)
    ensures
        opt_pos(r) == string_close(bytes@, start as int),
{
    if start >= bytes.len() {
        return None;
    }
    let quote = bytes[start];
    if quote == BACKTICK {
        return try_skip_raw_string(bytes, start);
    }
    try_skip_quoted_string(bytes, start, quote)
}

/// Skips a quoted or raw string literal starting at `start`; an unclosed
/// literal runs to the end of the input.
pub fn skip_string(bytes: &[u8], start: usize) -> (r: usize)
    ensures
        r == string_end(bytes@, start as int),
{
    match try_skip_string(bytes, start) {
        Some(e) => e,
        None => bytes.len(),
    }
}

fn try_skip_comment_token(bytes: &[u8], i: usize) -> (r: Option<Result<usize, Unclosed>>)
    requires
        i < bytes.len(),
    ensures
        r == (match comment_close(bytes@, i as int) {
            None => None,
            Some(Some(e)) => Some(Ok(e as usize)),
            Some(None) => Some(Err(Unclosed::Comment)),
        }),
{
    proof {
        lemma_comment_close(bytes@, i as int);
    }
    if i + 1 < bytes.len() && bytes[i + 1] == SLASH {
        Some(Ok(skip_line_comment(bytes, i)))
    } else if i + 1 < bytes.len() && bytes[i + 1] == STAR {
        match try_skip_block_comment(bytes, i) {
            Some(e) => Some(Ok(e)),
            None => Some(Err(Unclosed::Comment)),
        }
    } else {
        None
    }
}

fn skip_comment_start(bytes: &[u8], i: usize) -> (r: Option<usize>)
    requires
        i < bytes.len(),
    ensures
        opt_pos(r) == (match comment_close(bytes@, i as int) {
            None => None,
            Some(Some(e)) => Some(e),
            Some(None) => Some(bytes@.len() as int),
        }),
{
    proof {
        lemma_comment_close(bytes@, i as int);
    }
    match try_skip_comment_token(bytes, i) {
        None => None,
        Some(Ok(next)) => Some(next),
        Some(Err(_)) => Some(bytes.len()),
    }
}

fn skip_noise_step(bytes: &[u8], i: usize) -> (r: Option<usize>)
    requires
        i < bytes.len(),
    ensures
        opt_pos(r) == noise_step(bytes@, i as int),
{
    if bytes[i] == SLASH {
        return skip_comment_start(bytes, i);
    }
    if bytes[i] == DOUBLE_QUOTE || bytes[i] == SINGLE_QUOTE || bytes[i] == BACKTICK {
        return Some(skip_string(bytes, i));
    }
    None
}

/// Skips comments and string literals starting at `i`.
pub fn skip_noise(bytes: &[u8], i: usize) -> (r: usize)
    ensures
        r == skip_noise_spec(bytes@, i as int),
{
    let mut pos = i;
    while pos < bytes.len()
        invariant
            skip_noise_spec(bytes@, pos as int) == skip_noise_spec(bytes@, i as int),
        decreases bytes.len() - pos,
    {
        proof {
            lemma_noise_step(bytes@, pos as int);
        }
        match skip_noise_step(bytes, pos) {
            None => {
                return pos;
            },
            Some(next) => {
                pos = next;
            },
        }
    }
    pos
}

/// Tries to skip one comment or string token at `i`.
///
/// Returns `None` when `i` is not noise, and the unclosed literal when the
/// token never ends.
pub fn try_skip_noise_token(bytes: &[u8], i: usize) -> (r: Option<Result<usize, Unclosed>>)
    ensures
        r == (match noise_token(bytes@, i as int) {
            None => None,
            Some(Ok(e)) => Some(Ok(e as usize)),
            Some(Err(u)) => Some(Err(u)),
        }),
{
    if i < bytes.len() && bytes[i] == SLASH {
        return try_skip_comment_token(bytes, i);
    }
    if i < bytes.len() && (bytes[i] == DOUBLE_QUOTE || bytes[i] == SINGLE_QUOTE || bytes[i] == BACKTICK) {
        proof {
            lemma_string_close(bytes@, i as int);
        }
        return match try_skip_string(bytes, i) {
            Some(e) => Some(Ok(e)),
            None => Some(Err(Unclosed::String)),
        };
    }
    None
}

fn step_balance(depth: &mut usize, b: u8, open_ch: u8, close_ch: u8, i: usize) -> (r: Option<usize>)
    requires
        i < usize::MAX,
        1 <= *old(depth) < usize::MAX,
    ensures
        b == open_ch ==> *final(depth) == *old(depth) + 1 && r is None,
        b != open_ch && b != close_ch ==> *final(depth) == *old(depth) && r is None,
        b != open_ch && b == close_ch ==> *final(depth) == *old(depth) - 1 && r == (if *old(depth)
            - 1 == 0 {
            Some((i + 1) as usize)
        } else {
            None::<usize>
        }),
{
    if b == open_ch {
        *depth = *depth + 1;
        return None;
    }
    if b != close_ch {
        return None;
    }
    *depth = *depth - 1;
    if *depth == 0 {
        Some(i + 1)
    } else {
        None
    }
}

fn scan_balanced(bytes: &[u8], open: usize, open_ch: u8, close_ch: u8) -> (r: Option<usize>)
    requires
        open < bytes.len(),
        bytes@[open as int] == open_ch,
        open_ch != SLASH,
        !is_quote(open_ch),
    ensures
        opt_pos(r) == balanced_from(bytes@, open as int, 0, open_ch, close_ch),
{
    proof {
        lemma_skip_noise(bytes@, open as int);
        assert(noise_step(bytes@, open as int) is None);
        assert(skip_noise_spec(bytes@, open as int) == open);
    }
    let mut depth: usize = 1;
    let mut i = open + 1;
    while i < bytes.len()
        invariant
            open < i <= bytes.len(),
            1 <= depth <= i - open,
            balanced_from(bytes@, i as int, depth as int, open_ch, close_ch) == balanced_from(
                bytes@,
                open as int,
                0,
                open_ch,
                close_ch,
            ),
        decreases bytes.len() - i,
    {
        proof {
            lemma_skip_noise(bytes@, i as int);
        }
        let ghost before = i as int;
        i = skip_noise(bytes, i);
        if i >= bytes.len() {
            return None;
        }
        let ghost d = depth as int;
        assert(balanced_from(bytes@, before, d, open_ch, close_ch) == if bytes@[i as int] == open_ch {
            balanced_from(bytes@, i + 1, d + 1, open_ch, close_ch)
        } else if bytes@[i as int] == close_ch {
            if d - 1 == 0 {
                Some(i + 1)
            } else {
                balanced_from(bytes@, i + 1, d - 1, open_ch, close_ch)
            }
        } else {
            balanced_from(bytes@, i + 1, d, open_ch, close_ch)
        });
        if let Some(end) = step_balance(&mut depth, bytes[i], open_ch, close_ch, i) {
            return Some(end);
        }
        i = i + 1;
    }
    None
}

/// Skips a balanced `open_ch` ... `close_ch` pair starting at `open`,
/// returning the position just past the closer.
pub fn skip_balanced(bytes: &[u8], open: usize, open_ch: u8, close_ch: u8) -> (r: Option<usize>)
    requires
        open_ch != SLASH,
        !is_quote(open_ch),
    ensures
        opt_pos(r) == balanced_end(bytes@, open as int, open_ch, close_ch),
{
    if open >= bytes.len() || bytes[open] != open_ch {
        return None;
    }
    scan_balanced(bytes, open, open_ch, close_ch)
}

/// Source bytes with no comment or string literal in them: no `/` and no
/// quote of any kind.
pub open spec fn plain(s: Seq<u8>) -> bool {
    forall|i: int| 0 <= i < s.len() ==> #[trigger] s[i] != SLASH && !is_quote(s[i])
}

/// Opening minus closing brackets among the first `k` bytes of `s`.
pub open spec fn bracket_depth(s: Seq<u8>, k: int, open_ch: u8, close_ch: u8) -> int
    decreases k,
{
    if k <= 0 || k > s.len() {
        0
    } else {
        bracket_depth(s, k - 1, open_ch, close_ch) + if s[k - 1] == open_ch {
            1int
        } else if s[k - 1] == close_ch {
            -1int
        } else {
            0int
        }
    }
}

/// Every bracket of `s` is closed within `s`, and none closes one opened
/// before it.
pub open spec fn brackets_balanced(s: Seq<u8>, open_ch: u8, close_ch: u8) -> bool {
    &&& forall|k: int| 0 <= k <= s.len() ==> #[trigger] bracket_depth(s, k, open_ch, close_ch) >= 0
    &&& bracket_depth(s, s.len() as int, open_ch, close_ch) == 0
}

/// A plain position is where the scan stands: no comment or string starts
/// there.
pub proof fn lemma_plain_at(b: Seq<u8>, i: int)
    requires
        0 <= i < b.len(),
        b[i] != SLASH,
        !is_quote(b[i]),
    ensures
        skip_noise_spec(b, i) == i,
{
}

/// A bracket whose contents `s` are plain and balanced closes right after
/// them.
pub proof fn lemma_balanced_span(b: Seq<u8>, open: int, s: Seq<u8>, open_ch: u8, close_ch: u8)
    requires
        open_ch != close_ch,
        open_ch != SLASH && !is_quote(open_ch),
        close_ch != SLASH && !is_quote(close_ch),
        0 <= open,
        open + s.len() + 2 <= b.len(),
        b[open] == open_ch,
        b.subrange(open + 1, open + 1 + s.len()) == s,
        b[open + 1 + s.len()] == close_ch,
        plain(s),
        brackets_balanced(s, open_ch, close_ch),
    ensures
        balanced_end(b, open, open_ch, close_ch) == Some(open + s.len() + 2),
{
    lemma_balanced_tail(b, open, s, open_ch, close_ch, 0);
}

proof fn lemma_balanced_tail(b: Seq<u8>, open: int, s: Seq<u8>, open_ch: u8, close_ch: u8, k: int)
    requires
        open_ch != close_ch,
        open_ch != SLASH && !is_quote(open_ch),
        close_ch != SLASH && !is_quote(close_ch),
        0 <= open,
        open + s.len() + 2 <= b.len(),
        b[open] == open_ch,
        b.subrange(open + 1, open + 1 + s.len()) == s,
        b[open + 1 + s.len()] == close_ch,
        plain(s),
        brackets_balanced(s, open_ch, close_ch),
        0 <= k <= s.len(),
    ensures
        balanced_from(b, open + 1 + k, 1 + bracket_depth(s, k, open_ch, close_ch), open_ch, close_ch) == Some(
            open + s.len() + 2,
        ),
        k == 0 ==> balanced_from(b, open, 0, open_ch, close_ch) == Some(open + s.len() + 2),
    decreases s.len() - k,
{
    let i = open + 1 + k;
    if k < s.len() {
        lemma_balanced_tail(b, open, s, open_ch, close_ch, k + 1);
        assert(b[i] == s[k]);
        assert(s[k] != SLASH && !is_quote(s[k]));
        lemma_plain_at(b, i);
        assert(bracket_depth(s, k + 1, open_ch, close_ch) >= 0);
    } else {
        lemma_plain_at(b, i);
    }
    if k == 0 {
        lemma_plain_at(b, open);
    }
}

/// Without brackets, the depth stays zero.
pub proof fn lemma_no_brackets(s: Seq<u8>, open_ch: u8, close_ch: u8, k: int)
    requires
        forall|i: int| 0 <= i < s.len() ==> #[trigger] s[i] != open_ch && s[i] != close_ch,
        0 <= k <= s.len(),
    ensures
        bracket_depth(s, k, open_ch, close_ch) == 0,
    decreases k,
{
    if k > 0 {
        lemma_no_brackets(s, open_ch, close_ch, k - 1);
    }
}

/// Contents without brackets are balanced.
pub proof fn lemma_no_brackets_balanced(s: Seq<u8>, open_ch: u8, close_ch: u8)
    requires
        forall|i: int| 0 <= i < s.len() ==> #[trigger] s[i] != open_ch && s[i] != close_ch,
    ensures
        brackets_balanced(s, open_ch, close_ch),
{
    assert forall|k: int| 0 <= k <= s.len() implies #[trigger] bracket_depth(s, k, open_ch, close_ch) >= 0 by {
        lemma_no_brackets(s, open_ch, close_ch, k);
    }
    lemma_no_brackets(s, open_ch, close_ch, s.len() as int);
}

/// In plain contents with balanced brackets, each opening bracket closes
/// within the contents.
pub proof fn lemma_balanced_within(b: Seq<u8>, o: int, s: Seq<u8>, i: int, open_ch: u8, close_ch: u8)
    requires
        open_ch != close_ch,
        open_ch != SLASH && !is_quote(open_ch),
        close_ch != SLASH && !is_quote(close_ch),
        0 <= o,
        o + s.len() <= b.len(),
        b.subrange(o, o + s.len()) == s,
        plain(s),
        brackets_balanced(s, open_ch, close_ch),
        0 <= i < s.len(),
        s[i] == open_ch,
    ensures
        balanced_end(b, o + i, open_ch, close_ch) matches Some(m) && o + i < m <= o + s.len(),
{
    assert(b[o + i] == s[i]);
    lemma_plain_at(b, o + i);
    assert(bracket_depth(s, i + 1, open_ch, close_ch) == bracket_depth(s, i, open_ch, close_ch) + 1);
    lemma_within_from(b, o, s, i, i + 1, open_ch, close_ch);
}

proof fn lemma_within_from(b: Seq<u8>, o: int, s: Seq<u8>, i: int, k: int, open_ch: u8, close_ch: u8)
    requires
        open_ch != close_ch,
        0 <= o,
        o + s.len() <= b.len(),
        b.subrange(o, o + s.len()) == s,
        plain(s),
        brackets_balanced(s, open_ch, close_ch),
        0 <= i < k <= s.len(),
        bracket_depth(s, k, open_ch, close_ch) - bracket_depth(s, i, open_ch, close_ch) >= 1,
    ensures
        balanced_from(
            b,
            o + k,
            bracket_depth(s, k, open_ch, close_ch) - bracket_depth(s, i, open_ch, close_ch),
            open_ch,
            close_ch,
        ) matches Some(m) && o + k < m <= o + s.len(),
    decreases s.len() - k,
{
    assert(bracket_depth(s, i, open_ch, close_ch) >= 0);
    if k < s.len() {
        assert(b[o + k] == s[k]);
        assert(s[k] != SLASH && !is_quote(s[k]));
        lemma_plain_at(b, o + k);
        let r = bracket_depth(s, k, open_ch, close_ch) - bracket_depth(s, i, open_ch, close_ch);
        if s[k] == close_ch && r - 1 == 0 {
        } else {
            lemma_within_from(b, o, s, i, k + 1, open_ch, close_ch);
        }
    }
}

} // verus!
