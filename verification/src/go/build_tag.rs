//! Evaluates the Go build constraint at the top of a source file.
//!
//! The host operating system is given by its Go name (`linux`, `darwin`,
//! `windows`, ...), so the rules do not depend on how this library was built.
use crate::chars::{
    append_chars, char_lines, copy_chars, join, join_chars, split_lines, split_lines_of, split_words,
    starts_with, starts_with_chars, text_len, trim_chars, trimmed, white, words,
};
use crate::text::{chars_of, string_from, str_eq};
use vstd::prelude::*;

verus! {

/// What the leading comment block has given after `n` lines: the
/// `//go:build` expression, the `// +build` lines, and whether the block ended.
pub open spec fn header_upto(lines: Seq<Seq<char>>, n: nat) -> (Option<Seq<char>>, Seq<Seq<char>>, bool)
    decreases n,
{
    if n == 0 || n > lines.len() {
        (None, Seq::empty(), false)
    } else {
        let prev = header_upto(lines, (n - 1) as nat);
        let t = trimmed(lines[n - 1]);
        if prev.2 || t.len() == 0 {
            prev
        } else if starts_with(t, "//go:build"@) {
            (Some(trimmed(t.skip("//go:build"@.len() as int))), prev.1, false)
        } else if starts_with(t, "// +build"@) {
            (prev.0, prev.1.push(trimmed(t.skip("// +build"@.len() as int))), false)
        } else if starts_with(t, "//"@) {
            prev
        } else {
            (prev.0, prev.1, true)
        }
    }
}

/// One `// +build` line as an expression: its alternatives or-ed.
pub open spec fn plus_group(line: Seq<char>) -> Seq<char> {
    let alts = words(line);
    if alts.len() == 1 {
        alts[0]
    } else {
        "("@ + join(alts, " || "@) + ")"@
    }
}

/// `// +build` lines as one expression: the lines and-ed.
pub open spec fn plus_expr(lines: Seq<Seq<char>>) -> Seq<char> {
    join(Seq::new(lines.len(), |k: int| plus_group(lines[k])), " && "@)
}

/// The build constraint of a source file: the `//go:build` expression when
/// there is one, else the `// +build` lines, read from the leading block of
/// blank and `//` comment lines.
pub open spec fn leading_constraint(source: Seq<char>) -> Option<Seq<char>> {
    let lines = split_lines(source);
    let h = header_upto(lines, lines.len());
    match h.0 {
        Some(e) => Some(e),
        None => if h.1.len() > 0 {
            Some(plus_expr(h.1))
        } else {
            None
        },
    }
}

/// A token of a constraint expression.
pub enum Tok {
    Ident(Seq<char>),
    Not,
    And,
    Or,
    LParen,
    RParen,
}

/// ASCII letter or underscore.
pub open spec fn tag_start(c: char) -> bool {
    ('a' <= c <= 'z') || ('A' <= c <= 'Z') || c == '_'
}

/// ASCII letter, digit, underscore or dot.
pub open spec fn tag_continue(c: char) -> bool {
    ('a' <= c <= 'z') || ('A' <= c <= 'Z') || ('0' <= c <= '9') || c == '_' || c == '.'
}

/// End of the tag name whose characters continue at `i`.
pub open spec fn tag_end(e: Seq<char>, i: int) -> int
    decreases e.len() - i,
{
    if 0 <= i < e.len() && tag_continue(e[i]) {
        tag_end(e, i + 1)
    } else {
        i
    }
}

/// Tokens of `e` from `i` on. Blanks and unknown characters are skipped; a
/// lone `&` or `|` swallows the character after it.
pub open spec fn tokens_from(e: Seq<char>, i: int) -> Seq<Tok>
    decreases e.len() - i,
{
    if 0 <= i < e.len() {
        let c = e[i];
        if c == ' ' || c == '\t' {
            tokens_from(e, i + 1)
        } else if c == '!' {
            seq![Tok::Not] + tokens_from(e, i + 1)
        } else if c == '(' {
            seq![Tok::LParen] + tokens_from(e, i + 1)
        } else if c == ')' {
            seq![Tok::RParen] + tokens_from(e, i + 1)
        } else if c == '&' {
            if i + 1 < e.len() {
                if e[i + 1] == '&' {
                    seq![Tok::And] + tokens_from(e, i + 2)
                } else {
                    tokens_from(e, i + 2)
                }
            } else {
                Seq::empty()
            }
        } else if c == '|' {
            if i + 1 < e.len() {
                if e[i + 1] == '|' {
                    seq![Tok::Or] + tokens_from(e, i + 2)
                } else {
                    tokens_from(e, i + 2)
                }
            } else {
                Seq::empty()
            }
        } else if tag_start(c) {
            proof {
                lemma_tag_end(e, i + 1);
            }
            seq![Tok::Ident(e.subrange(i, tag_end(e, i + 1)))] + tokens_from(e, tag_end(e, i + 1))
        } else {
            tokens_from(e, i + 1)
        }
    } else {
        Seq::empty()
    }
}

/// Go names of operating systems counted as Unix.
pub open spec fn unix_host(host: Seq<char>) -> bool {
    host == "linux"@ || host == "darwin"@ || host == "freebsd"@ || host == "netbsd"@ || host
        == "openbsd"@ || host == "dragonfly"@ || host == "android"@ || host == "ios"@
}

/// Operating-system tags that follow the host.
pub open spec fn host_os_tag(name: Seq<char>) -> bool {
    name == "linux"@ || name == "windows"@ || name == "darwin"@ || name == "freebsd"@ || name
        == "netbsd"@ || name == "openbsd"@ || name == "dragonfly"@ || name == "android"@ || name
        == "ios"@ || name == "illumos"@ || name == "solaris"@ || name == "aix"@
}

/// Operating-system tags that no host here enables.
pub open spec fn foreign_os_tag(name: Seq<char>) -> bool {
    name == "plan9"@ || name == "js"@ || name == "zos"@ || name == "hurd"@
}

/// A tag is enabled when given, when it names the host system, or when it
/// is `unix` on a Unix host.
pub open spec fn tag_on(name: Seq<char>, tags: Seq<Seq<char>>, host: Seq<char>) -> bool {
    if tags.contains(name) {
        true
    } else if host_os_tag(name) {
        name == host
    } else if foreign_os_tag(name) {
        false
    } else {
        name == "unix"@ && unix_host(host)
    }
}

/// A primary: a tag, or a parenthesized expression.
pub open spec fn p_primary(t: Seq<Tok>, i: int, tags: Seq<Seq<char>>, host: Seq<char>) -> Option<
    (bool, int),
>
    decreases t.len() - i, 0int,
{
    if 0 <= i < t.len() {
        match t[i] {
            Tok::Ident(name) => Some((tag_on(name, tags, host), i + 1)),
            Tok::LParen => match p_or(t, i + 1, tags, host) {
                Some((v, j)) => if 0 <= j < t.len() && t[j] is RParen {
                    Some((v, j + 1))
                } else {
                    None
                },
                None => None,
            },
            _ => None,
        }
    } else {
        None
    }
}

/// A primary preceded by any number of `!`.
pub open spec fn p_unary(t: Seq<Tok>, i: int, tags: Seq<Seq<char>>, host: Seq<char>) -> Option<
    (bool, int),
>
    decreases t.len() - i, 1int,
{
    if 0 <= i < t.len() && t[i] is Not {
        match p_unary(t, i + 1, tags, host) {
            Some((v, j)) => Some((!v, j)),
            None => None,
        }
    } else {
        p_primary(t, i, tags, host)
    }
}

/// Further `&& unary` operands after position `j`, folded into `acc`.
pub open spec fn and_tail(t: Seq<Tok>, j: int, acc: bool, tags: Seq<Seq<char>>, host: Seq<char>) -> Option<
    (bool, int),
>
    decreases t.len() - j, 2int,
{
    if 0 <= j < t.len() && t[j] is And {
        match p_unary(t, j + 1, tags, host) {
            Some((v, k)) => if j < k <= t.len() {
                and_tail(t, k, acc && v, tags, host)
            } else {
                None
            },
            None => None,
        }
    } else {
        Some((acc, j))
    }
}

/// Unary operands joined by `&&`.
pub open spec fn p_and(t: Seq<Tok>, i: int, tags: Seq<Seq<char>>, host: Seq<char>) -> Option<
    (bool, int),
>
    decreases t.len() - i, 3int,
{
    match p_unary(t, i, tags, host) {
        Some((v, j)) => if i <= j <= t.len() {
            and_tail(t, j, v, tags, host)
        } else {
            None
        },
        None => None,
    }
}

/// Further `|| and` operands after position `j`, folded into `acc`.
pub open spec fn or_tail(t: Seq<Tok>, j: int, acc: bool, tags: Seq<Seq<char>>, host: Seq<char>) -> Option<
    (bool, int),
>
    decreases t.len() - j, 4int,
{
    if 0 <= j < t.len() && t[j] is Or {
        match p_and(t, j + 1, tags, host) {
            Some((v, k)) => if j < k <= t.len() {
                or_tail(t, k, acc || v, tags, host)
            } else {
                None
            },
            None => None,
        }
    } else {
        Some((acc, j))
    }
}

/// And-expressions joined by `||`.
pub open spec fn p_or(t: Seq<Tok>, i: int, tags: Seq<Seq<char>>, host: Seq<char>) -> Option<
    (bool, int),
>
    decreases t.len() - i, 5int,
{
    match p_and(t, i, tags, host) {
        Some((v, j)) => if i <= j <= t.len() {
            or_tail(t, j, v, tags, host)
        } else {
            None
        },
        None => None,
    }
}

/// Value of a constraint expression; one that does not parse is false.
/// Tokens after a complete expression are ignored.
pub open spec fn constraint_holds(e: Seq<char>, tags: Seq<Seq<char>>, host: Seq<char>) -> bool {
    match p_or(tokens_from(e, 0), 0, tags, host) {
        Some((v, _)) => v,
        None => false,
    }
}

/// A file is skipped when its build constraint exists and does not hold.
pub open spec fn skipped(source: Seq<char>, tags: Seq<Seq<char>>, host: Seq<char>) -> bool {
    match leading_constraint(source) {
        None => false,
        Some(e) => !constraint_holds(e, tags, host),
    }
}

pub proof fn lemma_tag_end(e: Seq<char>, i: int)
    ensures
        i <= tag_end(e, i),
        i <= e.len() ==> tag_end(e, i) <= e.len(),
    decreases e.len() - i,
{
    if 0 <= i < e.len() && tag_continue(e[i]) {
        lemma_tag_end(e, i + 1);
    }
}

pub proof fn lemma_primary(t: Seq<Tok>, i: int, tags: Seq<Seq<char>>, host: Seq<char>)
    ensures
        p_primary(t, i, tags, host) matches Some((v, j)) ==> i < j <= t.len(),
    decreases t.len() - i, 0int,
{
    if 0 <= i < t.len() && t[i] is LParen {
        lemma_or(t, i + 1, tags, host);
    }
}

pub proof fn lemma_unary(t: Seq<Tok>, i: int, tags: Seq<Seq<char>>, host: Seq<char>)
    ensures
        p_unary(t, i, tags, host) matches Some((v, j)) ==> i < j <= t.len(),
    decreases t.len() - i, 1int,
{
    if 0 <= i < t.len() && t[i] is Not {
        lemma_unary(t, i + 1, tags, host);
    } else {
        lemma_primary(t, i, tags, host);
    }
}

pub proof fn lemma_and_tail(t: Seq<Tok>, j: int, acc: bool, tags: Seq<Seq<char>>, host: Seq<char>)
    requires
        0 <= j <= t.len(),
    ensures
        and_tail(t, j, acc, tags, host) matches Some((v, k)) ==> j <= k <= t.len(),
    decreases t.len() - j, 2int,
{
    if 0 <= j < t.len() && t[j] is And {
        lemma_unary(t, j + 1, tags, host);
        if let Some((v, k)) = p_unary(t, j + 1, tags, host) {
            if j < k <= t.len() {
                lemma_and_tail(t, k, acc && v, tags, host);
            }
        }
    }
}

pub proof fn lemma_and(t: Seq<Tok>, i: int, tags: Seq<Seq<char>>, host: Seq<char>)
    ensures
        p_and(t, i, tags, host) matches Some((v, j)) ==> i < j <= t.len(),
    decreases t.len() - i, 3int,
{
    lemma_unary(t, i, tags, host);
    if let Some((v, j)) = p_unary(t, i, tags, host) {
        if i <= j <= t.len() {
            lemma_and_tail(t, j, v, tags, host);
        }
    }
}

pub proof fn lemma_or_tail(t: Seq<Tok>, j: int, acc: bool, tags: Seq<Seq<char>>, host: Seq<char>)
    requires
        0 <= j <= t.len(),
    ensures
        or_tail(t, j, acc, tags, host) matches Some((v, k)) ==> j <= k <= t.len(),
    decreases t.len() - j, 4int,
{
    if 0 <= j < t.len() && t[j] is Or {
        lemma_and(t, j + 1, tags, host);
        if let Some((v, k)) = p_and(t, j + 1, tags, host) {
            if j < k <= t.len() {
                lemma_or_tail(t, k, acc || v, tags, host);
            }
        }
    }
}

pub proof fn lemma_or(t: Seq<Tok>, i: int, tags: Seq<Seq<char>>, host: Seq<char>)
    ensures
        p_or(t, i, tags, host) matches Some((v, j)) ==> i < j <= t.len(),
    decreases t.len() - i, 5int,
{
    lemma_and(t, i, tags, host);
    if let Some((v, j)) = p_and(t, i, tags, host) {
        if i <= j <= t.len() {
            lemma_or_tail(t, j, v, tags, host);
        }
    }
}

/// A token of a constraint expression.
#[derive(Debug, Clone, PartialEq, Eq)]
pub enum Token {
    Ident(String),
    Not,
    And,
    Or,
    LParen,
    RParen,
}

/// The spec view of a token.
pub open spec fn tok_of(t: Token) -> Tok {
    match t {
        Token::Ident(s) => Tok::Ident(s@),
        Token::Not => Tok::Not,
        Token::And => Tok::And,
        Token::Or => Tok::Or,
        Token::LParen => Tok::LParen,
        Token::RParen => Tok::RParen,
    }
}

/// The spec view of a token list.
pub open spec fn toks(v: Seq<Token>) -> Seq<Tok> {
    Seq::new(v.len(), |k: int| tok_of(v[k]))
}

/// The texts of a tag list.
pub open spec fn tag_texts(v: Seq<String>) -> Seq<Seq<char>> {
    Seq::new(v.len(), |k: int| v[k]@)
}

/// A parse result with its position read as an integer.
pub open spec fn parsed(r: Option<(bool, usize)>) -> Option<(bool, int)> {
    match r {
        Some((v, j)) => Some((v, j as int)),
        None => None,
    }
}

fn is_unix_host(host: &str) -> (r: bool)
    ensures
        r == unix_host(host@),
{
    str_eq(host, "linux") || str_eq(host, "darwin") || str_eq(host, "freebsd") || str_eq(
        host,
        "netbsd",
    ) || str_eq(host, "openbsd") || str_eq(host, "dragonfly") || str_eq(host, "android")
        || str_eq(host, "ios")
}

fn primary_goos(name: &str) -> (r: bool)
    ensures
        r == (name@ == "linux"@ || name@ == "windows"@ || name@ == "darwin"@ || name@ == "freebsd"@
            || name@ == "netbsd"@ || name@ == "openbsd"@),
{
    str_eq(name, "linux") || str_eq(name, "windows") || str_eq(name, "darwin") || str_eq(
        name,
        "freebsd",
    ) || str_eq(name, "netbsd") || str_eq(name, "openbsd")
}

fn secondary_goos(name: &str) -> (r: bool)
    ensures
        r == (name@ == "dragonfly"@ || name@ == "android"@ || name@ == "ios"@ || name@
            == "illumos"@ || name@ == "solaris"@ || name@ == "aix"@),
{
    str_eq(name, "dragonfly") || str_eq(name, "android") || str_eq(name, "ios") || str_eq(
        name,
        "illumos",
    ) || str_eq(name, "solaris") || str_eq(name, "aix")
}

fn known_os_tag(name: &str, host: &str) -> (r: Option<bool>)
    ensures
        host_os_tag(name@) ==> r == Some(name@ == host@),
        !host_os_tag(name@) && foreign_os_tag(name@) ==> r == Some(false),
        !host_os_tag(name@) && !foreign_os_tag(name@) ==> r is None,
{
    if primary_goos(name) || secondary_goos(name) {
        return Some(str_eq(name, host));
    }
    if str_eq(name, "plan9") || str_eq(name, "js") || str_eq(name, "zos") || str_eq(name, "hurd") {
        return Some(false);
    }
    None
}

fn host_tag(name: &str, host: &str) -> (r: bool)
    ensures
        r == (if host_os_tag(name@) {
            name@ == host@
        } else if foreign_os_tag(name@) {
            false
        } else {
            name@ == "unix"@ && unix_host(host@)
        }),
{
    if let Some(enabled) = known_os_tag(name, host) {
        return enabled;
    }
    str_eq(name, "unix") && is_unix_host(host)
}

fn tag_enabled(name: &str, tags: &[String], host: &str) -> (r: bool)
    ensures
        r == tag_on(name@, tag_texts(tags@), host@),
{
    let mut k: usize = 0;
    while k < tags.len()
        invariant
            k <= tags.len(),
            forall|m: int| 0 <= m < k ==> tags@[m]@ != name@,
        decreases tags.len() - k,
    {
        if str_eq(tags[k].as_str(), name) {
            assert(tag_texts(tags@)[k as int] == name@);
            return true;
        }
        k = k + 1;
    }
    assert(!tag_texts(tags@).contains(name@));
    host_tag(name, host)
}

fn parse_primary(tokens: &[Token], i: usize, tags: &[String], host: &str) -> (r: Option<(bool, usize)>)
    ensures
        parsed(r) == p_primary(toks(tokens@), i as int, tag_texts(tags@), host@),
    decreases tokens@.len() - i, 0int,
{
    if i >= tokens.len() {
        return None;
    }
    match &tokens[i] {
        Token::Ident(name) => Some((tag_enabled(name.as_str(), tags, host), i + 1)),
        Token::LParen => parse_paren(tokens, i + 1, tags, host),
        _ => None,
    }
}

fn parse_paren(tokens: &[Token], i: usize, tags: &[String], host: &str) -> (r: Option<(bool, usize)>)
    requires
        0 < i <= tokens@.len(),
    ensures
        parsed(r) == (match p_or(toks(tokens@), i as int, tag_texts(tags@), host@) {
            Some((v, j)) => if 0 <= j < tokens@.len() && toks(tokens@)[j] is RParen {
                Some((v, j + 1))
            } else {
                None
            },
            None => None,
        }),
    decreases tokens@.len() - i, 6int,
{
    proof {
        lemma_or(toks(tokens@), i as int, tag_texts(tags@), host@);
    }
    let (value, j) = match parse_or(tokens, i, tags, host) {
        Some(found) => found,
        None => {
            return None;
        },
    };
    if j < tokens.len() && matches!(tokens[j], Token::RParen) {
        Some((value, j + 1))
    } else {
        None
    }
}

fn parse_unary(tokens: &[Token], i: usize, tags: &[String], host: &str) -> (r: Option<(bool, usize)>)
    ensures
        parsed(r) == p_unary(toks(tokens@), i as int, tag_texts(tags@), host@),
    decreases tokens@.len() - i, 1int,
{
    if i < tokens.len() && matches!(tokens[i], Token::Not) {
        return match parse_unary(tokens, i + 1, tags, host) {
            Some((v, j)) => Some((!v, j)),
            None => None,
        };
    }
    parse_primary(tokens, i, tags, host)
}

fn parse_and(tokens: &[Token], i: usize, tags: &[String], host: &str) -> (r: Option<(bool, usize)>)
    ensures
        parsed(r) == p_and(toks(tokens@), i as int, tag_texts(tags@), host@),
    decreases tokens@.len() - i, 3int,
{
    let ghost t = toks(tokens@);
    let ghost tg = tag_texts(tags@);
    proof {
        lemma_unary(t, i as int, tg, host@);
    }
    let (mut value, mut j) = match parse_unary(tokens, i, tags, host) {
        Some(found) => found,
        None => {
            return None;
        },
    };
    proof {
        lemma_and_tail(t, j as int, value, tg, host@);
    }
    while j < tokens.len() && matches!(tokens[j], Token::And)
        invariant
            t == toks(tokens@),
            tg == tag_texts(tags@),
            i < j <= tokens@.len(),
            p_and(t, i as int, tg, host@) == and_tail(t, j as int, value, tg, host@),
        decreases tokens.len() - j,
    {
        proof {
            lemma_unary(t, j + 1, tg, host@);
        }
        let (v, k) = match parse_unary(tokens, j + 1, tags, host) {
            Some(found) => found,
            None => {
                return None;
            },
        };
        value = value && v;
        j = k;
    }
    Some((value, j))
}

fn parse_or(tokens: &[Token], i: usize, tags: &[String], host: &str) -> (r: Option<(bool, usize)>)
    ensures
        parsed(r) == p_or(toks(tokens@), i as int, tag_texts(tags@), host@),
    decreases tokens@.len() - i, 5int,
{
    let ghost t = toks(tokens@);
    let ghost tg = tag_texts(tags@);
    proof {
        lemma_and(t, i as int, tg, host@);
    }
    let (mut value, mut j) = match parse_and(tokens, i, tags, host) {
        Some(found) => found,
        None => {
            return None;
        },
    };
    while j < tokens.len() && matches!(tokens[j], Token::Or)
        invariant
            t == toks(tokens@),
            tg == tag_texts(tags@),
            i < j <= tokens@.len(),
            p_or(t, i as int, tg, host@) == or_tail(t, j as int, value, tg, host@),
        decreases tokens.len() - j,
    {
        proof {
            lemma_and(t, j + 1, tg, host@);
        }
        let (v, k) = match parse_and(tokens, j + 1, tags, host) {
            Some(found) => found,
            None => {
                return None;
            },
        };
        value = value || v;
        j = k;
    }
    Some((value, j))
}

fn take_constraint_line(trimmed_line: &[char], go_build: &mut Option<Vec<char>>, plus_build: &mut Vec<Vec<char>>) -> (keep_going: bool)
    ensures
        trimmed_line@.len() == 0 ==> keep_going && *final(go_build) == *old(go_build) && final(plus_build)@ == old(plus_build)@,
        trimmed_line@.len() != 0 && starts_with(trimmed_line@, "//go:build"@) ==> keep_going
            && (*final(go_build) matches Some(g) && g@ == trimmed(trimmed_line@.skip("//go:build"@.len() as int)))
            && final(plus_build)@ == old(plus_build)@,
        trimmed_line@.len() != 0 && !starts_with(trimmed_line@, "//go:build"@) && starts_with(trimmed_line@, "// +build"@)
            ==> keep_going && *final(go_build) == *old(go_build) && char_lines(final(plus_build)@) == char_lines(old(plus_build)@).push(
            trimmed(trimmed_line@.skip("// +build"@.len() as int)),
        ),
        trimmed_line@.len() != 0 && !starts_with(trimmed_line@, "//go:build"@) && !starts_with(trimmed_line@, "// +build"@)
            ==> keep_going == starts_with(trimmed_line@, "//"@) && *final(go_build) == *old(go_build) && final(plus_build)@
            == old(plus_build)@,
{
    if trimmed_line.len() == 0 {
        return true;
    }
    if starts_with_chars(trimmed_line, "//go:build") {
        let n = text_len("//go:build");
        let rest = copy_chars(trimmed_line, n, trimmed_line.len());
        assert(rest@ =~= trimmed_line@.skip("//go:build"@.len() as int));
        *go_build = Some(trim_chars(rest.as_slice()));
        return true;
    }
    if starts_with_chars(trimmed_line, "// +build") {
        let n = text_len("// +build");
        let rest = copy_chars(trimmed_line, n, trimmed_line.len());
        assert(rest@ =~= trimmed_line@.skip("// +build"@.len() as int));
        let ghost before = char_lines(plus_build@);
        plus_build.push(trim_chars(rest.as_slice()));
        assert(char_lines(plus_build@) =~= before.push(trimmed(trimmed_line@.skip("// +build"@.len() as int))));
        return true;
    }
    starts_with_chars(trimmed_line, "//")
}

fn plus_lines_to_expr(lines: &Vec<Vec<char>>) -> (r: Vec<char>)
    ensures
        r@ == plus_expr(char_lines(lines@)),
{
    let mut groups: Vec<Vec<char>> = Vec::new();
    let mut k: usize = 0;
    while k < lines.len()
        invariant
            k <= lines.len(),
            groups@.len() == k,
            forall|m: int| 0 <= m < k ==> #[trigger] groups@[m]@ == plus_group(lines@[m]@),
        decreases lines.len() - k,
    {
        let alts = split_words(lines[k].as_slice());
        let group = if alts.len() == 1 {
            alts[0].clone()
        } else {
            let mut g: Vec<char> = Vec::new();
            g.push('(');
            let inner = join_chars(&alts, " || ");
            append_chars(&mut g, inner.as_slice());
            g.push(')');
            proof {
                reveal_strlit("(");
                reveal_strlit(")");
                assert(g@ =~= "("@ + join(words(lines@[k as int]@), " || "@) + ")"@);
            }
            g
        };
        groups.push(group);
        k = k + 1;
    }
    let r = join_chars(&groups, " && ");
    assert(char_lines(groups@) =~= Seq::new(lines@.len(), |m: int| plus_group(char_lines(lines@)[m])));
    r
}

fn leading_constraint_of(source: &[char]) -> (r: Option<Vec<char>>)
    ensures
        match r {
            Some(e) => leading_constraint(source@) == Some(e@),
            None => leading_constraint(source@) is None,
        },
{
    let lines = split_lines_of(source);
    let mut go_build: Option<Vec<char>> = None;
    let mut plus_build: Vec<Vec<char>> = Vec::new();
    let mut done = false;
    let mut k: usize = 0;
    while k < lines.len() && !done
        invariant
            k <= lines.len(),
            char_lines(lines@) == split_lines(source@),
            ({
                let h = header_upto(char_lines(lines@), k as nat);
                &&& h.0 == (match go_build {
                    Some(g) => Some(g@),
                    None => None,
                })
                &&& h.1 == char_lines(plus_build@)
                &&& h.2 == done
            }),
            done ==> header_upto(char_lines(lines@), k as nat) == header_upto(
                char_lines(lines@),
                lines@.len() as nat,
            ),
        decreases lines.len() - k + (if done { 0int } else { 1int }),
    {
        let t = trim_chars(lines[k].as_slice());
        assert(char_lines(lines@)[k as int] == lines@[k as int]@);
        if !take_constraint_line(t.as_slice(), &mut go_build, &mut plus_build) {
            done = true;
            proof {
                lemma_header_done(char_lines(lines@), (k + 1) as nat);
            }
        }
        k = k + 1;
    }
    let ghost h = header_upto(char_lines(lines@), lines@.len() as nat);
    assert(h == header_upto(char_lines(lines@), k as nat));
    match go_build {
        Some(g) => Some(g),
        None => {
            if plus_build.len() > 0 {
                Some(plus_lines_to_expr(&plus_build))
            } else {
                None
            }
        },
    }
}

/// Once the header has ended, later lines change nothing.
pub proof fn lemma_header_done(lines: Seq<Seq<char>>, k: nat)
    requires
        k <= lines.len(),
        header_upto(lines, k).2,
    ensures
        header_upto(lines, k) == header_upto(lines, lines.len()),
    decreases lines.len() - k,
{
    if k < lines.len() {
        assert(header_upto(lines, k + 1) == header_upto(lines, k));
        lemma_header_done(lines, k + 1);
    }
}

fn read_tag_chars(e: &[char], i: usize) -> (r: (String, usize))
    requires
        i < e.len(),
    ensures
        r.1 == tag_end(e@, i + 1),
        r.0@ == e@.subrange(i as int, r.1 as int),
{
    let mut name = String::new();
    crate::text::push_char(&mut name, e[i]);
    let mut j = i + 1;
    while j < e.len() && is_tag_continue(e[j])
        invariant
            i < j <= e.len(),
            tag_end(e@, j as int) == tag_end(e@, i + 1),
            name@ == e@.subrange(i as int, j as int),
        decreases e.len() - j,
    {
        crate::text::push_char(&mut name, e[j]);
        proof {
            assert(e@.subrange(i as int, j + 1) =~= e@.subrange(i as int, j as int).push(e@[j as int]));
        }
        j = j + 1;
    }
    (name, j)
}

fn is_tag_start(c: char) -> (r: bool)
    ensures
        r == tag_start(c),
{
    ('a' <= c && c <= 'z') || ('A' <= c && c <= 'Z') || c == '_'
}

fn is_tag_continue(c: char) -> (r: bool)
    ensures
        r == tag_continue(c),
{
    ('a' <= c && c <= 'z') || ('A' <= c && c <= 'Z') || ('0' <= c && c <= '9') || c == '_' || c
        == '.'
}

fn single_punct(c: char) -> (r: Option<Token>)
    ensures
        c == '!' ==> r == Some(Token::Not),
        c == '(' ==> r == Some(Token::LParen),
        c == ')' ==> r == Some(Token::RParen),
        c != '!' && c != '(' && c != ')' ==> r is None,
{
    if c == '!' {
        Some(Token::Not)
    } else if c == '(' {
        Some(Token::LParen)
    } else if c == ')' {
        Some(Token::RParen)
    } else {
        None
    }
}

/// Tokens of a constraint expression.
pub fn tokenize(e: &[char]) -> (r: Vec<Token>)
    ensures
        toks(r@) == tokens_from(e@, 0),
{
    let mut out: Vec<Token> = Vec::new();
    let mut i: usize = 0;
    while i < e.len()
        invariant
            i <= e.len(),
            toks(out@) + tokens_from(e@, i as int) == tokens_from(e@, 0),
        decreases e.len() - i,
    {
        let c = e[i];
        let ghost prev = toks(out@);
        if c == ' ' || c == '\t' {
            i = i + 1;
            continue;
        }
        if let Some(tok) = single_punct(c) {
            out.push(tok);
            assert(toks(out@) =~= prev.push(tok_of(tok)));
            assert(prev + tokens_from(e@, i as int) =~= toks(out@) + tokens_from(e@, i + 1));
            i = i + 1;
            continue;
        }
        if c == '&' || c == '|' {
            if i + 1 < e.len() && e[i + 1] == c {
                let tok = if c == '&' {
                    Token::And
                } else {
                    Token::Or
                };
                out.push(tok);
                assert(toks(out@) =~= prev.push(tok_of(tok)));
                assert(prev + tokens_from(e@, i as int) =~= toks(out@) + tokens_from(e@, i + 2));
            }
            if i + 1 < e.len() {
                i = i + 2;
            } else {
                i = e.len();
            }
            continue;
        }
        if is_tag_start(c) {
            proof {
                lemma_tag_end(e@, i + 1);
            }
            let (name, next) = read_tag_chars(e, i);
            let tok = Token::Ident(name);
            out.push(tok);
            assert(toks(out@) =~= prev.push(tok_of(tok)));
            assert(prev + tokens_from(e@, i as int) =~= toks(out@) + tokens_from(e@, next as int));
            i = next;
            continue;
        }
        i = i + 1;
    }
    assert(tokens_from(e@, i as int) =~= Seq::<Tok>::empty());
    assert(toks(out@) =~= tokens_from(e@, 0));
    out
}

fn eval_expr(expr: &[char], tags: &[String], host: &str) -> (r: bool)
    ensures
        r == constraint_holds(expr@, tag_texts(tags@), host@),
{
    let tokens = tokenize(expr);
    match parse_or(tokens.as_slice(), 0, tags, host) {
        Some((v, _)) => v,
        None => false,
    }
}

/// Whether a Go file should be skipped: its leading build constraint
/// exists and is false for the enabled `tags` on the host system `host`
/// (a Go operating-system name such as `linux` or `darwin`).
pub fn skip_file(source: &str, tags: &[String], host: &str) -> (r: bool)
    ensures
        r == skipped(source@, tag_texts(tags@), host@),
{
    let chars = chars_of(source);
    match leading_constraint_of(chars.as_slice()) {
        None => false,
        Some(expr) => !eval_expr(expr.as_slice(), tags, host),
    }
}

/// The header read from the first `n` lines depends on those lines alone.
proof fn lemma_header_prefix(a: Seq<Seq<char>>, b: Seq<Seq<char>>, n: nat)
    requires
        n <= a.len(),
        n <= b.len(),
        a.take(n as int) == b.take(n as int),
    ensures
        header_upto(a, n) == header_upto(b, n),
    decreases n,
{
    if n > 0 {
        assert(a.take(n - 1) =~= a.take(n as int).take(n - 1));
        assert(b.take(n - 1) =~= b.take(n as int).take(n - 1));
        lemma_header_prefix(a, b, (n - 1) as nat);
        assert(a[n - 1] == a.take(n as int)[n - 1]);
        assert(b[n - 1] == b.take(n as int)[n - 1]);
    }
}

/// Blank (or white-space only) lines do not end the leading comment block
/// and change nothing in it: inserting one anywhere leaves the header as
/// it was.
pub proof fn lemma_blank_line_keeps_header(lines: Seq<Seq<char>>, k: int, w: Seq<char>)
    requires
        0 <= k <= lines.len(),
        trimmed(w).len() == 0,
    ensures
        header_upto(lines.insert(k, w), lines.len() + 1) == header_upto(lines, lines.len()),
{
    lemma_blank_insert(lines, k, w, lines.len());
}

proof fn lemma_blank_insert(lines: Seq<Seq<char>>, k: int, w: Seq<char>, n: nat)
    requires
        0 <= k <= lines.len(),
        trimmed(w).len() == 0,
        k <= n <= lines.len(),
    ensures
        header_upto(lines.insert(k, w), n + 1) == header_upto(lines, n),
    decreases n,
{
    let ins = lines.insert(k, w);
    if n == k {
        assert(ins.take(n as int) =~= lines.take(n as int));
        lemma_header_prefix(ins, lines, n);
        assert(ins[k] == w);
    } else {
        lemma_blank_insert(lines, k, w, (n - 1) as nat);
        assert(ins[n as int] == lines[n - 1]);
    }
}

/// Lines of a text that ends in a newline, followed by more text: the
/// lines of each part, the empty piece after the newline replaced by the
/// first line of the rest.
proof fn lemma_split_lines_concat(x: Seq<char>, y: Seq<char>)
    requires
        x.len() > 0,
        x.last() == '\n',
    ensures
        split_lines(x + y) == split_lines(x).drop_last() + split_lines(y),
    decreases y.len(),
{
    if y.len() == 0 {
        assert(x + y =~= x);
        assert(split_lines(x).drop_last() + split_lines(y) =~= split_lines(x)) by {
            assert(split_lines(x) == split_lines(x.drop_last()).push(Seq::empty()));
        }
    } else {
        lemma_split_lines_concat(x, y.drop_last());
        assert((x + y).drop_last() =~= x + y.drop_last());
        assert((x + y).last() == y.last());
        lemma_split_lines_nonempty(y.drop_last());
        let a = split_lines(x).drop_last();
        let pv = split_lines(y.drop_last());
        if y.last() == '\n' {
            assert((a + pv).push(Seq::empty()) =~= a + pv.push(Seq::empty()));
        } else {
            assert((a + pv).update((a + pv).len() - 1, (a + pv).last().push(y.last())) =~= a + pv.update(
                pv.len() - 1,
                pv.last().push(y.last()),
            ));
        }
    }
}

proof fn lemma_split_lines_nonempty(s: Seq<char>)
    ensures
        split_lines(s).len() >= 1,
    decreases s.len(),
{
    if s.len() > 0 {
        lemma_split_lines_nonempty(s.drop_last());
    }
}

/// A blank line before the rest of a file changes nothing in its build
/// constraint: `a`, a newline, and `c` have the constraint of `a`, two
/// newlines, and `c`. So a `//go:build` line after a blank line that
/// follows a license comment is still read.
pub proof fn lemma_blank_line_keeps_constraint(a: Seq<char>, c: Seq<char>)
    ensures
        leading_constraint(a + seq!['\n', '\n'] + c) == leading_constraint(a + seq!['\n'] + c),
{
    let x = a + seq!['\n'];
    let one = x + c;
    let two = x + (seq!['\n'] + c);
    assert(a + seq!['\n'] + c =~= one);
    assert(a + seq!['\n', '\n'] + c =~= two);
    lemma_split_lines_concat(x, c);
    lemma_split_lines_concat(x, seq!['\n'] + c);
    lemma_split_lines_concat(seq!['\n'], c);
    assert(split_lines(seq!['\n']) =~= seq![Seq::<char>::empty(), Seq::<char>::empty()]) by {
        let nl = seq!['\n'];
        assert(nl.drop_last() =~= Seq::<char>::empty());
        assert(nl.last() == '\n');
        assert(split_lines(Seq::<char>::empty()) == seq![Seq::<char>::empty()]);
        assert(split_lines(nl) == split_lines(nl.drop_last()).push(Seq::<char>::empty()));
    }
    let pre = split_lines(x).drop_last();
    let rest = split_lines(c);
    assert(split_lines(seq!['\n'] + c) =~= seq![Seq::<char>::empty()] + rest);
    let l1 = split_lines(one);
    let l2 = split_lines(two);
    assert(l1 =~= pre + rest);
    assert(l2 =~= (pre + rest).insert(pre.len() as int, Seq::<char>::empty()));
    assert(trimmed(Seq::<char>::empty()).len() == 0);
    lemma_blank_line_keeps_header(l1, pre.len() as int, Seq::<char>::empty());
}

/// Whether a file is skipped does not change when a blank line is put
/// before the rest of it.
pub proof fn lemma_blank_line_keeps_skip(a: Seq<char>, c: Seq<char>, tags: Seq<Seq<char>>, host: Seq<char>)
    ensures
        skipped(a + seq!['\n', '\n'] + c, tags, host) == skipped(a + seq!['\n'] + c, tags, host),
{
    lemma_blank_line_keeps_constraint(a, c);
}

/// A line that is neither blank nor a `//` comment.
pub open spec fn code_line(l: Seq<char>) -> bool {
    trimmed(l).len() > 0 && !starts_with(trimmed(l), "//"@)
}

/// Once a code line has been read, the header is done and stays as it was.
proof fn lemma_header_done_after(lines: Seq<Seq<char>>, j: int, n: nat)
    requires
        0 <= j < n <= lines.len(),
        code_line(lines[j]),
    ensures
        header_upto(lines, n).2,
        header_upto(lines, n) == header_upto(lines, (j + 1) as nat),
    decreases n,
{
    if n > j + 1 {
        lemma_header_done_after(lines, j, (n - 1) as nat);
    } else {
        let t = trimmed(lines[j]);
        if starts_with(t, "//go:build"@) || starts_with(t, "// +build"@) {
            assert(starts_with(t, "//"@)) by {
                reveal_strlit("//go:build");
                reveal_strlit("// +build");
                reveal_strlit("//");
                assert(t.subrange(0, 2) =~= "//"@);
            }
        }
    }
}

/// A text without a newline is one line.
proof fn lemma_one_line(l: Seq<char>)
    requires
        forall|k: int| 0 <= k < l.len() ==> #[trigger] l[k] != '\n',
    ensures
        split_lines(l) == seq![l],
    decreases l.len(),
{
    if l.len() > 0 {
        lemma_one_line(l.drop_last());
        assert(l[l.len() - 1] != '\n');
        assert(l.drop_last().push(l.last()) =~= l);
        assert(seq![l.drop_last()].update(0, l) =~= seq![l]);
    } else {
        assert(l =~= Seq::<char>::empty());
    }
}

/// Nothing after the first code line matters: the build constraint of a
/// file whose line `l` is code (neither blank nor a `//` comment) is read
/// from the lines up to `l` alone, whatever follows.
pub proof fn lemma_code_line_ends_header(a: Seq<char>, l: Seq<char>, c: Seq<char>)
    requires
        code_line(l),
        forall|k: int| 0 <= k < l.len() ==> #[trigger] l[k] != '\n',
    ensures
        leading_constraint(a + seq!['\n'] + l + seq!['\n'] + c) == leading_constraint(
            a + seq!['\n'] + l + seq!['\n'],
        ),
{
    let x = a + seq!['\n'];
    let y = l + seq!['\n'];
    let whole = x + y;
    assert(a + seq!['\n'] + l + seq!['\n'] =~= whole);
    assert(a + seq!['\n'] + l + seq!['\n'] + c =~= whole + c);
    lemma_split_lines_concat(x, y);
    lemma_one_line(l);
    assert(y.drop_last() =~= l);
    assert(split_lines(y) == seq![l].push(Seq::<char>::empty()));
    let pre = split_lines(x).drop_last() + seq![l];
    assert(split_lines(whole) =~= pre.push(Seq::<char>::empty()));
    assert(whole.last() == '\n');
    lemma_split_lines_concat(whole, c);
    let l0 = split_lines(whole);
    let l1 = split_lines(whole + c);
    assert(l1 =~= pre + split_lines(c));
    lemma_split_lines_nonempty(c);
    let j = pre.len() - 1;
    assert(l0[j] == l);
    assert(l1[j] == l);
    assert(l0.take(pre.len() as int) =~= l1.take(pre.len() as int));
    lemma_header_prefix(l0, l1, pre.len());
    lemma_header_done_after(l0, j, l0.len());
    lemma_header_done_after(l0, j, pre.len());
    lemma_header_done_after(l1, j, l1.len());
    lemma_header_done_after(l1, j, pre.len());
}

} // verus!
