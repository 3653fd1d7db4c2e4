//! A small JSON reader for workspace metadata.
//!
//! Numbers are kept as the text of the numeral; turning them into
//! floating-point values is left to the caller.
use crate::text::{decimal, decimal_string, push_char, str_eq, string_from};
use vstd::prelude::*;

verus! {

/// A JSON value.
pub enum Json {
    /// `null`.
    Null,
    /// `true` or `false`.
    Bool(bool),
    /// A number, as its numeral text.
    Number(String),
    /// A string.
    String(String),
    /// An array.
    Array(Vec<Json>),
    /// An object: each key once, in first-seen order; a repeated key keeps
    /// the value given last.
    Object(Vec<(String, Json)>),
}

/// The mathematical content of a JSON value.
pub enum JsonView {
    Null,
    Bool(bool),
    Number(Seq<char>),
    Str(Seq<char>),
    Array(Seq<JsonView>),
    Object(Seq<(Seq<char>, JsonView)>),
}

/// The content of a JSON value.
pub open spec fn json_view(j: Json) -> JsonView
    decreases j, 1int,
{
    match j {
        Json::Null => JsonView::Null,
        Json::Bool(b) => JsonView::Bool(b),
        Json::Number(n) => JsonView::Number(n@),
        Json::String(s) => JsonView::Str(s@),
        Json::Array(items) => JsonView::Array(items_view(items@)),
        Json::Object(entries) => JsonView::Object(entries_view(entries@)),
    }
}

/// The content of a list of JSON values.
pub open spec fn items_view(v: Seq<Json>) -> Seq<JsonView>
    decreases v, 0int,
{
    if v.len() == 0 {
        Seq::empty()
    } else {
        items_view(v.drop_last()).push(json_view(v.last()))
    }
}

/// The content of a list of object entries.
pub open spec fn entries_view(v: Seq<(String, Json)>) -> Seq<(Seq<char>, JsonView)>
    decreases v, 0int,
{
    if v.len() == 0 {
        Seq::empty()
    } else {
        entries_view(v.drop_last()).push((v.last().0@, json_view(v.last().1)))
    }
}

/// JSON white space (`u8::is_ascii_whitespace`).
pub open spec fn json_ws(c: char) -> bool {
    c == ' ' || c == '\t' || c == '\n' || c == '\x0C' || c == '\r'
}

/// First position at or after `i` that is not white space.
pub open spec fn ws_end(t: Seq<char>, i: int) -> int
    decreases t.len() - i,
{
    if 0 <= i < t.len() && json_ws(t[i]) {
        ws_end(t, i + 1)
    } else {
        i
    }
}

/// The first byte of a character's UTF-8 encoding.
pub open spec fn lead_byte(c: char) -> u8 {
    let u = c as u32;
    if u < 0x80 {
        u as u8
    } else if u < 0x800 {
        (0xC0 + u / 64) as u8
    } else if u < 0x10000 {
        (0xE0 + u / 4096) as u8
    } else {
        (0xF0 + u / 262144) as u8
    }
}

/// The character a byte reads as on its own (`u8 as char`).
pub open spec fn byte_char(b: u8) -> char {
    b as char
}

pub open spec fn eof_message() -> Seq<char> {
    "unexpected end of JSON"@
}

pub open spec fn expected_message(wanted: char, got: char) -> Seq<char> {
    "expected "@ + seq![wanted] + " found "@ + seq![byte_char(lead_byte(got))]
}

/// An ASCII decimal digit.
pub open spec fn digit_char(c: char) -> bool {
    '0' <= c <= '9'
}

/// First position at or after `i` that is not a digit.
pub open spec fn digits_end(t: Seq<char>, i: int) -> int
    decreases t.len() - i,
{
    if 0 <= i < t.len() && digit_char(t[i]) {
        digits_end(t, i + 1)
    } else {
        i
    }
}

/// One or more digits at `i`: where they end.
pub open spec fn p_digits(t: Seq<char>, i: int) -> Result<int, Seq<char>> {
    if digits_end(t, i) == i {
        Err("expected JSON digits"@)
    } else {
        Ok(digits_end(t, i))
    }
}

/// A number starting at `j`: sign, digits, optional fraction and exponent.
pub open spec fn p_number(t: Seq<char>, j: int) -> Result<(JsonView, int), Seq<char>> {
    let p0 = if 0 <= j < t.len() && t[j] == '-' { j + 1 } else { j };
    match p_digits(t, p0) {
        Err(e) => Err(e),
        Ok(p1) => {
            let frac = if 0 <= p1 < t.len() && t[p1] == '.' {
                p_digits(t, p1 + 1)
            } else {
                Ok(p1)
            };
            match frac {
                Err(e) => Err(e),
                Ok(p3) => {
                    let exp = if 0 <= p3 < t.len() && (t[p3] == 'e' || t[p3] == 'E') {
                        let p4 = p3 + 1;
                        let p5 = if 0 <= p4 < t.len() && (t[p4] == '+' || t[p4] == '-') {
                            p4 + 1
                        } else {
                            p4
                        };
                        p_digits(t, p5)
                    } else {
                        Ok(p3)
                    };
                    match exp {
                        Err(e) => Err(e),
                        Ok(end) => Ok((JsonView::Number(t.subrange(j, end)), end)),
                    }
                },
            }
        },
    }
}

/// The literal `w` at `j`, checked from its `k`-th character on.
pub open spec fn p_literal(t: Seq<char>, j: int, w: Seq<char>, k: int) -> Result<int, Seq<char>>
    decreases w.len() - k,
{
    if 0 <= k < w.len() {
        if j + k >= t.len() {
            Err(eof_message())
        } else if t[j + k] != w[k] {
            Err("invalid JSON literal"@)
        } else {
            p_literal(t, j, w, k + 1)
        }
    } else {
        Ok(j + w.len())
    }
}

/// Value of a hexadecimal digit.
pub open spec fn hex_value(c: char) -> Option<u32> {
    if '0' <= c <= '9' {
        Some(((c as u32) - ('0' as u32)) as u32)
    } else if 'a' <= c <= 'f' {
        Some(((c as u32) - ('a' as u32) + 10) as u32)
    } else if 'A' <= c <= 'F' {
        Some(((c as u32) - ('A' as u32) + 10) as u32)
    } else {
        None
    }
}

/// The code of four hex digits at `k`, read from the `m`-th on with
/// `acc` so far.
pub open spec fn p_hex4(t: Seq<char>, k: int, m: int, acc: u32) -> Result<u32, Seq<char>>
    decreases 4 - m,
{
    if 0 <= m < 4 {
        if k + m >= t.len() {
            Err(eof_message())
        } else {
            match hex_value(t[k + m]) {
                None => Err("invalid \\u escape"@),
                Some(d) => p_hex4(t, k, m + 1, (acc * 16 + d) as u32),
            }
        }
    } else {
        Ok(acc)
    }
}

/// A code point that is a character (not a surrogate).
pub open spec fn scalar_code(code: u32) -> bool {
    code < 0xD800 || (0xE000 <= code && code <= 0x10FFFF)
}

/// The escape whose letter is at `k` (after a backslash).
pub open spec fn p_escape(t: Seq<char>, k: int) -> Result<(char, int), Seq<char>> {
    if !(0 <= k < t.len()) {
        Err(eof_message())
    } else {
        let e = t[k];
        if e == '"' {
            Ok(('"', k + 1))
        } else if e == '\\' {
            Ok(('\\', k + 1))
        } else if e == '/' {
            Ok(('/', k + 1))
        } else if e == 'b' {
            Ok(('\x08', k + 1))
        } else if e == 'f' {
            Ok(('\x0C', k + 1))
        } else if e == 'n' {
            Ok(('\n', k + 1))
        } else if e == 'r' {
            Ok(('\r', k + 1))
        } else if e == 't' {
            Ok(('\t', k + 1))
        } else if e == 'u' {
            match p_hex4(t, k + 1, 0, 0) {
                Err(x) => Err(x),
                Ok(code) => if scalar_code(code) {
                    Ok((code as char, k + 5))
                } else {
                    Err("invalid unicode escape"@)
                },
            }
        } else {
            Err("unknown JSON escape "@ + seq![byte_char(lead_byte(e))])
        }
    }
}

/// An ASCII control character.
pub open spec fn control_char(c: char) -> bool {
    (c as u32) < 32 || (c as u32) == 127
}

/// The rest of a string body from `i`, with `raw` read so far.
pub open spec fn p_string_body(t: Seq<char>, i: int, raw: Seq<char>) -> Result<(Seq<char>, int), Seq<char>>
    decreases t.len() - i,
{
    if !(0 <= i < t.len()) {
        Err(eof_message())
    } else {
        let c = t[i];
        if c == '"' {
            Ok((raw, i + 1))
        } else if c == '\\' {
            match p_escape(t, i + 1) {
                Err(e) => Err(e),
                Ok((ch, n)) => if i < n <= t.len() {
                    p_string_body(t, n, raw.push(ch))
                } else {
                    Err(eof_message())
                },
            }
        } else if control_char(c) {
            Err("control in JSON string"@)
        } else {
            p_string_body(t, i + 1, raw.push(c))
        }
    }
}

/// A string whose opening quote is expected at `i`.
pub open spec fn p_string(t: Seq<char>, i: int) -> Result<(Seq<char>, int), Seq<char>> {
    if !(0 <= i < t.len()) {
        Err(eof_message())
    } else if t[i] != '"' {
        Err(expected_message('"', t[i]))
    } else {
        p_string_body(t, i + 1, Seq::empty())
    }
}

/// Index of the first entry at or after `k` whose key is `key`.
pub open spec fn key_from(entries: Seq<(Seq<char>, JsonView)>, key: Seq<char>, k: int) -> Option<int>
    decreases entries.len() - k,
{
    if 0 <= k < entries.len() {
        if entries[k].0 == key {
            Some(k)
        } else {
            key_from(entries, key, k + 1)
        }
    } else {
        None
    }
}

/// `entries` with `key` set to `v`: replaced in place when present.
pub open spec fn obj_insert(entries: Seq<(Seq<char>, JsonView)>, key: Seq<char>, v: JsonView) -> Seq<(Seq<char>, JsonView)> {
    match key_from(entries, key, 0) {
        Some(k) => entries.update(k, (key, v)),
        None => entries.push((key, v)),
    }
}

/// The value stored under `key`.
pub open spec fn obj_get(entries: Seq<(Seq<char>, JsonView)>, key: Seq<char>) -> Option<JsonView> {
    match key_from(entries, key, 0) {
        Some(k) => Some(entries[k].1),
        None => None,
    }
}

/// A value at or after `i` (white space first).
pub open spec fn p_value(t: Seq<char>, i: int) -> Result<(JsonView, int), Seq<char>>
    decreases t.len() - i, 0int,
{
    let j = ws_end(t, i);
    if !(0 <= j < t.len()) || j < i {
        Err(eof_message())
    } else {
        let c = t[j];
        if c == 'n' {
            match p_literal(t, j, "null"@, 0) {
                Ok(e) => Ok((JsonView::Null, e)),
                Err(x) => Err(x),
            }
        } else if c == 't' {
            match p_literal(t, j, "true"@, 0) {
                Ok(e) => Ok((JsonView::Bool(true), e)),
                Err(x) => Err(x),
            }
        } else if c == 'f' {
            match p_literal(t, j, "false"@, 0) {
                Ok(e) => Ok((JsonView::Bool(false), e)),
                Err(x) => Err(x),
            }
        } else if c == '"' {
            match p_string(t, j) {
                Ok((s, e)) => Ok((JsonView::Str(s), e)),
                Err(x) => Err(x),
            }
        } else if c == '[' {
            p_array_from(t, j + 1, Seq::empty())
        } else if c == '{' {
            p_object_from(t, j + 1, Seq::empty())
        } else if c == '-' || digit_char(c) {
            p_number(t, j)
        } else {
            Err("unexpected JSON byte "@ + decimal(lead_byte(c) as nat))
        }
    }
}

/// Array items from `i` on, with `items` read so far.
pub open spec fn p_array_from(t: Seq<char>, i: int, items: Seq<JsonView>) -> Result<(JsonView, int), Seq<char>>
    decreases t.len() - i, 1int,
{
    let j = ws_end(t, i);
    if !(0 <= j < t.len()) || j < i {
        Err(eof_message())
    } else if t[j] == ']' {
        Ok((JsonView::Array(items), j + 1))
    } else {
        let start = if items.len() > 0 {
            if t[j] != ',' {
                Err(expected_message(',', t[j]))
            } else {
                Ok(ws_end(t, j + 1))
            }
        } else {
            Ok(j)
        };
        match start {
            Err(x) => Err(x),
            Ok(k) => if k < i || k > t.len() {
                Err(eof_message())
            } else {
                match p_value(t, k) {
                    Err(x) => Err(x),
                    Ok((v, m)) => if i < m <= t.len() {
                        p_array_from(t, m, items.push(v))
                    } else {
                        Err(eof_message())
                    },
                }
            },
        }
    }
}

/// Object entries from `i` on, with `entries` read so far.
pub open spec fn p_object_from(t: Seq<char>, i: int, entries: Seq<(Seq<char>, JsonView)>) -> Result<(JsonView, int), Seq<char>>
    decreases t.len() - i, 1int,
{
    let j = ws_end(t, i);
    if !(0 <= j < t.len()) || j < i {
        Err(eof_message())
    } else if t[j] == '}' {
        Ok((JsonView::Object(entries), j + 1))
    } else {
        let start = if entries.len() > 0 {
            if t[j] != ',' {
                Err(expected_message(',', t[j]))
            } else {
                Ok(ws_end(t, j + 1))
            }
        } else {
            Ok(j)
        };
        match start {
            Err(x) => Err(x),
            Ok(k) => match p_string(t, k) {
                Err(x) => Err(x),
                Ok((key, k2)) => {
                    let k3 = ws_end(t, k2);
                    if !(0 <= k3 < t.len()) {
                        Err(eof_message())
                    } else if t[k3] != ':' {
                        Err(expected_message(':', t[k3]))
                    } else if k3 + 1 <= i {
                        Err(eof_message())
                    } else {
                        match p_value(t, k3 + 1) {
                            Err(x) => Err(x),
                            Ok((v, m)) => if i < m <= t.len() {
                                p_object_from(t, m, obj_insert(entries, key, v))
                            } else {
                                Err(eof_message())
                            },
                        }
                    }
                },
            },
        }
    }
}

/// The document `t`: one value, with only white space around it.
pub open spec fn p_document(t: Seq<char>) -> Result<JsonView, Seq<char>> {
    match p_value(t, 0) {
        Err(x) => Err(x),
        Ok((v, e)) => if ws_end(t, e) != t.len() {
            Err("trailing JSON after the document"@)
        } else {
            Ok(v)
        },
    }
}

pub proof fn lemma_ws_end(t: Seq<char>, i: int)
    ensures
        i <= ws_end(t, i),
        i <= t.len() ==> ws_end(t, i) <= t.len(),
    decreases t.len() - i,
{
    if 0 <= i < t.len() && json_ws(t[i]) {
        lemma_ws_end(t, i + 1);
    }
}

pub proof fn lemma_digits_end(t: Seq<char>, i: int)
    ensures
        i <= digits_end(t, i),
        i <= t.len() ==> digits_end(t, i) <= t.len(),
    decreases t.len() - i,
{
    if 0 <= i < t.len() && digit_char(t[i]) {
        lemma_digits_end(t, i + 1);
    }
}

pub proof fn lemma_items_view(v: Seq<Json>)
    ensures
        items_view(v).len() == v.len(),
        forall|k: int| 0 <= k < v.len() ==> #[trigger] items_view(v)[k] == json_view(v[k]),
    decreases v.len(),
{
    if v.len() > 0 {
        lemma_items_view(v.drop_last());
    }
}

pub proof fn lemma_entries_view(v: Seq<(String, Json)>)
    ensures
        entries_view(v).len() == v.len(),
        forall|k: int| 0 <= k < v.len() ==> #[trigger] entries_view(v)[k] == (v[k].0@, json_view(v[k].1)),
    decreases v.len(),
{
    if v.len() > 0 {
        lemma_entries_view(v.drop_last());
    }
}

impl Json {
    /// Parses `text` as one JSON document, or says why it is not one.
    pub fn parse(text: &str) -> (r: Result<Json, String>)
        ensures
            match r {
                Ok(v) => p_document(text@) == Ok::<JsonView, Seq<char>>(json_view(v)),
                Err(m) => p_document(text@) == Err::<JsonView, Seq<char>>(m@),
            },
    {
        let t = crate::text::chars_of(text);
        match value(t.as_slice(), 0) {
            Err(m) => Err(m),
            Ok((v, e)) => {
                if skip_ws(t.as_slice(), e) != t.len() {
                    Err(String::from_str("trailing JSON after the document"))
                } else {
                    Ok(v)
                }
            },
        }
    }

    /// The items, when this value is an array.
    pub fn as_array(&self) -> (r: Option<&[Json]>)
        ensures
            match self {
                Json::Array(items) => r matches Some(s) && s@ == items@,
                _ => r is None,
            },
    {
        match self {
            Json::Array(items) => Some(items.as_slice()),
            _ => None,
        }
    }

    /// The text, when this value is a string.
    pub fn as_str(&self) -> (r: Option<&str>)
        ensures
            match self {
                Json::String(s) => r matches Some(x) && x@ == s@,
                _ => r is None,
            },
    {
        match self {
            Json::String(s) => Some(s.as_str()),
            _ => None,
        }
    }

    /// The value under `key`, when this value is an object that has it.
    pub fn get(&self, key: &str) -> (r: Option<&Json>)
        ensures
            match json_view(*self) {
                JsonView::Object(entries) => match r {
                    Some(x) => obj_get(entries, key@) == Some(json_view(*x)),
                    None => obj_get(entries, key@) is None,
                },
                _ => r is None,
            },
    {
        match self {
            Json::Object(entries) => {
                proof {
                    lemma_entries_view(entries@);
                }
                let ghost ev = entries_view(entries@);
                let mut k: usize = 0;
                while k < entries.len()
                    invariant
                        k <= entries@.len(),
                        ev.len() == entries@.len(),
                        json_view(*self) == JsonView::Object(ev),
                        forall|m: int| 0 <= m < entries@.len() ==> #[trigger] ev[m] == (entries@[m].0@, json_view(entries@[m].1)),
                        key_from(ev, key@, k as int) == key_from(ev, key@, 0),
                    decreases entries.len() - k,
                {
                    if str_eq(entries[k].0.as_str(), key) {
                        proof {
                            assert(ev[k as int].0 == key@);
                            assert(key_from(ev, key@, k as int) == Some(k as int));
                        }
                        return Some(&entries[k].1);
                    }
                    k = k + 1;
                }
                None
            },
            _ => None,
        }
    }
}

/// Result of an exec parse step read against its spec.
pub open spec fn value_matches(r: Result<(Json, usize), String>, s: Result<(JsonView, int), Seq<char>>) -> bool {
    match r {
        Ok((v, e)) => s == Ok::<(JsonView, int), Seq<char>>((json_view(v), e as int)),
        Err(m) => s == Err::<(JsonView, int), Seq<char>>(m@),
    }
}

fn skip_ws(t: &[char], i: usize) -> (r: usize)
    ensures
        r == ws_end(t@, i as int),
{
    let mut pos = i;
    while pos < t.len() && (t[pos] == ' ' || t[pos] == '\t' || t[pos] == '\n' || t[pos] == '\x0C'
        || t[pos] == '\r')
        invariant
            i <= pos,
            ws_end(t@, pos as int) == ws_end(t@, i as int),
        decreases t.len() - pos,
    {
        pos = pos + 1;
    }
    pos
}

fn eof() -> (m: String)
    ensures
        m@ == eof_message(),
{
    String::from_str("unexpected end of JSON")
}

fn lead_byte_of(c: char) -> (b: u8)
    ensures
        b == lead_byte(c),
{
    let u = c as u32;
    if u < 0x80 {
        u as u8
    } else if u < 0x800 {
        (0xC0 + u / 64) as u8
    } else if u < 0x10000 {
        (0xE0 + u / 4096) as u8
    } else {
        (0xF0 + u / 262144) as u8
    }
}

fn expected_found(wanted: char, got: char) -> (m: String)
    ensures
        m@ == expected_message(wanted, got),
{
    let found = lead_byte_of(got) as char;
    let mut m = String::from_str("expected ");
    push_char(&mut m, wanted);
    m.append(" found ");
    push_char(&mut m, found);
    proof {
        assert(m@ =~= expected_message(wanted, got));
    }
    m
}

fn literal(t: &[char], j: usize, word: &str) -> (r: Result<usize, String>)
    requires
        j <= t@.len(),
    ensures
        match r {
            Ok(e) => p_literal(t@, j as int, word@, 0) == Ok::<int, Seq<char>>(e as int),
            Err(m) => p_literal(t@, j as int, word@, 0) == Err::<int, Seq<char>>(m@),
        },
{
    let w = crate::text::chars_of(word);
    let n = t.len();
    let mut k: usize = 0;
    while k < w.len()
        invariant
            k <= w.len(),
            j <= t@.len(),
            w@ == word@,
            n == t@.len(),
            j + k <= t@.len(),
            p_literal(t@, j as int, word@, k as int) == p_literal(t@, j as int, word@, 0),
        decreases w.len() - k,
    {
        if n - j <= k {
            return Err(eof());
        }
        if t[j + k] != w[k] {
            return Err(String::from_str("invalid JSON literal"));
        }
        k = k + 1;
    }
    Ok(j + w.len())
}

fn digits(t: &[char], i: usize) -> (r: Result<usize, String>)
    ensures
        match r {
            Ok(e) => p_digits(t@, i as int) == Ok::<int, Seq<char>>(e as int),
            Err(m) => p_digits(t@, i as int) == Err::<int, Seq<char>>(m@),
        },
{
    let mut pos = i;
    while pos < t.len() && '0' <= t[pos] && t[pos] <= '9'
        invariant
            i <= pos,
            digits_end(t@, pos as int) == digits_end(t@, i as int),
        decreases t.len() - pos,
    {
        pos = pos + 1;
    }
    if pos == i {
        return Err(String::from_str("expected JSON digits"));
    }
    Ok(pos)
}

fn number(t: &[char], j: usize) -> (r: Result<(Json, usize), String>)
    requires
        j < t@.len(),
    ensures
        value_matches(r, p_number(t@, j as int)),
{
    let p0 = if t[j] == '-' {
        j + 1
    } else {
        j
    };
    proof {
        lemma_digits_end(t@, p0 as int);
    }
    let p1 = match digits(t, p0) {
        Ok(p) => p,
        Err(e) => {
            return Err(e);
        },
    };
    let p3 = if p1 < t.len() && t[p1] == '.' {
        proof {
            lemma_digits_end(t@, p1 + 1);
        }
        match digits(t, p1 + 1) {
            Ok(p) => p,
            Err(e) => {
                return Err(e);
            },
        }
    } else {
        p1
    };
    let end = if p3 < t.len() && (t[p3] == 'e' || t[p3] == 'E') {
        let p4 = p3 + 1;
        let p5 = if p4 < t.len() && (t[p4] == '+' || t[p4] == '-') {
            p4 + 1
        } else {
            p4
        };
        proof {
            lemma_digits_end(t@, p5 as int);
        }
        match digits(t, p5) {
            Ok(p) => p,
            Err(e) => {
                return Err(e);
            },
        }
    } else {
        p3
    };
    let text = crate::chars::copy_chars(t, j, end);
    Ok((Json::Number(string_from(text.as_slice())), end))
}

fn hex_digit(c: char) -> (r: Option<u32>)
    ensures
        r == hex_value(c),
{
    if '0' <= c && c <= '9' {
        Some((c as u32) - ('0' as u32))
    } else if 'a' <= c && c <= 'f' {
        Some((c as u32) - ('a' as u32) + 10)
    } else if 'A' <= c && c <= 'F' {
        Some((c as u32) - ('A' as u32) + 10)
    } else {
        None
    }
}

fn unicode_escape(t: &[char], k: usize) -> (r: Result<(char, usize), String>)
    requires
        k <= t@.len(),
    ensures
        match p_hex4(t@, k as int, 0, 0) {
            Err(x) => r matches Err(m) && m@ == x,
            Ok(code) => if scalar_code(code) {
                r matches Ok((c, n)) && c == code as char && n == k + 4
            } else {
                r matches Err(m) && m@ == "invalid unicode escape"@
            },
        },
{
    let n = t.len();
    let mut code: u32 = 0;
    let mut m: usize = 0;
    while m < 4
        invariant
            m <= 4,
            n == t@.len(),
            k + m <= t@.len(),
            code < pow16(m as nat),
            pow16(m as nat) <= 65536,
            p_hex4(t@, k as int, m as int, code) == p_hex4(t@, k as int, 0, 0),
        decreases 4 - m,
    {
        if n - k <= m {
            return Err(eof());
        }
        let d = match hex_digit(t[k + m]) {
            Some(d) => d,
            None => {
                return Err(String::from_str("invalid \\u escape"));
            },
        };
        assert(code * 16 + d < pow16((m + 1) as nat)) by (nonlinear_arith)
            requires
                code < pow16(m as nat),
                d < 16,
                pow16((m + 1) as nat) == pow16(m as nat) * 16,
        ;
        proof {
            lemma_pow16_small((m + 1) as nat);
        }
        code = code * 16 + d;
        m = m + 1;
    }
    if code < 0xD800 || (0xE000 <= code && code <= 0x10FFFF) {
        match char_from_code(code) {
            Some(c) => Ok((c, k + 4)),
            None => Err(String::from_str("invalid unicode escape")),
        }
    } else {
        Err(String::from_str("invalid unicode escape"))
    }
}

fn escape(t: &[char], k: usize) -> (r: Result<(char, usize), String>)
    requires
        k <= t@.len(),
    ensures
        match r {
            Ok((c, n)) => p_escape(t@, k as int) == Ok::<(char, int), Seq<char>>((c, n as int)),
            Err(m) => p_escape(t@, k as int) == Err::<(char, int), Seq<char>>(m@),
        },
{
    if k >= t.len() {
        return Err(eof());
    }
    let e = t[k];
    if e == '"' {
        Ok(('"', k + 1))
    } else if e == '\\' {
        Ok(('\\', k + 1))
    } else if e == '/' {
        Ok(('/', k + 1))
    } else if e == 'b' {
        Ok(('\x08', k + 1))
    } else if e == 'f' {
        Ok(('\x0C', k + 1))
    } else if e == 'n' {
        Ok(('\n', k + 1))
    } else if e == 'r' {
        Ok(('\r', k + 1))
    } else if e == 't' {
        Ok(('\t', k + 1))
    } else if e == 'u' {
        unicode_escape(t, k + 1)
    } else {
        let mut m = String::from_str("unknown JSON escape ");
        push_char(&mut m, lead_byte_of(e) as char);
        assert(m@ =~= "unknown JSON escape "@ + seq![byte_char(lead_byte(e))]);
        Err(m)
    }
}

/// A string whose opening quote is expected at `i`: its text and the
/// position after the closing quote.
fn string_at(t: &[char], i: usize) -> (r: Result<(String, usize), String>)
    requires
        i <= t@.len(),
    ensures
        match r {
            Ok((v, e)) => p_string(t@, i as int) == Ok::<(Seq<char>, int), Seq<char>>((v@, e as int)),
            Err(m) => p_string(t@, i as int) == Err::<(Seq<char>, int), Seq<char>>(m@),
        },
{
    if i >= t.len() {
        return Err(eof());
    }
    if t[i] != '"' {
        return Err(expected_found('"', t[i]));
    }
    let mut raw: Vec<char> = Vec::new();
    let mut pos = i + 1;
    while pos < t.len()
        invariant
            i < pos <= t@.len(),
            p_string_body(t@, pos as int, raw@) == p_string(t@, i as int),
        decreases t.len() - pos,
    {
        let c = t[pos];
        if c == '"' {
            return Ok((string_from(raw.as_slice()), pos + 1));
        } else if c == '\\' {
            match escape(t, pos + 1) {
                Err(e) => {
                    return Err(e);
                },
                Ok((ch, n)) => {
                    if !(pos < n && n <= t.len()) {
                        return Err(eof());
                    }
                    raw.push(ch);
                    pos = n;
                },
            }
        } else if (c as u32) < 32 || (c as u32) == 127 {
            return Err(String::from_str("control in JSON string"));
        } else {
            raw.push(c);
            pos = pos + 1;
        }
    }
    Err(eof())
}

/// The literal word `w` at `j`, giving `value` on success.
fn word_value(t: &[char], j: usize, w: &str, value: Json) -> (r: Result<(Json, usize), String>)
    requires
        j <= t@.len(),
    ensures
        match r {
            Ok((v, e)) => v == value && p_literal(t@, j as int, w@, 0) == Ok::<int, Seq<char>>(e as int),
            Err(m) => p_literal(t@, j as int, w@, 0) == Err::<int, Seq<char>>(m@),
        },
{
    match literal(t, j, w) {
        Ok(e) => Ok((value, e)),
        Err(m) => Err(m),
    }
}

/// A value at or after `i`, white space first.
fn value(t: &[char], i: usize) -> (r: Result<(Json, usize), String>)
    requires
        i <= t@.len(),
    ensures
        value_matches(r, p_value(t@, i as int)),
    decreases t@.len() - i, 0int,
{
    let j = skip_ws(t, i);
    proof {
        lemma_ws_end(t@, i as int);
    }
    if j >= t.len() {
        return Err(eof());
    }
    let c = t[j];
    if c == 'n' {
        proof {
            reveal_strlit("null");
        }
        word_value(t, j, "null", Json::Null)
    } else if c == 't' {
        proof {
            reveal_strlit("true");
        }
        word_value(t, j, "true", Json::Bool(true))
    } else if c == 'f' {
        proof {
            reveal_strlit("false");
        }
        word_value(t, j, "false", Json::Bool(false))
    } else if c == '"' {
        match string_at(t, j) {
            Ok((s, e)) => Ok((Json::String(s), e)),
            Err(m) => Err(m),
        }
    } else if c == '[' {
        array_from(t, j + 1)
    } else if c == '{' {
        object_from(t, j + 1)
    } else if c == '-' || ('0' <= c && c <= '9') {
        number(t, j)
    } else {
        let m = concat_decimal("unexpected JSON byte ", lead_byte_of(c));
        Err(m)
    }
}

/// `prefix` followed by the decimal numeral of `b`.
fn concat_decimal(prefix: &str, b: u8) -> (m: String)
    ensures
        m@ == prefix@ + decimal(b as nat),
{
    let d = decimal_string(b as usize);
    crate::text::concat(prefix, d.as_str())
}

/// Array items from `i` on (just after the opening bracket).
fn array_from(t: &[char], i: usize) -> (r: Result<(Json, usize), String>)
    requires
        i <= t@.len(),
    ensures
        value_matches(r, p_array_from(t@, i as int, Seq::empty())),
    decreases t@.len() - i, 1int,
{
    let mut items: Vec<Json> = Vec::new();
    let mut pos = i;
    proof {
        lemma_items_view(items@);
        assert(items_view(items@) =~= Seq::<JsonView>::empty());
    }
    while pos <= t.len()
        invariant
            i <= pos <= t@.len(),
            p_array_from(t@, pos as int, items_view(items@)) == p_array_from(t@, i as int, Seq::empty()),
        decreases t@.len() - pos,
    {
        let j = skip_ws(t, pos);
        proof {
            lemma_ws_end(t@, pos as int);
            lemma_items_view(items@);
        }
        if j >= t.len() {
            return Err(eof());
        }
        if t[j] == ']' {
            return Ok((Json::Array(items), j + 1));
        }
        let k = if items.len() > 0 {
            if t[j] != ',' {
                return Err(expected_found(',', t[j]));
            }
            proof {
                lemma_ws_end(t@, j + 1);
            }
            skip_ws(t, j + 1)
        } else {
            j
        };
        match value(t, k) {
            Err(m) => {
                return Err(m);
            },
            Ok((v, m)) => {
                if !(pos < m && m <= t.len()) {
                    return Err(eof());
                }
                let ghost old_items = items@;
                items.push(v);
                proof {
                    assert(items@.drop_last() =~= old_items);
                }
                pos = m;
            },
        }
    }
    Err(eof())
}

/// Object entries from `i` on (just after the opening brace).
fn object_from(t: &[char], i: usize) -> (r: Result<(Json, usize), String>)
    requires
        i <= t@.len(),
    ensures
        value_matches(r, p_object_from(t@, i as int, Seq::empty())),
    decreases t@.len() - i, 1int,
{
    let mut entries: Vec<(String, Json)> = Vec::new();
    let mut pos = i;
    proof {
        lemma_entries_view(entries@);
        assert(entries_view(entries@) =~= Seq::<(Seq<char>, JsonView)>::empty());
    }
    while pos <= t.len()
        invariant
            i <= pos <= t@.len(),
            p_object_from(t@, pos as int, entries_view(entries@)) == p_object_from(t@, i as int, Seq::empty()),
        decreases t@.len() - pos,
    {
        let j = skip_ws(t, pos);
        proof {
            lemma_ws_end(t@, pos as int);
            lemma_entries_view(entries@);
        }
        if j >= t.len() {
            return Err(eof());
        }
        if t[j] == '}' {
            return Ok((Json::Object(entries), j + 1));
        }
        let k = if entries.len() > 0 {
            if t[j] != ',' {
                return Err(expected_found(',', t[j]));
            }
            proof {
                lemma_ws_end(t@, j + 1);
            }
            skip_ws(t, j + 1)
        } else {
            j
        };
        let (key, k2) = match string_at(t, k) {
            Err(m) => {
                return Err(m);
            },
            Ok(p) => p,
        };
        proof {
            lemma_ws_end(t@, k2 as int);
        }
        let k3 = skip_ws(t, k2);
        if k3 >= t.len() {
            return Err(eof());
        }
        if t[k3] != ':' {
            return Err(expected_found(':', t[k3]));
        }
        if k3 + 1 <= pos {
            return Err(eof());
        }
        match value(t, k3 + 1) {
            Err(m) => {
                return Err(m);
            },
            Ok((v, m)) => {
                if !(pos < m && m <= t.len()) {
                    return Err(eof());
                }
                set_entry(&mut entries, key, v);
                pos = m;
            },
        }
    }
    Err(eof())
}

/// Sets `key` to `v` in `entries`: in place when the key is present,
/// appended otherwise.
fn set_entry(entries: &mut Vec<(String, Json)>, key: String, v: Json)
    ensures
        entries_view(final(entries)@) == obj_insert(entries_view(old(entries)@), key@, json_view(v)),
{
    proof {
        lemma_entries_view(entries@);
    }
    let ghost ev = entries_view(entries@);
    let mut k: usize = 0;
    while k < entries.len()
        invariant
            k <= entries@.len(),
            ev == entries_view(old(entries)@),
            ev == entries_view(entries@),
            ev.len() == entries@.len(),
            forall|m: int| 0 <= m < entries@.len() ==> #[trigger] ev[m] == (entries@[m].0@, json_view(entries@[m].1)),
            key_from(ev, key@, k as int) == key_from(ev, key@, 0),
        decreases entries.len() - k,
    {
        if str_eq(entries[k].0.as_str(), key.as_str()) {
            proof {
                assert(ev[k as int].0 == key@);
                assert(key_from(ev, key@, k as int) == Some(k as int));
            }
            entries.set(k, (key, v));
            proof {
                lemma_entries_view(entries@);
                assert(entries_view(entries@) =~= ev.update(k as int, (key@, json_view(v))));
            }
            return;
        }
        k = k + 1;
    }
    entries.push((key, v));
    proof {
        lemma_entries_view(entries@);
        assert(entries_view(entries@) =~= ev.push((key@, json_view(v))));
    }
}

/// The character with code point `code` (`char::from_u32`): present exactly
/// when `code` is a Unicode scalar value.
#[verifier::external_body]
fn char_from_code(code: u32) -> (r: Option<char>)
    ensures
        r is Some <==> scalar_code(code),
        r matches Some(c) ==> c == code as char,
{
    char::from_u32(code)
}

pub proof fn lemma_pow16_small(m: nat)
    requires
        m <= 4,
    ensures
        pow16(m) <= 65536,
        pow16(m) == if m == 0 { 1 } else { pow16((m - 1) as nat) * 16 },
{
    reveal_with_fuel(pow16, 5);
}

/// Powers of sixteen.
pub open spec fn pow16(n: nat) -> nat
    decreases n,
{
    if n == 0 {
        1
    } else {
        pow16((n - 1) as nat) * 16
    }
}

/// Reading a key of an object after setting it gives the value set, and
/// setting one key leaves every other key as it was.
pub proof fn lemma_object_read_after_write(entries: Seq<(Seq<char>, JsonView)>, key: Seq<char>, v: JsonView, other: Seq<char>)
    ensures
        obj_get(obj_insert(entries, key, v), key) == Some(v),
        other != key ==> obj_get(obj_insert(entries, key, v), other) == obj_get(entries, other),
{
    lemma_key_from_found(entries, other, 0);
    match key_from(entries, key, 0) {
        Some(k) => {
            lemma_key_from_found(entries, key, 0);
            let e2 = entries.update(k, (key, v));
            lemma_key_from_same_prefix(entries, e2, key, 0, k);
            if other != key {
                lemma_key_from_skip(entries, e2, other, k);
            }
        },
        None => {
            let e2 = entries.push((key, v));
            lemma_key_from_push(entries, key, v, key, 0);
            lemma_key_from_push(entries, key, v, other, 0);
        },
    }
}

proof fn lemma_key_from_found(entries: Seq<(Seq<char>, JsonView)>, key: Seq<char>, i: int)
    requires
        0 <= i,
    ensures
        key_from(entries, key, i) matches Some(k) ==> i <= k < entries.len() && entries[k].0 == key
            && forall|m: int| i <= m < k ==> entries[m].0 != key,
    decreases entries.len() - i,
{
    if i < entries.len() && entries[i].0 != key {
        lemma_key_from_found(entries, key, i + 1);
    }
}

/// Two entry lists that agree from `i` up to `k` search alike there.
proof fn lemma_key_from_same_prefix(a: Seq<(Seq<char>, JsonView)>, b: Seq<(Seq<char>, JsonView)>, key: Seq<char>, i: int, k: int)
    requires
        0 <= i <= k < a.len(),
        a.len() == b.len(),
        forall|m: int| i <= m < k ==> a[m] == b[m],
        forall|m: int| i <= m < k ==> a[m].0 != key,
        a[k].0 == key || b[k].0 == key,
        a[k].0 == b[k].0,
    ensures
        key_from(a, key, i) == key_from(b, key, i),
    decreases k - i,
{
    if i < k {
        lemma_key_from_same_prefix(a, b, key, i + 1, k);
    }
}

proof fn lemma_key_from_skip(a: Seq<(Seq<char>, JsonView)>, b: Seq<(Seq<char>, JsonView)>, other: Seq<char>, k: int)
    requires
        0 <= k < a.len(),
        b == a.update(k, (a[k].0, b[k].1)),
        a[k].0 != other,
    ensures
        key_from(a, other, 0) == key_from(b, other, 0),
{
    lemma_key_from_agree(a, b, other, 0);
}

proof fn lemma_key_from_agree(a: Seq<(Seq<char>, JsonView)>, b: Seq<(Seq<char>, JsonView)>, other: Seq<char>, i: int)
    requires
        0 <= i,
        a.len() == b.len(),
        forall|m: int| 0 <= m < a.len() ==> a[m].0 == b[m].0,
    ensures
        key_from(a, other, i) == key_from(b, other, i),
    decreases a.len() - i,
{
    if i < a.len() {
        lemma_key_from_agree(a, b, other, i + 1);
    }
}

proof fn lemma_key_from_push(entries: Seq<(Seq<char>, JsonView)>, key: Seq<char>, v: JsonView, other: Seq<char>, i: int)
    requires
        0 <= i <= entries.len(),
        key_from(entries, key, i) is None,
    ensures
        key_from(entries.push((key, v)), other, i) == if key_from(entries, other, i) is Some {
            key_from(entries, other, i)
        } else if other == key {
            Some(entries.len() as int)
        } else {
            None
        },
    decreases entries.len() - i,
{
    let e2 = entries.push((key, v));
    if i < entries.len() {
        assert(e2[i] == entries[i]);
        lemma_key_from_push(entries, key, v, other, i + 1);
    } else {
        assert(e2[i] == (key, v));
        if other != key {
            assert(key_from(e2, other, i + 1) is None);
        }
    }
}

} // verus!
