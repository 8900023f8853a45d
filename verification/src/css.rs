//! following CSS Syntax Module Level 3 <https://www.w3.org/TR/css-syntax-3/>
//! Deliberately omitted a few things, because I don't need the whole specification.
//!
//! Offsets are indices into the `char` sequence of the stylesheet.
use std::borrow::Cow;

use vstd::prelude::*;

use crate::text::{
    alpha, at_pat, chars_of, digit, eq_ignore_case, find, find_pat, hex, is_ascii_alpha,
    is_ascii_digit, is_ascii_hex, lemma_find_pat_bounds, lemma_run_end, push_char,
    range_eq_ignore_case, run, run_end, Class,
};

verus! {

// -- Character classes ---------------------------------------------------------

pub open spec fn is_newline(c: char) -> bool {
    c == '\n' || c == '\r' || c == '\u{c}'
}

pub open spec fn is_ws(c: char) -> bool {
    is_newline(c) || c == '\t' || c == ' '
}

pub open spec fn is_ident_start(c: char) -> bool {
    is_ascii_alpha(c) || c == '_' || c >= '\u{80}'
}

pub open spec fn is_ident(c: char) -> bool {
    is_ident_start(c) || is_ascii_digit(c) || c == '-'
}

fn newline(c: char) -> (r: bool)
    ensures r == is_newline(c),
{
    c == '\n' || c == '\r' || c == '\u{c}'
}

fn ws(c: char) -> (r: bool)
    ensures r == is_ws(c),
{
    newline(c) || c == '\t' || c == ' '
}

fn ident_start(c: char) -> (r: bool)
    ensures r == is_ident_start(c),
{
    alpha(c) || c == '_' || c >= '\u{80}'
}

fn ident(c: char) -> (r: bool)
    ensures r == is_ident(c),
{
    ident_start(c) || digit(c) || c == '-'
}

/// The character at `i`, if there is one.
pub open spec fn at_spec(s: Seq<char>, i: int) -> Option<char> {
    if 0 <= i < s.len() { Some(s[i]) } else { None }
}

fn at(s: &[char], i: usize) -> (r: Option<char>)
    ensures r == at_spec(s@, i as int),
{
    if i < s.len() { Some(s[i]) } else { None }
}

/// The character `n` places after `i`, if there is one.
fn peek(s: &[char], i: usize, n: usize) -> (r: Option<char>)
    ensures r == at_spec(s@, i + n),
{
    if i < s.len() && n < s.len() - i { Some(s[i + n]) } else { None }
}

/// §4.3.8: a backslash that is not followed by a newline.
pub open spec fn valid_escape_spec(s: Seq<char>, i: int) -> bool {
    at_spec(s, i) == Some('\\') && !(at_spec(s, i + 1) matches Some(c) && is_newline(c))
}

fn valid_escape(s: &[char], i: usize) -> (r: bool)
    ensures r == valid_escape_spec(s@, i as int),
{
    at(s, i) == Some('\\') && !match peek(s, i, 1) {
        Some(c) => newline(c),
        None => false,
    }
}

/// §4.3.9: the next characters start an identifier.
pub open spec fn starts_ident_spec(s: Seq<char>, i: int) -> bool {
    match at_spec(s, i) {
        Some(c) => if c == '-' {
            match at_spec(s, i + 1) {
                Some(d) => if is_ident_start(d) || d == '-' {
                    true
                } else if d == '\\' {
                    valid_escape_spec(s, i + 1)
                } else {
                    false
                },
                None => false,
            }
        } else if c == '\\' {
            valid_escape_spec(s, i)
        } else {
            is_ident_start(c)
        },
        None => false,
    }
}

fn starts_ident(s: &[char], i: usize) -> (r: bool)
    ensures r == starts_ident_spec(s@, i as int),
{
    let len = s.len();
    match at(s, i) {
        Some(c) => if c == '-' {
            match peek(s, i, 1) {
                Some(d) => if ident_start(d) || d == '-' {
                    true
                } else if d == '\\' {
                    i < s.len() && valid_escape(s, i + 1)
                } else {
                    false
                },
                None => false,
            }
        } else if c == '\\' {
            valid_escape(s, i)
        } else {
            ident_start(c)
        },
        None => false,
    }
}

/// §4.3.10: the next characters start a number.
pub open spec fn starts_number_spec(s: Seq<char>, i: int) -> bool {
    match at_spec(s, i) {
        Some(c) => if c == '+' || c == '-' {
            match at_spec(s, i + 1) {
                Some(d) => if d == '.' {
                    at_spec(s, i + 2) matches Some(e) && is_ascii_digit(e)
                } else {
                    is_ascii_digit(d)
                },
                None => false,
            }
        } else if c == '.' {
            at_spec(s, i + 1) matches Some(d) && is_ascii_digit(d)
        } else {
            is_ascii_digit(c)
        },
        None => false,
    }
}

fn starts_number(s: &[char], i: usize) -> (r: bool)
    ensures r == starts_number_spec(s@, i as int),
{
    match at(s, i) {
        Some(c) => if c == '+' || c == '-' {
            match peek(s, i, 1) {
                Some(d) => if d == '.' {
                    match peek(s, i, 2) {
                        Some(e) => digit(e),
                        None => false,
                    }
                } else {
                    digit(d)
                },
                None => false,
            }
        } else if c == '.' {
            match peek(s, i, 1) {
                Some(d) => digit(d),
                None => false,
            }
        } else {
            digit(c)
        },
        None => false,
    }
}

// -- Code point runs -------------------------------------------------------------

/// §4.3.7: past the escape whose backslash is at `i`.
pub open spec fn escape_end_spec(s: Seq<char>, i: int) -> int {
    let after = i + 1;
    match at_spec(s, after) {
        None => after,
        Some(c) => if is_ascii_hex(c) {
            let lim = if after + 6 <= s.len() { after + 6 } else { s.len() as int };
            let hex = run_end(s, after, lim, Class::Hex);
            if at_spec(s, hex) == Some('\r') && at_spec(s, hex + 1) == Some('\n') {
                hex + 2
            } else if at_spec(s, hex) matches Some(w) && is_ws(w) {
                hex + 1
            } else {
                hex
            }
        } else {
            after + 1
        },
    }
}

fn escape_end(s: &[char], i: usize) -> (r: usize)
    requires
        i < s@.len(),
    ensures
        r == escape_end_spec(s@, i as int),
        i < r <= s@.len(),
{
    let len = s.len();
    let after = i + 1;
    match at(s, after) {
        None => after,
        Some(c) => if hex(c) {
            let lim = if s.len() >= 6 && after <= s.len() - 6 { after + 6 } else { s.len() };
            assert(lim == if after + 6 <= s@.len() { after + 6 } else { s@.len() as int });
            let h = run(s, after, lim, Class::Hex);
            proof { lemma_run_end(s@, after as int, lim as int, Class::Hex); }
            if at(s, h) == Some('\r') && peek(s, h, 1) == Some('\n') {
                h + 2
            } else if match at(s, h) {
                Some(w) => ws(w),
                None => false,
            } {
                h + 1
            } else {
                h
            }
        } else {
            after + 1
        },
    }
}

/// §4.3.12: past the identifier (letters, digits, `-`, `_`, non-ASCII and
/// escapes) that starts at `j`.
pub open spec fn ident_end_spec(s: Seq<char>, j: int) -> int
    decreases s.len() - j,
{
    match at_spec(s, j) {
        Some(c) => if is_ident(c) {
            ident_end_spec(s, j + 1)
        } else if valid_escape_spec(s, j) {
            let e = escape_end_spec(s, j);
            if j < e <= s.len() { ident_end_spec(s, e) } else { j }
        } else {
            j
        },
        None => j,
    }
}

fn ident_end(s: &[char], i: usize) -> (r: usize)
    requires
        i <= s@.len(),
    ensures
        r == ident_end_spec(s@, i as int),
        i <= r <= s@.len(),
{
    let len = s.len();
    let mut j = i;
    loop
        invariant
            i <= j <= s@.len(),
            len == s@.len(),
            ident_end_spec(s@, i as int) == ident_end_spec(s@, j as int),
        decreases s@.len() - j,
    {
        match at(s, j) {
            Some(c) => {
                if ident(c) {
                    j += 1;
                } else if valid_escape(s, j) {
                    j = escape_end(s, j);
                } else {
                    return j;
                }
            },
            None => return j,
        }
    }
}

fn digits_end(s: &[char], i: usize) -> (r: usize)
    requires
        i <= s@.len(),
    ensures
        r == run_end(s@, i as int, s@.len() as int, Class::Digit),
        i <= r <= s@.len(),
{
    run(s, i, s.len(), Class::Digit)
}

/// §4.3.13: past the number that starts at `i`.
pub open spec fn number_end_spec(s: Seq<char>, i: int) -> int {
    let len = s.len() as int;
    let signed = if at_spec(s, i) == Some('+') || at_spec(s, i) == Some('-') { i + 1 } else { i };
    let whole = run_end(s, signed, len, Class::Digit);
    let frac = if at_spec(s, whole) == Some('.') && (at_spec(s, whole + 1) matches Some(c)
        && is_ascii_digit(c)) {
        run_end(s, whole + 1, len, Class::Digit)
    } else {
        whole
    };
    let e = at_spec(s, frac) == Some('e') || at_spec(s, frac) == Some('E');
    if e && (at_spec(s, frac + 1) matches Some(c) && is_ascii_digit(c)) {
        run_end(s, frac + 1, len, Class::Digit)
    } else if e && (at_spec(s, frac + 1) == Some('+') || at_spec(s, frac + 1) == Some('-')) && (
    at_spec(s, frac + 2) matches Some(c) && is_ascii_digit(c)) {
        run_end(s, frac + 2, len, Class::Digit)
    } else {
        frac
    }
}

fn is_digit_at(s: &[char], i: usize) -> (r: bool)
    ensures r == (at_spec(s@, i as int) matches Some(c) && is_ascii_digit(c)),
{
    match at(s, i) {
        Some(c) => digit(c),
        None => false,
    }
}

fn number_end(s: &[char], i: usize) -> (r: usize)
    requires
        i < s@.len(),
    ensures
        r == number_end_spec(s@, i as int),
        i <= r <= s@.len(),
{
    let len = s.len();
    let signed = if at(s, i) == Some('+') || at(s, i) == Some('-') { i + 1 } else { i };
    let whole = digits_end(s, signed);
    let frac = if at(s, whole) == Some('.') && whole < s.len() && is_digit_at(s, whole + 1) {
        digits_end(s, whole + 1)
    } else {
        whole
    };
    let e = at(s, frac) == Some('e') || at(s, frac) == Some('E');
    if e && is_digit_at(s, frac + 1) {
        digits_end(s, frac + 1)
    } else if e && (peek(s, frac, 1) == Some('+') || peek(s, frac, 1) == Some('-'))
        && frac + 1 < s.len() && is_digit_at(s, frac + 2) {
        digits_end(s, frac + 2)
    } else {
        frac
    }
}

/// Past the comment whose `/*` is at `i`, and whether its `*/` was found.
pub open spec fn comment_end_spec(s: Seq<char>, i: int) -> (int, bool) {
    match find_pat(s, i + 2, s.len() as int, "*/"@) {
        Some(k) => (k + 2, true),
        None => (s.len() as int, false),
    }
}

fn comment_end(s: &[char], i: usize) -> (r: (usize, bool))
    requires
        i + 2 <= s@.len(),
    ensures
        r.0 == comment_end_spec(s@, i as int).0,
        r.1 == comment_end_spec(s@, i as int).1,
        i < r.0 <= s@.len(),
{
    let len = s.len();
    proof {
        reveal_strlit("*/");
        lemma_find_pat_bounds(s@, i + 2, s@.len() as int, "*/"@);
    }
    match find(s, i + 2, s.len(), "*/") {
        Some(k) => (k + 2, true),
        None => (s.len(), false),
    }
}

/// §4.3.5: past the string whose opening quote is before `j`, and whether
/// it was closed.
pub open spec fn string_end_from(s: Seq<char>, j: int, quote: char) -> (int, bool)
    decreases s.len() - j,
{
    match at_spec(s, j) {
        None => (j, false),
        Some(c) => if c == quote {
            (j + 1, true)
        } else if is_newline(c) {
            (j, false)
        } else if valid_escape_spec(s, j) {
            let e = escape_end_spec(s, j);
            if j < e <= s.len() { string_end_from(s, e, quote) } else { (j, false) }
        } else if c == '\\' {
            let e = if at_spec(s, j + 1) is Some { j + 2 } else { j + 1 };
            if j < e <= s.len() { string_end_from(s, e, quote) } else { (j, false) }
        } else {
            string_end_from(s, j + 1, quote)
        },
    }
}

fn string_end(s: &[char], open: usize, quote: char) -> (r: (usize, bool))
    requires
        open < s@.len(),
    ensures
        r.0 == string_end_from(s@, open + 1, quote).0,
        r.1 == string_end_from(s@, open + 1, quote).1,
        open < r.0 <= s@.len(),
{
    let len = s.len();
    let mut j = open + 1;
    loop
        invariant
            open < j <= s@.len(),
            len == s@.len(),
            string_end_from(s@, open + 1, quote) == string_end_from(s@, j as int, quote),
        decreases s@.len() - j,
    {
        match at(s, j) {
            None => return (j, false),
            Some(c) => {
                if c == quote {
                    return (j + 1, true);
                } else if newline(c) {
                    return (j, false);
                } else if valid_escape(s, j) {
                    j = escape_end(s, j);
                } else if c == '\\' {
                    j = if j + 1 < s.len() { j + 2 } else { j + 1 };
                } else {
                    j += 1;
                }
            },
        }
    }
}

/// §4.3.14: past the remnants of a bad url, from `j`.
pub open spec fn bad_url_end_spec(s: Seq<char>, j: int) -> int
    decreases s.len() - j,
{
    match at_spec(s, j) {
        None => j,
        Some(c) => if c == ')' {
            j + 1
        } else if valid_escape_spec(s, j) {
            let e = escape_end_spec(s, j);
            if j < e <= s.len() { bad_url_end_spec(s, e) } else { j }
        } else {
            bad_url_end_spec(s, j + 1)
        },
    }
}

fn bad_url_end(s: &[char], i: usize) -> (r: usize)
    requires
        i <= s@.len(),
    ensures
        r == bad_url_end_spec(s@, i as int),
        i <= r <= s@.len(),
{
    let len = s.len();
    let mut j = i;
    loop
        invariant
            i <= j <= s@.len(),
            len == s@.len(),
            bad_url_end_spec(s@, i as int) == bad_url_end_spec(s@, j as int),
        decreases s@.len() - j,
    {
        match at(s, j) {
            None => return j,
            Some(c) => {
                if c == ')' {
                    return j + 1;
                } else if valid_escape(s, j) {
                    j = escape_end(s, j);
                } else {
                    j += 1;
                }
            },
        }
    }
}

/// §4.3.6: past the unquoted url whose body starts at `j`, and whether it is
/// well formed.
pub open spec fn url_end_from(s: Seq<char>, j: int) -> (int, bool)
    decreases s.len() - j,
{
    match at_spec(s, j) {
        None => (j, false),
        Some(c) => if c == ')' {
            (j + 1, true)
        } else if c == '"' || c == '\'' || c == '(' {
            (bad_url_end_spec(s, j), false)
        } else if is_ws(c) {
            let w = run_end(s, j, s.len() as int, Class::CssWs);
            match at_spec(s, w) {
                Some(d) => if d == ')' { (w + 1, true) } else { (bad_url_end_spec(s, w), false) },
                None => (w, false),
            }
        } else if valid_escape_spec(s, j) {
            let e = escape_end_spec(s, j);
            if j < e <= s.len() { url_end_from(s, e) } else { (j, false) }
        } else if c == '\\' {
            (bad_url_end_spec(s, j), false)
        } else {
            url_end_from(s, j + 1)
        },
    }
}

fn url_end(s: &[char], from: usize) -> (r: (usize, bool))
    requires
        from <= s@.len(),
    ensures
        r.0 == url_end_from(s@, from as int).0,
        r.1 == url_end_from(s@, from as int).1,
        from <= r.0 <= s@.len(),
{
    let len = s.len();
    let mut j = from;
    loop
        invariant
            from <= j <= s@.len(),
            len == s@.len(),
            url_end_from(s@, from as int) == url_end_from(s@, j as int),
        decreases s@.len() - j,
    {
        match at(s, j) {
            None => return (j, false),
            Some(c) => {
                if c == ')' {
                    return (j + 1, true);
                } else if c == '"' || c == '\'' || c == '(' {
                    return (bad_url_end(s, j), false);
                } else if ws(c) {
                    let w = run(s, j, s.len(), Class::CssWs);
                    return match at(s, w) {
                        Some(d) => if d == ')' { (w + 1, true) } else { (bad_url_end(s, w), false) },
                        None => (w, false),
                    };
                } else if valid_escape(s, j) {
                    j = escape_end(s, j);
                } else if c == '\\' {
                    return (bad_url_end(s, j), false);
                } else {
                    j += 1;
                }
            },
        }
    }
}

// -- Tokens --------------------------------------------------------------------

/// What a token is, without its text.
#[derive(Clone, Copy, PartialEq, Eq, Structural, Debug)]
pub enum Kind {
    Whitespace,
    Comment,
    Ident,
    Function,
    AtKeyword,
    Hash,
    Str,
    BadStr,
    Url,
    BadUrl,
    Numeric,
    Delim(char),
    Colon,
    Semicolon,
    Comma,
    OpenParen,
    CloseParen,
    OpenSquare,
    CloseSquare,
    OpenCurly,
    CloseCurly,
}

/// §4.3.4: an ident, a function, or a url, starting at `i`.
pub open spec fn ident_like_spec(s: Seq<char>, i: int) -> (Kind, int) {
    let end = ident_end_spec(s, i);
    if at_spec(s, end) != Some('(') {
        (Kind::Ident, end)
    } else if !eq_ignore_case(s.subrange(i, end), "url"@) {
        (Kind::Function, end + 1)
    } else {
        let body = run_end(s, end + 1, s.len() as int, Class::CssWs);
        if at_spec(s, body) == Some('"') || at_spec(s, body) == Some('\'') {
            (Kind::Function, end + 1)
        } else {
            let (e, ok) = url_end_from(s, body);
            (if ok { Kind::Url } else { Kind::BadUrl }, e)
        }
    }
}

fn ident_like_at(s: &[char], i: usize) -> (r: (Kind, usize))
    requires
        i <= s@.len(),
    ensures
        r.0 == ident_like_spec(s@, i as int).0,
        r.1 == ident_like_spec(s@, i as int).1,
        i <= r.1 <= s@.len(),
{
    let len = s.len();
    let end = ident_end(s, i);
    if at(s, end) != Some('(') {
        return (Kind::Ident, end);
    }
    let open = end + 1;
    if !range_eq_ignore_case(s, i, end, "url") {
        return (Kind::Function, open);
    }
    let body = run(s, open, s.len(), Class::CssWs);
    if at(s, body) == Some('"') || at(s, body) == Some('\'') {
        (Kind::Function, open)
    } else {
        let (e, ok) = url_end(s, body);
        (if ok { Kind::Url } else { Kind::BadUrl }, e)
    }
}

/// §4.3.3: a number with its unit or percent sign, starting at `i`.
pub open spec fn numeric_end_spec(s: Seq<char>, i: int) -> int {
    let n = number_end_spec(s, i);
    if starts_ident_spec(s, n) {
        ident_end_spec(s, n)
    } else if at_spec(s, n) == Some('%') {
        n + 1
    } else {
        n
    }
}

fn numeric_end(s: &[char], i: usize) -> (r: usize)
    requires
        i < s@.len(),
    ensures
        r == numeric_end_spec(s@, i as int),
        i <= r <= s@.len(),
{
    let len = s.len();
    let n = number_end(s, i);
    if starts_ident(s, n) {
        ident_end(s, n)
    } else if at(s, n) == Some('%') {
        n + 1
    } else {
        n
    }
}

/// §4.3.1: the kind of the token that starts at `i`, and where it ends.
pub open spec fn token_at_spec(s: Seq<char>, i: int) -> Option<(Kind, int)> {
    let len = s.len() as int;
    match at_spec(s, i) {
        None => None,
        Some(c) => Some(
            if is_ws(c) {
                (Kind::Whitespace, run_end(s, i, len, Class::CssWs))
            } else if c == '/' && at_spec(s, i + 1) == Some('*') {
                (Kind::Comment, comment_end_spec(s, i).0)
            } else if c == '"' || c == '\'' {
                let (e, ok) = string_end_from(s, i + 1, c);
                (if ok { Kind::Str } else { Kind::BadStr }, e)
            } else if c == '#' {
                if (at_spec(s, i + 1) matches Some(n) && is_ident(n)) || valid_escape_spec(s, i + 1) {
                    (Kind::Hash, ident_end_spec(s, i + 1))
                } else {
                    (Kind::Delim('#'), i + 1)
                }
            } else if c == '@' && starts_ident_spec(s, i + 1) {
                (Kind::AtKeyword, ident_end_spec(s, i + 1))
            } else if c == '(' {
                (Kind::OpenParen, i + 1)
            } else if c == ')' {
                (Kind::CloseParen, i + 1)
            } else if c == '[' {
                (Kind::OpenSquare, i + 1)
            } else if c == ']' {
                (Kind::CloseSquare, i + 1)
            } else if c == '{' {
                (Kind::OpenCurly, i + 1)
            } else if c == '}' {
                (Kind::CloseCurly, i + 1)
            } else if c == ',' {
                (Kind::Comma, i + 1)
            } else if c == ':' {
                (Kind::Colon, i + 1)
            } else if c == ';' {
                (Kind::Semicolon, i + 1)
            } else if (c == '+' || c == '-' || c == '.') && starts_number_spec(s, i) {
                (Kind::Numeric, numeric_end_spec(s, i))
            } else if c == '-' && starts_ident_spec(s, i) {
                ident_like_spec(s, i)
            } else if c == '\\' && valid_escape_spec(s, i) {
                ident_like_spec(s, i)
            } else if is_ascii_digit(c) {
                (Kind::Numeric, numeric_end_spec(s, i))
            } else if is_ident_start(c) {
                ident_like_spec(s, i)
            } else {
                (Kind::Delim(c), i + 1)
            },
        ),
    }
}

/// The text a token of kind `k` stands for, when that text is fixed.
pub open spec fn fixed_text(k: Kind) -> Option<char> {
    match k {
        Kind::Delim(c) => Some(c),
        Kind::Colon => Some(':'),
        Kind::Semicolon => Some(';'),
        Kind::Comma => Some(','),
        Kind::OpenParen => Some('('),
        Kind::CloseParen => Some(')'),
        Kind::OpenSquare => Some('['),
        Kind::CloseSquare => Some(']'),
        Kind::OpenCurly => Some('{'),
        Kind::CloseCurly => Some('}'),
        _ => None,
    }
}

/// A token of kind `k` may span `s[i..e]`: it is not empty, and a token with
/// fixed text is exactly that one character.
pub open spec fn token_fits(s: Seq<char>, k: Kind, i: int, e: int) -> bool {
    &&& 0 <= i < e <= s.len()
    &&& (fixed_text(k) matches Some(c) ==> e == i + 1 && s[i] == c)
}

fn token_at(s: &[char], i: usize) -> (r: Option<(Kind, usize)>)
    ensures
        match (r, token_at_spec(s@, i as int)) {
            (None, None) => true,
            (Some((k, e)), Some((k2, e2))) => k == k2 && e == e2,
            _ => false,
        },
        r matches Some((k, e)) ==> token_fits(s@, k, i as int, e as int),
        r is None <==> i >= s@.len(),
{
    let len = s.len();
    let c = match at(s, i) {
        None => return None,
        Some(c) => c,
    };
    let (k, e) = if ws(c) {
        (Kind::Whitespace, run(s, i, len, Class::CssWs))
    } else if c == '/' && peek(s, i, 1) == Some('*') {
        (Kind::Comment, comment_end(s, i).0)
    } else if c == '"' || c == '\'' {
        let (e, ok) = string_end(s, i, c);
        (if ok { Kind::Str } else { Kind::BadStr }, e)
    } else if c == '#' {
        if match peek(s, i, 1) {
            Some(n) => ident(n),
            None => false,
        } || valid_escape(s, i + 1) {
            (Kind::Hash, ident_end(s, i + 1))
        } else {
            (Kind::Delim('#'), i + 1)
        }
    } else if c == '@' && starts_ident(s, i + 1) {
        (Kind::AtKeyword, ident_end(s, i + 1))
    } else if c == '(' {
        (Kind::OpenParen, i + 1)
    } else if c == ')' {
        (Kind::CloseParen, i + 1)
    } else if c == '[' {
        (Kind::OpenSquare, i + 1)
    } else if c == ']' {
        (Kind::CloseSquare, i + 1)
    } else if c == '{' {
        (Kind::OpenCurly, i + 1)
    } else if c == '}' {
        (Kind::CloseCurly, i + 1)
    } else if c == ',' {
        (Kind::Comma, i + 1)
    } else if c == ':' {
        (Kind::Colon, i + 1)
    } else if c == ';' {
        (Kind::Semicolon, i + 1)
    } else if (c == '+' || c == '-' || c == '.') && starts_number(s, i) {
        (Kind::Numeric, numeric_end(s, i))
    } else if c == '-' && starts_ident(s, i) {
        ident_like_at(s, i)
    } else if c == '\\' && valid_escape(s, i) {
        ident_like_at(s, i)
    } else if digit(c) {
        (Kind::Numeric, numeric_end(s, i))
    } else if ident_start(c) {
        ident_like_at(s, i)
    } else {
        (Kind::Delim(c), i + 1)
    };
    proof { lemma_token_progress(s@, i as int); }
    Some((k, e))
}

/// Every token starts at least one character on.
proof fn lemma_token_progress(s: Seq<char>, i: int)
    requires
        0 <= i < s.len(),
    ensures
        token_at_spec(s, i) matches Some((k, e)) && i < e,
{
    let c = s[i];
    let len = s.len() as int;
    if is_ws(c) {
        lemma_run_end(s, i, len, Class::CssWs);
    } else if c == '/' && at_spec(s, i + 1) == Some('*') {
        lemma_find_pat_bounds(s, i + 2, len, "*/"@);
    } else if c == '"' || c == '\'' {
        string_progress(s, i + 1, c);
    } else if c == '#' {
        ident_end_mono(s, i + 1);
    } else if c == '@' && starts_ident_spec(s, i + 1) {
        ident_end_mono(s, i + 1);
    } else if c == '(' || c == ')' || c == '[' || c == ']' || c == '{' || c == '}' || c == ','
        || c == ':' || c == ';' {
    } else if (c == '+' || c == '-' || c == '.') && starts_number_spec(s, i) {
        numeric_progress(s, i);
    } else if c == '-' && starts_ident_spec(s, i) {
        ident_like_progress(s, i);
    } else if c == '\\' && valid_escape_spec(s, i) {
        ident_like_progress(s, i);
    } else if is_ascii_digit(c) {
        numeric_progress(s, i);
    } else if is_ident_start(c) {
        ident_like_progress(s, i);
    }
}

proof fn string_progress(s: Seq<char>, j: int, quote: char)
    requires
        0 <= j <= s.len(),
    ensures
        string_end_from(s, j, quote).0 >= j,
    decreases s.len() - j,
{
    if j < s.len() {
        let c = s[j];
        if c == quote || is_newline(c) {
        } else if valid_escape_spec(s, j) {
            escape_progress(s, j);
            string_progress(s, escape_end_spec(s, j), quote);
        } else if c == '\\' {
            let e = if at_spec(s, j + 1) is Some { j + 2 } else { j + 1 };
            string_progress(s, e, quote);
        } else {
            string_progress(s, j + 1, quote);
        }
    }
}

proof fn ident_end_progress(s: Seq<char>, j: int)
    requires
        0 <= j < s.len(),
        is_ident(s[j]) || valid_escape_spec(s, j),
    ensures
        ident_end_spec(s, j) > j,
    decreases s.len() - j,
{
    ident_end_mono(s, j + 1);
    if !is_ident(s[j]) {
        escape_progress(s, j);
        ident_end_mono(s, escape_end_spec(s, j));
    }
}

proof fn ident_end_mono(s: Seq<char>, j: int)
    requires
        0 <= j <= s.len(),
    ensures
        ident_end_spec(s, j) >= j,
    decreases s.len() - j,
{
    if j < s.len() {
        if is_ident(s[j]) {
            ident_end_mono(s, j + 1);
        } else if valid_escape_spec(s, j) {
            escape_progress(s, j);
            ident_end_mono(s, escape_end_spec(s, j));
        }
    }
}

proof fn escape_progress(s: Seq<char>, j: int)
    requires
        0 <= j < s.len(),
    ensures
        j < escape_end_spec(s, j) <= s.len(),
{
    let after = j + 1;
    if after < s.len() && is_ascii_hex(s[after]) {
        let lim = if after + 6 <= s.len() { after + 6 } else { s.len() as int };
        lemma_run_end(s, after, lim, Class::Hex);
    }
}

proof fn ident_like_progress(s: Seq<char>, i: int)
    requires
        0 <= i < s.len(),
        starts_ident_spec(s, i),
    ensures
        ident_like_spec(s, i).1 > i,
{
    let c = s[i];
    if c == '-' {
        ident_end_progress(s, i);
    } else if c == '\\' {
        ident_end_progress(s, i);
    } else {
        ident_end_progress(s, i);
    }
    let end = ident_end_spec(s, i);
    if at_spec(s, end) == Some('(') && eq_ignore_case(s.subrange(i, end), "url"@) {
        let body = run_end(s, end + 1, s.len() as int, Class::CssWs);
        lemma_run_end(s, end + 1, s.len() as int, Class::CssWs);
        url_progress(s, body);
    }
}

proof fn url_progress(s: Seq<char>, j: int)
    requires
        0 <= j <= s.len(),
    ensures
        url_end_from(s, j).0 >= j,
    decreases s.len() - j,
{
    if j < s.len() {
        let c = s[j];
        if c == ')' {
        } else if c == '"' || c == '\'' || c == '(' {
            bad_url_progress(s, j);
        } else if is_ws(c) {
            let w = run_end(s, j, s.len() as int, Class::CssWs);
            lemma_run_end(s, j, s.len() as int, Class::CssWs);
            bad_url_progress(s, w);
        } else if valid_escape_spec(s, j) {
            escape_progress(s, j);
            url_progress(s, escape_end_spec(s, j));
        } else if c == '\\' {
            bad_url_progress(s, j);
        } else {
            url_progress(s, j + 1);
        }
    }
}

proof fn bad_url_progress(s: Seq<char>, j: int)
    requires
        0 <= j <= s.len(),
    ensures
        bad_url_end_spec(s, j) >= j,
    decreases s.len() - j,
{
    if j < s.len() {
        if s[j] == ')' {
        } else if valid_escape_spec(s, j) {
            escape_progress(s, j);
            bad_url_progress(s, escape_end_spec(s, j));
        } else {
            bad_url_progress(s, j + 1);
        }
    }
}

proof fn numeric_progress(s: Seq<char>, i: int)
    requires
        0 <= i < s.len(),
        starts_number_spec(s, i),
    ensures
        numeric_end_spec(s, i) > i,
{
    let len = s.len() as int;
    let signed = if at_spec(s, i) == Some('+') || at_spec(s, i) == Some('-') { i + 1 } else { i };
    lemma_run_end(s, signed, len, Class::Digit);
    let whole = run_end(s, signed, len, Class::Digit);
    if at_spec(s, whole) == Some('.') && (at_spec(s, whole + 1) matches Some(c) && is_ascii_digit(c)) {
        lemma_run_end(s, whole + 1, len, Class::Digit);
    }
    let frac = if at_spec(s, whole) == Some('.') && (at_spec(s, whole + 1) matches Some(c)
        && is_ascii_digit(c)) {
        run_end(s, whole + 1, len, Class::Digit)
    } else {
        whole
    };
    if frac + 1 <= len {
        lemma_run_end(s, frac + 1, len, Class::Digit);
    }
    if frac + 2 <= len {
        lemma_run_end(s, frac + 2, len, Class::Digit);
    }
    let n = number_end_spec(s, i);
    if starts_ident_spec(s, n) {
        ident_end_mono(s, n);
    }
}


/// Every token from `i` on, as its kind and span.
pub open spec fn tokens_from(s: Seq<char>, i: int) -> Seq<(Kind, int, int)>
    decreases s.len() - i,
{
    match token_at_spec(s, i) {
        None => seq![],
        Some((k, e)) => if i < e <= s.len() {
            seq![(k, i, e)] + tokens_from(s, e)
        } else {
            seq![]
        },
    }
}

#[derive(Debug, Clone, Copy, PartialEq, Eq)]
pub enum Token<'a> {
    Whitespace(&'a str),
    Comment(&'a str),
    Ident(&'a str),
    Function(&'a str),
    AtKeyword(&'a str),
    Hash(&'a str),
    Str(&'a str),
    BadStr(&'a str),
    Url(&'a str),
    BadUrl(&'a str),
    Numeric(&'a str),
    Delim(char),
    Colon,
    Semicolon,
    Comma,
    OpenParen,
    CloseParen,
    OpenSquare,
    CloseSquare,
    OpenCurly,
    CloseCurly,
}

pub open spec fn kind_of(t: Token) -> Kind {
    match t {
        Token::Whitespace(_) => Kind::Whitespace,
        Token::Comment(_) => Kind::Comment,
        Token::Ident(_) => Kind::Ident,
        Token::Function(_) => Kind::Function,
        Token::AtKeyword(_) => Kind::AtKeyword,
        Token::Hash(_) => Kind::Hash,
        Token::Str(_) => Kind::Str,
        Token::BadStr(_) => Kind::BadStr,
        Token::Url(_) => Kind::Url,
        Token::BadUrl(_) => Kind::BadUrl,
        Token::Numeric(_) => Kind::Numeric,
        Token::Delim(c) => Kind::Delim(c),
        Token::Colon => Kind::Colon,
        Token::Semicolon => Kind::Semicolon,
        Token::Comma => Kind::Comma,
        Token::OpenParen => Kind::OpenParen,
        Token::CloseParen => Kind::CloseParen,
        Token::OpenSquare => Kind::OpenSquare,
        Token::CloseSquare => Kind::CloseSquare,
        Token::OpenCurly => Kind::OpenCurly,
        Token::CloseCurly => Kind::CloseCurly,
    }
}

/// The source text a token stands for.
pub open spec fn token_text(t: Token) -> Seq<char> {
    match t {
        Token::Whitespace(s) => s@,
        Token::Comment(s) => s@,
        Token::Ident(s) => s@,
        Token::Function(s) => s@,
        Token::AtKeyword(s) => s@,
        Token::Hash(s) => s@,
        Token::Str(s) => s@,
        Token::BadStr(s) => s@,
        Token::Url(s) => s@,
        Token::BadUrl(s) => s@,
        Token::Numeric(s) => s@,
        Token::Delim(c) => seq![c],
        Token::Colon => seq![':'],
        Token::Semicolon => seq![';'],
        Token::Comma => seq![','],
        Token::OpenParen => seq!['('],
        Token::CloseParen => seq![')'],
        Token::OpenSquare => seq!['['],
        Token::CloseSquare => seq![']'],
        Token::OpenCurly => seq!['{'],
        Token::CloseCurly => seq!['}'],
    }
}

pub open spec fn texts(ts: Seq<Token>) -> Seq<Seq<char>> {
    ts.map_values(|t: Token| token_text(t))
}

fn one_char(c: char) -> (r: String)
    ensures r@ == seq![c],
{
    let mut out = String::new();
    push_char(&mut out, c);
    out
}

impl<'a> Token<'a> {
    /// The source text this token stands for.
    pub fn raw(&self) -> (r: Cow<'a, str>)
        ensures r@ == token_text(*self),
    {
        match *self {
            Token::Whitespace(s) => Cow::Borrowed(s),
            Token::Comment(s) => Cow::Borrowed(s),
            Token::Ident(s) => Cow::Borrowed(s),
            Token::Function(s) => Cow::Borrowed(s),
            Token::AtKeyword(s) => Cow::Borrowed(s),
            Token::Hash(s) => Cow::Borrowed(s),
            Token::Str(s) => Cow::Borrowed(s),
            Token::BadStr(s) => Cow::Borrowed(s),
            Token::Url(s) => Cow::Borrowed(s),
            Token::BadUrl(s) => Cow::Borrowed(s),
            Token::Numeric(s) => Cow::Borrowed(s),
            Token::Delim(c) => Cow::Owned(one_char(c)),
            Token::Colon => Cow::Owned(one_char(':')),
            Token::Semicolon => Cow::Owned(one_char(';')),
            Token::Comma => Cow::Owned(one_char(',')),
            Token::OpenParen => Cow::Owned(one_char('(')),
            Token::CloseParen => Cow::Owned(one_char(')')),
            Token::OpenSquare => Cow::Owned(one_char('[')),
            Token::CloseSquare => Cow::Owned(one_char(']')),
            Token::OpenCurly => Cow::Owned(one_char('{')),
            Token::CloseCurly => Cow::Owned(one_char('}')),
        }
    }

    /// Whitespace and comments: the tokens that separate but say nothing.
    pub fn is_trivia(&self) -> (r: bool)
        ensures r == is_trivia_spec(*self),
    {
        match self {
            Token::Whitespace(_) | Token::Comment(_) => true,
            _ => false,
        }
    }
}

pub open spec fn is_trivia_spec(t: Token) -> bool {
    t is Whitespace || t is Comment
}

/// The token of kind `k` whose text is `text`.
fn make<'a>(k: Kind, text: &'a str) -> (t: Token<'a>)
    ensures
        kind_of(t) == k,
        fixed_text(k) is None ==> token_text(t) == text@,
        fixed_text(k) matches Some(c) ==> token_text(t) == seq![c],
{
    match k {
        Kind::Whitespace => Token::Whitespace(text),
        Kind::Comment => Token::Comment(text),
        Kind::Ident => Token::Ident(text),
        Kind::Function => Token::Function(text),
        Kind::AtKeyword => Token::AtKeyword(text),
        Kind::Hash => Token::Hash(text),
        Kind::Str => Token::Str(text),
        Kind::BadStr => Token::BadStr(text),
        Kind::Url => Token::Url(text),
        Kind::BadUrl => Token::BadUrl(text),
        Kind::Numeric => Token::Numeric(text),
        Kind::Delim(c) => Token::Delim(c),
        Kind::Colon => Token::Colon,
        Kind::Semicolon => Token::Semicolon,
        Kind::Comma => Token::Comma,
        Kind::OpenParen => Token::OpenParen,
        Kind::CloseParen => Token::CloseParen,
        Kind::OpenSquare => Token::OpenSquare,
        Kind::CloseSquare => Token::CloseSquare,
        Kind::OpenCurly => Token::OpenCurly,
        Kind::CloseCurly => Token::CloseCurly,
    }
}

/// `toks` are the tokens of `s` with their offsets, in order.
pub open spec fn scanned(s: Seq<char>, toks: Seq<(Token, usize)>) -> bool {
    let spans = tokens_from(s, 0);
    &&& toks.len() == spans.len()
    &&& forall|k: int| #![trigger toks[k]] 0 <= k < toks.len() ==> {
        &&& kind_of(toks[k].0) == spans[k].0
        &&& toks[k].1 == spans[k].1
        &&& token_text(toks[k].0) == s.subrange(spans[k].1, spans[k].2)
    }
}

/// `toks` are the tokens of `s`, each with the byte offset it starts at.
pub open spec fn scanned_bytes(s: Seq<char>, toks: Seq<(Token, usize)>) -> bool {
    let spans = tokens_from(s, 0);
    &&& toks.len() == spans.len()
    &&& forall|k: int| #![trigger toks[k]] 0 <= k < toks.len() ==> {
        &&& kind_of(toks[k].0) == spans[k].0
        &&& toks[k].1 == crate::bytes::bytes_upto(s, spans[k].1)
        &&& token_text(toks[k].0) == s.subrange(spans[k].1, spans[k].2)
    }
}

/// §4.3.1: every token of `src` with the byte offset it starts at. The tokens
/// tile the source: their texts, concatenated, give `src` back.
pub fn scan(src: &str) -> (r: Vec<(Token<'_>, usize)>)
    ensures
        scanned_bytes(src@, r@),
        r@.map_values(|p: (Token, usize)| token_text(p.0)).flatten() == src@,
{
    let cs = chars_of(src);
    let offs = crate::bytes::byte_offsets(src, &cs);
    let toks = scan_chars(src);
    let ghost spans = tokens_from(src@, 0);
    proof { lemma_spans_fit(src@, 0); }
    let mut out: Vec<(Token, usize)> = Vec::new();
    let mut k: usize = 0;
    while k < toks.len()
        invariant
            cs@ == src@,
            offs@.len() == cs@.len() + 1,
            forall|j: int| 0 <= j <= cs@.len() ==> offs@[j] == crate::bytes::bytes_upto(cs@, j),
            scanned(src@, toks@),
            spans == tokens_from(src@, 0),
            forall|j: int| 0 <= j < spans.len() ==> 0 <= (#[trigger] spans[j]).1 <= spans[j].2 <= src@.len(),
            k <= toks@.len(),
            out@.len() == k,
            forall|j: int| 0 <= j < k ==> (#[trigger] out@[j]).0 == toks@[j].0 && out@[j].1
                == crate::bytes::bytes_upto(src@, spans[j].1),
        decreases toks@.len() - k,
    {
        let (t, i) = toks[k];
        assert(toks@[k as int].1 == spans[k as int].1);
        out.push((t, offs[i]));
        k += 1;
    }
    assert(out@.map_values(|p: (Token, usize)| token_text(p.0)) =~= toks@.map_values(|p: (Token, usize)| token_text(p.0)));
    out
}

fn scan_chars(src: &str) -> (r: Vec<(Token<'_>, usize)>)
    ensures
        scanned(src@, r@),
        r@.map_values(|p: (Token, usize)| token_text(p.0)).flatten() == src@,
{
    let s = chars_of(src);
    let len = s.len();
    let mut out: Vec<(Token, usize)> = Vec::new();
    let mut i: usize = 0;
    let ghost spans = tokens_from(s@, 0);
    while i < len
        invariant
            i <= len == s@.len(),
            s@ == src@,
            spans == tokens_from(s@, 0),
            out@.len() + tokens_from(s@, i as int).len() == spans.len(),
            forall|k: int| #![trigger out@[k]] 0 <= k < out@.len() ==> {
                &&& kind_of(out@[k].0) == spans[k].0
                &&& out@[k].1 == spans[k].1
                &&& token_text(out@[k].0) == s@.subrange(spans[k].1, spans[k].2)
            },
            forall|k: int| 0 <= k < tokens_from(s@, i as int).len() ==> spans[out@.len() + k]
                == #[trigger] tokens_from(s@, i as int)[k],
            out@.map_values(|p: (Token, usize)| token_text(p.0)).flatten() == s@.subrange(0, i as int),
        decreases len - i,
    {
        let (k, e) = match token_at(&s, i) {
            Some(x) => x,
            None => {
                assert(false);
                return out;
            },
        };
        let text = src.substring_char(i, e);
        let t = make(k, text);
        let ghost rest = tokens_from(s@, e as int);
        assert(tokens_from(s@, i as int) == seq![(k, i as int, e as int)] + rest);
        let ghost before = out@;
        assert(tokens_from(s@, i as int)[0] == (k, i as int, e as int));
        assert(spans[before.len() as int] == (k, i as int, e as int));
        out.push((t, i));
        assert(token_text(t) == s@.subrange(i as int, e as int));
        assert(out@.map_values(|p: (Token, usize)| token_text(p.0)) =~= before.map_values(
            |p: (Token, usize)| token_text(p.0),
        ).push(token_text(t)));
        proof {
            before.map_values(|p: (Token, usize)| token_text(p.0)).lemma_flatten_push(token_text(t));
        }
        assert(s@.subrange(0, i as int) + s@.subrange(i as int, e as int) =~= s@.subrange(0, e as int));
        assert forall|j: int| 0 <= j < rest.len() implies spans[out@.len() + j] == #[trigger] rest[j] by {
            assert(tokens_from(s@, i as int)[j + 1] == rest[j]);
        }
        i = e;
    }
    assert(s@.subrange(0, len as int) =~= s@);
    assert(tokens_from(s@, len as int) =~= seq![]);
    out
}


/// `toks` are the tokens of `s`, in order.
pub open spec fn tokenized(s: Seq<char>, toks: Seq<Token>) -> bool {
    let spans = tokens_from(s, 0);
    &&& toks.len() == spans.len()
    &&& forall|k: int| #![trigger toks[k]] 0 <= k < toks.len() ==> {
        &&& kind_of(toks[k]) == spans[k].0
        &&& token_text(toks[k]) == s.subrange(spans[k].1, spans[k].2)
    }
}

/// The tokens of `src`, in order; their texts, concatenated, give `src` back.
pub fn tokenize(src: &str) -> (r: Vec<Token<'_>>)
    ensures
        tokenized(src@, r@),
        texts(r@).flatten() == src@,
{
    let pairs = scan_chars(src);
    let mut out: Vec<Token> = Vec::new();
    let mut k: usize = 0;
    while k < pairs.len()
        invariant
            scanned(src@, pairs@),
            pairs@.map_values(|p: (Token, usize)| token_text(p.0)).flatten() == src@,
            k <= pairs@.len(),
            out@ =~= pairs@.subrange(0, k as int).map_values(|p: (Token, usize)| p.0),
        decreases pairs@.len() - k,
    {
        out.push(pairs[k].0);
        assert(pairs@.subrange(0, k + 1).map_values(|p: (Token, usize)| p.0) =~= pairs@.subrange(
            0,
            k as int,
        ).map_values(|p: (Token, usize)| p.0).push(pairs@[k as int].0));
        k += 1;
    }
    assert(pairs@.subrange(0, pairs@.len() as int) =~= pairs@);
    assert(texts(out@) =~= pairs@.map_values(|p: (Token, usize)| token_text(p.0)));
    out
}

/// The tokens' texts, concatenated.
pub fn serialize(tokens: &[Token]) -> (r: String)
    ensures
        r@ == texts(tokens@).flatten(),
{
    let mut out = String::new();
    let mut k: usize = 0;
    while k < tokens.len()
        invariant
            k <= tokens@.len(),
            out@ == texts(tokens@.subrange(0, k as int)).flatten(),
        decreases tokens@.len() - k,
    {
        let raw = tokens[k].raw();
        let ghost before = tokens@.subrange(0, k as int);
        match &raw {
            Cow::Borrowed(b) => crate::text::push_str(&mut out, b),
            Cow::Owned(o) => crate::text::push_str(&mut out, o.as_str()),
        }
        assert(texts(tokens@.subrange(0, k + 1)) =~= texts(before).push(token_text(tokens@[k as int])));
        proof { texts(before).lemma_flatten_push(token_text(tokens@[k as int])); }
        k += 1;
    }
    assert(tokens@.subrange(0, tokens@.len() as int) =~= tokens@);
    out
}

// -- Escapes -------------------------------------------------------------------

pub open spec fn hex_digit_value(c: char) -> nat {
    if is_ascii_digit(c) {
        (c as u32 - '0' as u32) as nat
    } else if 'a' <= c && c <= 'f' {
        (c as u32 - 'a' as u32 + 10) as nat
    } else {
        (c as u32 - 'A' as u32 + 10) as nat
    }
}

/// The number a run of hexadecimal digits spells.
pub open spec fn hex_value(h: Seq<char>) -> nat
    decreases h.len(),
{
    if h.len() == 0 {
        0
    } else {
        hex_value(h.drop_last()) * 16 + hex_digit_value(h.last())
    }
}

/// The character with code point `n`, if it is one and not NUL.
pub open spec fn scalar_of(n: nat) -> Option<char> {
    if n != 0 && n <= 0x10FFFF && !(0xD800 <= n && n <= 0xDFFF) {
        Some((n as u32) as char)
    } else {
        None
    }
}

/// What the escape `s[i..e]` stands for (§4.3.7).
pub open spec fn escaped_char(s: Seq<char>, i: int, e: int) -> char {
    let h = run_end(s, i + 1, e, Class::Hex);
    if h > i + 1 {
        match scalar_of(hex_value(s.subrange(i + 1, h))) {
            Some(c) => c,
            None => '\u{FFFD}',
        }
    } else if e > i + 1 {
        s[i + 1]
    } else {
        '\u{FFFD}'
    }
}

/// `s[i..]` with every escape replaced by the character it stands for.
pub open spec fn unescape_from(s: Seq<char>, i: int) -> Seq<char>
    decreases s.len() - i,
{
    match at_spec(s, i) {
        None => seq![],
        Some(c) => if valid_escape_spec(s, i) {
            let e = escape_end_spec(s, i);
            if i < e <= s.len() { seq![escaped_char(s, i, e)] + unescape_from(s, e) } else { seq![] }
        } else if 0 <= i {
            seq![c] + unescape_from(s, i + 1)
        } else {
            seq![]
        },
    }
}

/// `char::from_u32`: the character with this code point, unless it is a
/// surrogate or beyond `U+10FFFF`.
#[verifier::external_body]
pub(crate) fn char_from_u32(n: u32) -> (r: Option<char>)
    ensures
        r is Some <==> (n <= 0x10FFFF && !(0xD800 <= n && n <= 0xDFFF)),
        r matches Some(c) ==> c as u32 == n,
{
    char::from_u32(n)
}

pub(crate) fn hex_digit(c: char) -> (r: u32)
    requires
        is_ascii_hex(c),
    ensures
        r == hex_digit_value(c),
        r < 16,
{
    if digit(c) {
        (c as u32) - ('0' as u32)
    } else if 'a' <= c && c <= 'f' {
        (c as u32) - ('a' as u32) + 10
    } else {
        (c as u32) - ('A' as u32) + 10
    }
}

pub(crate) proof fn lemma_hex_value_bound(h: Seq<char>)
    requires
        forall|k: int| 0 <= k < h.len() ==> is_ascii_hex(#[trigger] h[k]),
    ensures
        hex_value(h) < pow16(h.len()),
    decreases h.len(),
{
    if h.len() > 0 {
        lemma_hex_value_bound(h.drop_last());
        assert(hex_digit_value(h.last()) < 16);
    }
}

pub open spec fn pow16(n: nat) -> nat
    decreases n,
{
    if n == 0 { 1 } else { 16 * pow16((n - 1) as nat) }
}

fn escaped_at(s: &[char], i: usize, e: usize) -> (r: char)
    requires
        i < e <= s@.len(),
        e <= i + 9,
        run_end(s@, i + 1, e as int, Class::Hex) <= i + 7,
    ensures
        r == escaped_char(s@, i as int, e as int),
{
    let h = run(s, i + 1, e, Class::Hex);
    proof { lemma_run_end(s@, i + 1, e as int, Class::Hex); }
    if h > i + 1 {
        let mut v: u32 = 0;
        let mut k = i + 1;
        while k < h
            invariant
                i + 1 <= k <= h <= i + 7,
                h <= s@.len(),
                forall|j: int| i + 1 <= j < h ==> is_ascii_hex(#[trigger] s@[j]),
                v == hex_value(s@.subrange(i + 1, k as int)),
                v < pow16((k - (i + 1)) as nat),
            decreases h - k,
        {
            let d = hex_digit(s[k]);
            assert(s@.subrange(i + 1, k + 1).drop_last() =~= s@.subrange(i + 1, k as int));
            assert(pow16((k + 1 - (i + 1)) as nat) == 16 * pow16((k - (i + 1)) as nat));
            proof { lemma_pow16_6(); }
            assert(pow16((k - (i + 1)) as nat) <= pow16(6)) by {
                lemma_pow16_mono((k - (i + 1)) as nat, 6);
            }
            v = v * 16 + d;
            k += 1;
        }
        assert(s@.subrange(i + 1, k as int) == s@.subrange(i + 1, h as int));
        if v != 0 && v <= 0x10FFFF && !(0xD800 <= v && v <= 0xDFFF) {
            match char_from_u32(v) {
                Some(c) => {
                    proof { vstd::utf8::char_u32_cast(c, v); }
                    c
                },
                None => '\u{FFFD}',
            }
        } else {
            '\u{FFFD}'
        }
    } else if e > i + 1 {
        s[i + 1]
    } else {
        '\u{FFFD}'
    }
}

proof fn lemma_pow16_6()
    ensures
        pow16(6) == 16777216,
{
    reveal_with_fuel(pow16, 7);
}

proof fn lemma_pow16_mono(a: nat, b: nat)
    requires
        a <= b,
    ensures
        pow16(a) <= pow16(b),
    decreases b,
{
    if a < b {
        lemma_pow16_mono(a, (b - 1) as nat);
    }
}

proof fn lemma_escape_hex_bound(s: Seq<char>, i: int)
    requires
        0 <= i < s.len(),
        valid_escape_spec(s, i),
    ensures
        escape_end_spec(s, i) <= i + 9,
        run_end(s, i + 1, escape_end_spec(s, i), Class::Hex) <= i + 7,
{
    let after = i + 1;
    let e = escape_end_spec(s, i);
    escape_progress(s, i);
    if after < s.len() && is_ascii_hex(s[after]) {
        let lim = if after + 6 <= s.len() { after + 6 } else { s.len() as int };
        lemma_run_end(s, after, lim, Class::Hex);
        lemma_run_same(s, after, lim, e);
    } else {
        lemma_run_end(s, after, e, Class::Hex);
    }
}

/// A run that stopped for a reason that still holds under another limit stops
/// at the same place.
proof fn lemma_run_same(s: Seq<char>, i: int, a: int, b: int)
    requires
        0 <= i <= a <= s.len(),
        run_end(s, i, a, Class::Hex) <= b <= s.len(),
        run_end(s, i, a, Class::Hex) < a || run_end(s, i, a, Class::Hex) == b || !is_ascii_hex(
            s[run_end(s, i, a, Class::Hex)],
        ),
    ensures
        run_end(s, i, b, Class::Hex) == run_end(s, i, a, Class::Hex),
    decreases a - i,
{
    lemma_run_end(s, i, a, Class::Hex);
    if i < a && is_ascii_hex(s[i]) {
        lemma_run_same(s, i + 1, a, b);
    }
}

proof fn lemma_unescape_plain(s: Seq<char>, i: int)
    requires
        0 <= i <= s.len(),
        forall|k: int| i <= k < s.len() ==> s[k] != '\\',
    ensures
        unescape_from(s, i) == s.subrange(i, s.len() as int),
    decreases s.len() - i,
{
    if i < s.len() {
        lemma_unescape_plain(s, i + 1);
        assert(seq![s[i]] + s.subrange(i + 1, s.len() as int) =~= s.subrange(i, s.len() as int));
    } else {
        assert(s.subrange(i, s.len() as int) =~= seq![]);
    }
}

/// `raw` with every escape replaced by the character it stands for. Text
/// without a backslash is handed back as it is, without allocating.
pub fn unescape(raw: &str) -> (r: Cow<'_, str>)
    ensures
        r@ == unescape_from(raw@, 0),
        !raw@.contains('\\') ==> (r matches Cow::Borrowed(b) && b == raw),
{
    let s = chars_of(raw);
    let len = s.len();
    if crate::text::find_char(&s, 0, len, '\\').is_none() {
        proof {
            crate::text::lemma_find_char_bounds(s@, 0, len as int, '\\');
            lemma_unescape_plain(s@, 0);
            assert(s@.subrange(0, len as int) =~= s@);
        }
        return Cow::Borrowed(raw);
    }
    proof {
        crate::text::lemma_find_char_bounds(s@, 0, len as int, '\\');
    }
    let mut out = String::new();
    let mut i: usize = 0;
    while i < len
        invariant
            i <= len == s@.len(),
            s@ == raw@,
            raw@.contains('\\'),
            out@ + unescape_from(s@, i as int) == unescape_from(s@, 0),
        decreases len - i,
    {
        let c = s[i];
        let ghost before = out@;
        if valid_escape(&s, i) {
            let e = escape_end(&s, i);
            proof { lemma_escape_hex_bound(s@, i as int); }
            let ch = escaped_at(&s, i, e);
            push_char(&mut out, ch);
            assert(out@ + unescape_from(s@, e as int) =~= before + unescape_from(s@, i as int));
            i = e;
        } else {
            push_char(&mut out, c);
            assert(out@ + unescape_from(s@, i + 1) =~= before + unescape_from(s@, i as int));
            i += 1;
        }
    }
    assert(unescape_from(s@, len as int) =~= seq![]);
    assert(out@ =~= out@ + unescape_from(s@, len as int));
    Cow::Owned(out)
}


// -- Rules ---------------------------------------------------------------------

/// A qualified rule or an at-rule: the tokens before its block, and the tokens
/// inside the block if it has one.
pub struct Rule<'a, 't> {
    pub prelude: &'t [Token<'a>],
    pub block: Option<&'t [Token<'a>]>,
}

impl<'a, 't> Rule<'a, 't> {
    pub fn is_at_rule(&self) -> (r: bool)
        ensures r == (self.prelude@.len() > 0 && self.prelude@[0] is AtKeyword),
    {
        self.prelude.len() > 0 && match self.prelude[0] {
            Token::AtKeyword(_) => true,
            _ => false,
        }
    }
}

/// How a token moves the nesting depth of blocks and parentheses.
pub open spec fn delta(t: Token) -> int {
    match t {
        Token::OpenCurly | Token::OpenParen | Token::OpenSquare | Token::Function(_) => 1,
        Token::CloseCurly | Token::CloseParen | Token::CloseSquare => -1,
        _ => 0,
    }
}

fn depth_delta(t: &Token) -> (r: isize)
    ensures r == delta(*t),
{
    match t {
        Token::OpenCurly | Token::OpenParen | Token::OpenSquare | Token::Function(_) => 1,
        Token::CloseCurly | Token::CloseParen | Token::CloseSquare => -1,
        _ => 0,
    }
}

/// The first position from `k` on where the depth, starting at `depth` and
/// moved by each token, comes back to zero; or the end.
pub open spec fn close_from(ts: Seq<Token>, k: int, depth: int) -> int
    decreases ts.len() - k,
{
    if !(0 <= k < ts.len()) {
        ts.len() as int
    } else if depth + delta(ts[k]) == 0 {
        k
    } else {
        close_from(ts, k + 1, depth + delta(ts[k]))
    }
}

/// The token that closes the block opened at `open`, or the end.
fn block_close(tokens: &[Token], open: usize) -> (r: usize)
    requires
        open < tokens@.len(),
    ensures
        r == close_from(tokens@, open as int, 0),
        open <= r <= tokens@.len(),
        tokens@[open as int] is OpenCurly ==> open < r,
{
    let mut depth: i128 = 0;
    let mut k = open;
    while k < tokens.len()
        invariant
            open <= k <= tokens@.len(),
            -(k as int) <= depth <= k as int,
            k == open ==> depth == 0,
            close_from(tokens@, open as int, 0) == close_from(tokens@, k as int, depth as int),
        decreases tokens@.len() - k,
    {
        depth = depth + depth_delta(&tokens[k]) as i128;
        if depth == 0 {
            return k;
        }
        k += 1;
    }
    tokens.len()
}

/// Scanning a rule's prelude from `j`: the block's opening `{` if one comes at
/// depth zero, and where the scan stopped.
pub open spec fn stop_scan(ts: Seq<Token>, j: int, depth: int, at_rule: bool) -> (Option<int>, int)
    decreases ts.len() - j,
{
    if !(0 <= j < ts.len()) {
        (None, j)
    } else if ts[j] is OpenCurly && depth == 0 {
        (Some(j), j)
    } else if ts[j] is Semicolon && depth == 0 && at_rule {
        (None, j)
    } else {
        let d = depth + delta(ts[j]);
        stop_scan(ts, j + 1, if d < 0 { 0 } else { d }, at_rule)
    }
}

/// A rule as spans: the prelude, and the block's contents if it has one.
pub type RuleSpec = (int, int, Option<(int, int)>);

/// The rules from position `i` on (§5.4.1, §5.4.2, §5.4.3).
pub open spec fn rules_from(ts: Seq<Token>, i: int) -> Seq<RuleSpec>
    decreases ts.len() - i,
{
    let len = ts.len() as int;
    if !(0 <= i < len) {
        seq![]
    } else if is_trivia_spec(ts[i]) {
        rules_from(ts, i + 1)
    } else {
        let at_rule = ts[i] is AtKeyword;
        let (stop, j) = stop_scan(ts, i, 0, at_rule);
        match stop {
            Some(open) => {
                let close = close_from(ts, open, 0);
                let next = if close < len { close + 1 } else { len };
                if i < next {
                    seq![(i, open, Some((open + 1, if close < len { close } else { len })))]
                        + rules_from(ts, next)
                } else {
                    seq![]
                }
            },
            None => {
                let next = if j < len { j + 1 } else { len };
                if i < next {
                    seq![(i, if j < len { j } else { len }, None)] + rules_from(ts, next)
                } else {
                    seq![]
                }
            },
        }
    }
}

proof fn lemma_stop_scan(ts: Seq<Token>, j: int, depth: int, at_rule: bool)
    requires
        0 <= j <= ts.len(),
    ensures
        j <= stop_scan(ts, j, depth, at_rule).1 <= ts.len(),
        stop_scan(ts, j, depth, at_rule).0 matches Some(o) ==> o == stop_scan(ts, j, depth, at_rule).1
            && o < ts.len() && ts[o] is OpenCurly,
    decreases ts.len() - j,
{
    if j < ts.len() && !(ts[j] is OpenCurly && depth == 0) && !(ts[j] is Semicolon && depth == 0
        && at_rule) {
        let d = depth + delta(ts[j]);
        lemma_stop_scan(ts, j + 1, if d < 0 { 0 } else { d }, at_rule);
    }
}

proof fn lemma_close_from(ts: Seq<Token>, k: int, depth: int)
    requires
        0 <= k <= ts.len(),
    ensures
        k <= close_from(ts, k, depth) <= ts.len(),
    decreases ts.len() - k,
{
    if k < ts.len() && depth + delta(ts[k]) != 0 {
        lemma_close_from(ts, k + 1, depth + delta(ts[k]));
    }
}

fn stop_scan_at(ts: &[Token], i: usize, at_rule: bool) -> (r: (Option<usize>, usize))
    requires
        i <= ts@.len(),
    ensures
        r.1 == stop_scan(ts@, i as int, 0, at_rule).1,
        match (r.0, stop_scan(ts@, i as int, 0, at_rule).0) {
            (None, None) => true,
            (Some(a), Some(b)) => a == b,
            _ => false,
        },
{
    proof { lemma_stop_scan(ts@, i as int, 0, at_rule); }
    let mut depth: i128 = 0;
    let mut j = i;
    while j < ts.len()
        invariant
            i <= j <= ts@.len(),
            0 <= depth <= j as int,
            stop_scan(ts@, i as int, 0, at_rule) == stop_scan(ts@, j as int, depth as int, at_rule),
        decreases ts@.len() - j,
    {
        let curly = match ts[j] {
            Token::OpenCurly => true,
            _ => false,
        };
        let semi = match ts[j] {
            Token::Semicolon => true,
            _ => false,
        };
        if curly && depth == 0 {
            return (Some(j), j);
        }
        if semi && depth == 0 && at_rule {
            return (None, j);
        }
        let d = depth + depth_delta(&ts[j]) as i128;
        depth = if d < 0 { 0 } else { d };
        j += 1;
    }
    (None, j)
}

/// The rules in `tokens`, skipping trivia between them. A rule's block holds
/// everything up to the `}` that closes it, nested rules included.
pub fn rules<'a, 't>(tokens: &'t [Token<'a>]) -> (r: Vec<Rule<'a, 't>>)
    ensures
        r@.len() == rules_from(tokens@, 0).len(),
        forall|k: int| #![trigger r@[k]] 0 <= k < r@.len() ==> {
            let (p0, p1, b) = rules_from(tokens@, 0)[k];
            &&& r@[k].prelude@ == tokens@.subrange(p0, p1)
            &&& match (r@[k].block, b) {
                (None, None) => true,
                (Some(x), Some((b0, b1))) => x@ == tokens@.subrange(b0, b1),
                _ => false,
            }
        },
{
    let ghost all = rules_from(tokens@, 0);
    let len = tokens.len();
    let mut out: Vec<Rule> = Vec::new();
    let mut i: usize = 0;
    while i < len
        invariant
            i <= len == tokens@.len(),
            all == rules_from(tokens@, 0),
            out@.len() + rules_from(tokens@, i as int).len() == all.len(),
            forall|k: int| 0 <= k < rules_from(tokens@, i as int).len() ==> all[out@.len() + k]
                == #[trigger] rules_from(tokens@, i as int)[k],
            forall|k: int| #![trigger out@[k]] 0 <= k < out@.len() ==> {
                let (p0, p1, b) = all[k];
                &&& out@[k].prelude@ == tokens@.subrange(p0, p1)
                &&& match (out@[k].block, b) {
                    (None, None) => true,
                    (Some(x), Some((b0, b1))) => x@ == tokens@.subrange(b0, b1),
                    _ => false,
                }
            },
        decreases len - i,
    {
        if tokens[i].is_trivia() {
            assert forall|k: int| 0 <= k < rules_from(tokens@, i + 1).len() implies all[out@.len() + k]
                == #[trigger] rules_from(tokens@, i + 1)[k] by {
                assert(rules_from(tokens@, i as int) == rules_from(tokens@, i + 1));
            }
            i += 1;
            continue;
        }
        let at_rule = match tokens[i] {
            Token::AtKeyword(_) => true,
            _ => false,
        };
        let (stop, j) = stop_scan_at(tokens, i, at_rule);
        proof { lemma_stop_scan(tokens@, i as int, 0, at_rule); }
        let ghost here = rules_from(tokens@, i as int);
        match stop {
            Some(open) => {
                let close = block_close(tokens, open);
                let block_end = if close < len { close } else { len };
                let next = if close < len { close + 1 } else { len };
                let rule = Rule {
                    prelude: vstd::slice::slice_subrange(tokens, i, open),
                    block: Some(vstd::slice::slice_subrange(tokens, open + 1, block_end)),
                };
                let ghost rest = rules_from(tokens@, next as int);
                assert(here == seq![(i as int, open as int, Some((open + 1, block_end as int)))] + rest);
                assert(here[0] == (i as int, open as int, Some((open + 1, block_end as int))));
                assert(all[out@.len() as int] == here[0]);
                out.push(rule);
                assert forall|k: int| 0 <= k < rest.len() implies all[out@.len() + k]
                    == #[trigger] rest[k] by {
                    assert(here[k + 1] == rest[k]);
                }
                i = next;
            },
            None => {
                let end = if j < len { j } else { len };
                let next = if j < len { j + 1 } else { len };
                let rule = Rule { prelude: vstd::slice::slice_subrange(tokens, i, end), block: None };
                let ghost rest = rules_from(tokens@, next as int);
                assert(here == seq![(i as int, end as int, Option::<(int, int)>::None)] + rest);
                assert(here[0] == (i as int, end as int, Option::<(int, int)>::None));
                assert(all[out@.len() as int] == here[0]);
                out.push(rule);
                assert forall|k: int| 0 <= k < rest.len() implies all[out@.len() + k]
                    == #[trigger] rest[k] by {
                    assert(here[k + 1] == rest[k]);
                }
                i = next;
            },
        }
    }
    assert(rules_from(tokens@, i as int) =~= seq![]);
    out
}

// -- Checking --------------------------------------------------------------------

#[derive(Debug, PartialEq, Eq, Structural, Clone, Copy)]
pub enum Error {
    UnterminatedComment,
    UnterminatedString,
    BadUrl,
    UnclosedBlock,
}

/// What went wrong, in words.
pub open spec fn error_text(e: Error) -> Seq<char> {
    match e {
        Error::UnterminatedComment => "unterminated comment (`/*` with no `*/`)"@,
        Error::UnterminatedString => "unterminated string literal"@,
        Error::BadUrl => "malformed url()"@,
        Error::UnclosedBlock => "unclosed `{` block"@,
    }
}

impl Error {
    /// What went wrong, in words.
    pub fn describe(&self) -> (r: &'static str)
        ensures
            r@ == error_text(*self),
    {
        match self {
            Error::UnterminatedComment => "unterminated comment (`/*` with no `*/`)",
            Error::UnterminatedString => "unterminated string literal",
            Error::BadUrl => "malformed url()",
            Error::UnclosedBlock => "unclosed `{` block",
        }
    }
}

/// The comment `s[i..e]` ends with its own `*/`.
pub open spec fn comment_closed(s: Seq<char>, i: int, e: int) -> bool {
    e - i >= 4 && s[e - 2] == '*' && s[e - 1] == '/'
}

/// The verdict on the tokens from `i` on, with blocks opened at `open` still
/// unclosed.
pub open spec fn check_from(s: Seq<char>, i: int, open: Seq<int>) -> Result<(), (Error, int)>
    decreases s.len() - i,
{
    match token_at_spec(s, i) {
        None => if open.len() > 0 { Err((Error::UnclosedBlock, open[0])) } else { Ok(()) },
        Some((k, e)) => if !(0 <= i < e <= s.len()) {
            Ok(())
        } else if k == Kind::Comment && !comment_closed(s, i, e) {
            Err((Error::UnterminatedComment, i))
        } else if k == Kind::BadStr {
            Err((Error::UnterminatedString, i))
        } else if k == Kind::BadUrl {
            Err((Error::BadUrl, i))
        } else if k == Kind::OpenCurly {
            check_from(s, e, open.push(i))
        } else if k == Kind::CloseCurly {
            check_from(s, e, if open.len() > 0 { open.drop_last() } else { open })
        } else {
            check_from(s, e, open)
        },
    }
}

/// The parse errors §4.3.2 and §5.4.4 tell you to recover from silently.
/// Returns the offset of the construct that failed.
pub fn check(css: &str) -> (r: Result<(), (Error, usize)>)
    ensures
        match (r, check_from(css@, 0, seq![])) {
            (Ok(()), Ok(())) => true,
            (Err((e, at)), Err((e2, at2))) => e == e2 && at == crate::bytes::bytes_upto(css@, at2),
            _ => false,
        },
{
    let s = chars_of(css);
    match check_chars(&s) {
        Ok(()) => Ok(()),
        Err((e, at)) => {
            let offs = crate::bytes::byte_offsets(css, &s);
            Err((e, offs[at]))
        },
    }
}

/// `check` over the characters of a stylesheet, with character offsets.
fn check_chars(s: &[char]) -> (r: Result<(), (Error, usize)>)
    ensures
        match (r, check_from(s@, 0, seq![])) {
            (Ok(()), Ok(())) => true,
            (Err((e, at)), Err((e2, at2))) => e == e2 && at == at2 && at < s@.len(),
            _ => false,
        },
{
    let len = s.len();
    let mut open: Vec<usize> = Vec::new();
    let mut i: usize = 0;
    assert(open@.map_values(|x: usize| x as int) =~= seq![]);
    loop
        invariant
            i <= len == s@.len(),
            forall|k: int| 0 <= k < open@.len() ==> open@[k] < len,
            check_from(s@, 0, seq![]) == check_from(s@, i as int, open@.map_values(|x: usize| x as int)),
        decreases len - i,
    {
        let ghost ov = open@.map_values(|x: usize| x as int);
        match token_at(s, i) {
            None => {
                if open.len() > 0 {
                    assert(ov[0] == open@[0] as int);
                    return Err((Error::UnclosedBlock, open[0]));
                }
                return Ok(());
            },
            Some((k, e)) => {
                match k {
                    Kind::Comment => {
                        if !(e - i >= 4 && s[e - 2] == '*' && s[e - 1] == '/') {
                            return Err((Error::UnterminatedComment, i));
                        }
                    },
                    Kind::BadStr => return Err((Error::UnterminatedString, i)),
                    Kind::BadUrl => return Err((Error::BadUrl, i)),
                    Kind::OpenCurly => {
                        open.push(i);
                        assert(open@.map_values(|x: usize| x as int) =~= ov.push(i as int));
                    },
                    Kind::CloseCurly => {
                        if open.len() > 0 {
                            open.pop();
                            assert(open@.map_values(|x: usize| x as int) =~= ov.drop_last());
                        }
                    },
                    _ => {},
                }
                i = e;
            },
        }
    }
}


// -- Minifying -------------------------------------------------------------------

/// A token as its kind and its text.
pub type Tok = (Kind, Seq<char>);

pub open spec fn abs(t: Token) -> Tok {
    (kind_of(t), token_text(t))
}

pub open spec fn abs_all(ts: Seq<Token>) -> Seq<Tok> {
    ts.map_values(|t: Token| abs(t))
}

/// The tokens of `s`, as kinds and texts.
pub open spec fn toks_of(s: Seq<char>) -> Seq<Tok> {
    tokens_from(s, 0).map_values(|x: (Kind, int, int)| (x.0, s.subrange(x.1, x.2)))
}

/// The tokens of `ts` at the positions from `k` on that `keep` accepts.
pub open spec fn keep_from(ts: Seq<Tok>, k: int, keep: spec_fn(int) -> bool) -> Seq<Tok>
    decreases ts.len() - k,
{
    if !(0 <= k < ts.len()) {
        seq![]
    } else {
        (if keep(k) { seq![ts[k]] } else { seq![] }) + keep_from(ts, k + 1, keep)
    }
}

/// Comments become single spaces.
pub open spec fn normalized(ts: Seq<Tok>) -> Seq<Tok> {
    ts.map_values(|t: Tok| if t.0 == Kind::Comment { (Kind::Whitespace, " "@) } else { t })
}

/// A run of whitespace keeps only its first token.
pub open spec fn dedup_keep(ts: Seq<Tok>, k: int) -> bool {
    ts[k].0 != Kind::Whitespace || k == 0 || ts[k - 1].0 != Kind::Whitespace
}

pub open spec fn deduped(ts: Seq<Tok>) -> Seq<Tok> {
    keep_from(ts, 0, |k: int| dedup_keep(ts, k))
}

/// The first token from `k` on that is neither whitespace nor `;`.
pub open spec fn next_significant(ts: Seq<Tok>, k: int) -> Option<Tok>
    decreases ts.len() - k,
{
    if !(0 <= k < ts.len()) {
        None
    } else if ts[k].0 == Kind::Whitespace || ts[k].0 == Kind::Semicolon {
        next_significant(ts, k + 1)
    } else {
        Some(ts[k])
    }
}

/// A `;` is dropped when the next significant token closes the block.
pub open spec fn trim_keep(ts: Seq<Tok>, k: int) -> bool {
    ts[k].0 != Kind::Semicolon || !(next_significant(ts, k + 1) matches Some(t) && t.0
        == Kind::CloseCurly)
}

pub open spec fn semis_trimmed(ts: Seq<Tok>) -> Seq<Tok> {
    keep_from(ts, 0, |k: int| trim_keep(ts, k))
}

/// Punctuation after which whitespace says nothing.
pub open spec fn suppress_after_spec(k: Kind) -> bool {
    k == Kind::OpenCurly || k == Kind::CloseCurly || k == Kind::Semicolon || k == Kind::Colon
        || k == Kind::Comma
}

/// Punctuation before which whitespace says nothing.
pub open spec fn suppress_before_spec(k: Kind) -> bool {
    k == Kind::OpenCurly || k == Kind::CloseCurly || k == Kind::Semicolon || k == Kind::Comma
}

/// Whitespace survives only between two tokens that it may separate.
pub open spec fn ws_keep(ts: Seq<Tok>, k: int) -> bool {
    ts[k].0 != Kind::Whitespace || (0 < k && k + 1 < ts.len() && !suppress_after_spec(ts[k - 1].0)
        && !suppress_before_spec(ts[k + 1].0))
}

pub open spec fn ws_kept(ts: Seq<Tok>) -> Seq<Tok> {
    keep_from(ts, 0, |k: int| ws_keep(ts, k))
}

/// `raw` with every `<` written as the escape `\3c `.
pub open spec fn escape_lt_spec(raw: Seq<char>) -> Seq<char> {
    raw.map_values(|c: char| if c == '<' { "\\3c "@ } else { seq![c] }).flatten()
}

/// `raw` with every `<` written as `3c `: in an identifier, a hash, an
/// at-keyword, a function or a number a `<` only stands behind the `\` that
/// escapes it, and `\3c ` is the same character.
pub open spec fn bare_lt_spec(raw: Seq<char>) -> Seq<char> {
    raw.map_values(|c: char| if c == '<' { "3c "@ } else { seq![c] }).flatten()
}

/// What the minifier writes for the token at `k`: a `<` is never written where
/// it could start `</`.
pub open spec fn piece(ts: Seq<Tok>, k: int) -> Seq<char> {
    let (kind, text) = ts[k];
    if kind == Kind::Str || kind == Kind::Url || kind == Kind::BadStr || kind == Kind::BadUrl {
        escape_lt_spec(text)
    } else if kind == Kind::Delim('<') && k + 1 < ts.len() && ts[k + 1].0 == Kind::Delim('/') {
        "\\3c "@
    } else if kind == Kind::Delim('<') {
        text
    } else {
        bare_lt_spec(text)
    }
}

pub open spec fn pieces(ts: Seq<Tok>) -> Seq<char> {
    Seq::new(ts.len(), |k: int| piece(ts, k)).flatten()
}

/// `s` without leading and trailing whitespace.
pub open spec fn trimmed(s: Seq<char>) -> Seq<char> {
    let b = crate::text::trim_start_pos(s, 0, s.len() as int);
    s.subrange(b, crate::text::trim_end_pos(s, b, s.len() as int))
}

/// The minified form of `css`: comments dropped, whitespace collapsed or
/// removed where it says nothing, `;` before `}` dropped.
pub open spec fn minify_spec(css: Seq<char>) -> Seq<char> {
    trimmed(pieces(ws_kept(semis_trimmed(deduped(normalized(toks_of(css)))))))
}

// -- What minified CSS can never hold ----------------------------------------

/// Whether `s` holds `</` anywhere: in an inlined stylesheet that would close
/// the `<style>` element.
pub open spec fn has_close(s: Seq<char>) -> bool {
    exists|i: int| 0 <= i && i + 1 < s.len() && #[trigger] s[i] == '<' && s[i + 1] == '/'
}

/// What the last stages of minifying rely on, token by token.
pub open spec fn quiet(t: Tok) -> bool {
    &&& t.1.len() > 0
    &&& (t.0 == Kind::Delim('<') ==> t.1 == seq!['<'])
    &&& (t.1[0] == '/' ==> t.0 == Kind::Delim('/'))
    &&& (t.0 == Kind::Str || t.0 == Kind::BadStr ==> t.1[0] != '/')
    &&& (t.0 == Kind::Url || t.0 == Kind::BadUrl ==> t.1[0] != '/')
}

proof fn lemma_token_at_shape(s: Seq<char>, i: int)
    requires
        token_at_spec(s, i) is Some,
    ensures
        ({
            let (k, e) = token_at_spec(s, i)->Some_0;
            &&& (k == Kind::Delim('<') ==> e == i + 1 && s[i] == '<')
            &&& (s[i] == '/' ==> k == Kind::Comment || k == Kind::Delim('/'))
            &&& (k == Kind::Str || k == Kind::BadStr ==> s[i] == '"' || s[i] == '\'')
            &&& (k == Kind::Url || k == Kind::BadUrl ==> s[i] != '/')
        }),
{
}

proof fn lemma_spans_fit(s: Seq<char>, i: int)
    ensures
        forall|j: int| 0 <= j < tokens_from(s, i).len() ==> {
            let (k, a, e) = #[trigger] tokens_from(s, i)[j];
            &&& 0 <= a < e <= s.len()
            &&& (k == Kind::Delim('<') ==> e == a + 1 && s[a] == '<')
            &&& (s[a] == '/' ==> k == Kind::Comment || k == Kind::Delim('/'))
            &&& (k == Kind::Str || k == Kind::BadStr ==> s[a] == '"' || s[a] == '\'')
            &&& (k == Kind::Url || k == Kind::BadUrl ==> s[a] != '/')
        },
    decreases s.len() - i,
{
    match token_at_spec(s, i) {
        None => {},
        Some((k, e)) => if i < e <= s.len() {
            lemma_token_at_shape(s, i);
            lemma_spans_fit(s, e);
            let rest = tokens_from(s, e);
            assert forall|j: int| 0 <= j < tokens_from(s, i).len() implies {
                let (k2, a, e2) = #[trigger] tokens_from(s, i)[j];
                &&& 0 <= a < e2 <= s.len()
                &&& (k2 == Kind::Delim('<') ==> e2 == a + 1 && s[a] == '<')
                &&& (s[a] == '/' ==> k2 == Kind::Comment || k2 == Kind::Delim('/'))
                &&& (k2 == Kind::Str || k2 == Kind::BadStr ==> s[a] == '"' || s[a] == '\'')
                &&& (k2 == Kind::Url || k2 == Kind::BadUrl ==> s[a] != '/')
            } by {
                if j > 0 {
                    assert(tokens_from(s, i)[j] == rest[j - 1]);
                }
            }
        },
    }
}

proof fn lemma_keep_from_quiet(ts: Seq<Tok>, k: int, keep: spec_fn(int) -> bool)
    requires
        0 <= k,
        forall|j: int| 0 <= j < ts.len() ==> quiet(#[trigger] ts[j]),
    ensures
        forall|j: int| 0 <= j < keep_from(ts, k, keep).len() ==> quiet(#[trigger] keep_from(ts, k, keep)[j]),
    decreases ts.len() - k,
{
    if 0 <= k < ts.len() {
        lemma_keep_from_quiet(ts, k + 1, keep);
        let head = if keep(k) { seq![ts[k]] } else { seq![] };
        let rest = keep_from(ts, k + 1, keep);
        assert forall|j: int| 0 <= j < keep_from(ts, k, keep).len() implies quiet(#[trigger] keep_from(ts, k, keep)[j]) by {
            if j < head.len() {
                assert(keep_from(ts, k, keep)[j] == ts[k]);
            } else {
                assert(keep_from(ts, k, keep)[j] == rest[j - head.len()]);
            }
        }
    }
}

proof fn lemma_escape_lt(raw: Seq<char>)
    requires
        raw.len() > 0,
    ensures
        !escape_lt_spec(raw).contains('<'),
        escape_lt_spec(raw).len() > 0,
        escape_lt_spec(raw)[0] == '/' ==> raw[0] == '/',
    decreases raw.len(),
{
    reveal_strlit("\\3c ");
    let m = raw.map_values(|c: char| if c == '<' { "\\3c "@ } else { seq![c] });
    assert(m.drop_first() =~= raw.drop_first().map_values(|c: char| if c == '<' { "\\3c "@ } else { seq![c] }));
    assert(escape_lt_spec(raw) == m[0] + m.drop_first().flatten());
    if raw.len() > 1 {
        lemma_escape_lt(raw.drop_first());
    } else {
        assert(m.drop_first().flatten() =~= Seq::<char>::empty());
    }
    let rest = m.drop_first().flatten();
    assert(!m[0].contains('<'));
    assert forall|j: int| 0 <= j < escape_lt_spec(raw).len() implies escape_lt_spec(raw)[j] != '<' by {
        if j < m[0].len() {
            assert(escape_lt_spec(raw)[j] == m[0][j]);
        } else {
            assert(escape_lt_spec(raw)[j] == rest[j - m[0].len()]);
            if raw.len() > 1 {
                assert(!rest.contains('<'));
            }
        }
    }
}

proof fn lemma_bare_lt(raw: Seq<char>)
    requires
        raw.len() > 0,
    ensures
        !bare_lt_spec(raw).contains('<'),
        bare_lt_spec(raw).len() > 0,
        bare_lt_spec(raw)[0] == '/' ==> raw[0] == '/',
    decreases raw.len(),
{
    reveal_strlit("3c ");
    let m = raw.map_values(|c: char| if c == '<' { "3c "@ } else { seq![c] });
    assert(m.drop_first() =~= raw.drop_first().map_values(|c: char| if c == '<' { "3c "@ } else { seq![c] }));
    assert(bare_lt_spec(raw) == m[0] + m.drop_first().flatten());
    if raw.len() > 1 {
        lemma_bare_lt(raw.drop_first());
    } else {
        assert(m.drop_first().flatten() =~= Seq::<char>::empty());
    }
    let rest = m.drop_first().flatten();
    assert(!m[0].contains('<'));
    assert forall|j: int| 0 <= j < bare_lt_spec(raw).len() implies bare_lt_spec(raw)[j] != '<' by {
        if j < m[0].len() {
            assert(bare_lt_spec(raw)[j] == m[0][j]);
        } else {
            assert(bare_lt_spec(raw)[j] == rest[j - m[0].len()]);
            if raw.len() > 1 {
                assert(!rest.contains('<'));
            }
        }
    }
}

/// The pieces of `ts` before position `n`, written out.
pub open spec fn pieces_upto(ts: Seq<Tok>, n: int) -> Seq<char> {
    Seq::new(n as nat, |k: int| piece(ts, k)).flatten_alt()
}

proof fn lemma_piece_quiet(ts: Seq<Tok>, k: int)
    requires
        0 <= k < ts.len(),
        quiet(ts[k]),
    ensures
        piece(ts, k).len() > 0,
        piece(ts, k).contains('<') ==> piece(ts, k) == seq!['<'] && ts[k].0 == Kind::Delim('<') && !(
        k + 1 < ts.len() && ts[k + 1].0 == Kind::Delim('/')),
        piece(ts, k)[0] == '/' ==> ts[k].0 == Kind::Delim('/'),
{
    reveal_strlit("\\3c ");
    let (kind, text) = ts[k];
    if kind == Kind::Str || kind == Kind::Url || kind == Kind::BadStr || kind == Kind::BadUrl {
        lemma_escape_lt(text);
    } else if kind == Kind::Delim('<') && k + 1 < ts.len() && ts[k + 1].0 == Kind::Delim('/') {
        assert(!"\\3c "@.contains('<')) by {
            assert forall|j: int| 0 <= j < "\\3c "@.len() implies "\\3c "@[j] != '<' by {}
        }
    } else if kind == Kind::Delim('<') {
    } else {
        lemma_bare_lt(text);
    }
}

proof fn lemma_pieces_quiet(ts: Seq<Tok>, n: int)
    requires
        0 <= n <= ts.len(),
        forall|j: int| 0 <= j < ts.len() ==> quiet(#[trigger] ts[j]),
    ensures
        !has_close(pieces_upto(ts, n)),
        pieces_upto(ts, n).len() > 0 && pieces_upto(ts, n).last() == '<' ==> n > 0 && ts[n - 1].0
            == Kind::Delim('<') && !(n < ts.len() && ts[n].0 == Kind::Delim('/')),
    decreases n,
{
    if n == 0 {
        assert(pieces_upto(ts, 0) =~= Seq::<char>::empty());
    } else {
        lemma_pieces_quiet(ts, n - 1);
        lemma_piece_quiet(ts, n - 1);
        let x = pieces_upto(ts, n - 1);
        let p = piece(ts, n - 1);
        assert(Seq::new(n as nat, |k: int| piece(ts, k)).drop_last() =~= Seq::new((n - 1) as nat, |k: int| piece(ts, k)));
        assert(pieces_upto(ts, n) == x + p);
        let y = x + p;
        if has_close(y) {
            let i = choose|i: int| 0 <= i && i + 1 < y.len() && #[trigger] y[i] == '<' && y[i + 1] == '/';
            if i + 1 < x.len() {
                assert(x[i] == '<' && x[i + 1] == '/');
                assert(has_close(x));
            } else if i + 1 == x.len() {
                assert(x.last() == '<');
                assert(p[0] == '/');
                assert(ts[n - 1].0 == Kind::Delim('/'));
            } else {
                assert(p[i - x.len()] == '<');
                assert(p.contains('<'));
                assert(p.len() == 1);
            }
        }
        if y.len() > 0 && y.last() == '<' {
            assert(p.last() == '<');
            assert(p.contains('<'));
        }
    }
}

/// Minified CSS never closes the `<style>` element it is inlined into: it holds
/// no `</` at all.
pub proof fn lemma_minify_never_closes(css: Seq<char>)
    ensures
        !has_close(minify_spec(css)),
{
    let t0 = toks_of(css);
    lemma_spans_fit(css, 0);
    assert forall|j: int| 0 <= j < t0.len() implies quiet(#[trigger] normalized(t0)[j]) by {
        let (k, a, e) = tokens_from(css, 0)[j];
        assert(t0[j] == (k, css.subrange(a, e)));
        if k == Kind::Delim('<') {
            assert(css.subrange(a, e) =~= seq!['<']);
        }
        assert(css.subrange(a, e)[0] == css[a]);
        reveal_strlit(" ");
        if k == Kind::Comment {
            assert(" "@[0] == ' ');
            assert(!" "@.contains('<'));
        }
    }
    let t1 = normalized(t0);
    assert forall|j: int| 0 <= j < t1.len() implies quiet(#[trigger] t1[j]) by {}
    lemma_keep_from_quiet(t1, 0, |k: int| dedup_keep(t1, k));
    let t2 = deduped(t1);
    lemma_keep_from_quiet(t2, 0, |k: int| trim_keep(t2, k));
    let t3 = semis_trimmed(t2);
    lemma_keep_from_quiet(t3, 0, |k: int| ws_keep(t3, k));
    let t4 = ws_kept(t3);
    lemma_pieces_quiet(t4, t4.len() as int);
    let all = Seq::new(t4.len(), |k: int| piece(t4, k));
    all.lemma_flatten_and_flatten_alt_are_equivalent();
    assert(pieces(t4) == pieces_upto(t4, t4.len() as int));
    let out = pieces(t4);
    let b = crate::text::trim_start_pos(out, 0, out.len() as int);
    lemma_trim_start_bound(out, 0, out.len() as int);
    crate::text::lemma_trim_end(out, b, out.len() as int);
    let m = minify_spec(css);
    if has_close(m) {
        let i = choose|i: int| 0 <= i && i + 1 < m.len() && #[trigger] m[i] == '<' && m[i + 1] == '/';
        assert(out[b + i] == '<' && out[b + i + 1] == '/');
        assert(has_close(out));
    }
}

proof fn lemma_trim_start_bound(s: Seq<char>, from: int, to: int)
    requires
        0 <= from <= to <= s.len(),
    ensures
        from <= crate::text::trim_start_pos(s, from, to) <= to,
    decreases to - from,
{
    if from < to && crate::text::is_whitespace(s[from]) {
        lemma_trim_start_bound(s, from + 1, to);
    }
}

fn suppress_after(t: &Token) -> (r: bool)
    ensures r == suppress_after_spec(kind_of(*t)),
{
    match t {
        Token::OpenCurly | Token::CloseCurly | Token::Semicolon | Token::Colon | Token::Comma => true,
        _ => false,
    }
}

fn suppress_before(t: &Token) -> (r: bool)
    ensures r == suppress_before_spec(kind_of(*t)),
{
    match t {
        Token::OpenCurly | Token::CloseCurly | Token::Semicolon | Token::Comma => true,
        _ => false,
    }
}

fn is_ws_token(t: &Token) -> (r: bool)
    ensures r == (kind_of(*t) == Kind::Whitespace),
{
    match t {
        Token::Whitespace(_) => true,
        _ => false,
    }
}

fn is_semi(t: &Token) -> (r: bool)
    ensures r == (kind_of(*t) == Kind::Semicolon),
{
    match t {
        Token::Semicolon => true,
        _ => false,
    }
}

/// Appends `raw` with every `<` written as `\3c `.
fn push_escaped_lt(out: &mut String, raw: &str)
    ensures
        final(out)@ == old(out)@ + escape_lt_spec(raw@),
{
    let cs = chars_of(raw);
    let ghost start = out@;
    let ghost m = raw@.map_values(|c: char| if c == '<' { "\\3c "@ } else { seq![c] });
    let mut k: usize = 0;
    while k < cs.len()
        invariant
            k <= cs@.len(),
            cs@ == raw@,
            m == raw@.map_values(|c: char| if c == '<' { "\\3c "@ } else { seq![c] }),
            out@ == start + m.subrange(0, k as int).flatten(),
        decreases cs@.len() - k,
    {
        if cs[k] == '<' {
            crate::text::push_str(out, "\\3c ");
        } else {
            push_char(out, cs[k]);
        }
        assert(m.subrange(0, k + 1) =~= m.subrange(0, k as int).push(m[k as int]));
        proof { m.subrange(0, k as int).lemma_flatten_push(m[k as int]); }
        k += 1;
    }
    assert(m.subrange(0, cs@.len() as int) =~= m);
}

/// Appends `raw` with every `<` written as `3c `.
fn push_bare_lt(out: &mut String, raw: &str)
    ensures
        final(out)@ == old(out)@ + bare_lt_spec(raw@),
{
    let cs = chars_of(raw);
    let ghost start = out@;
    let ghost m = raw@.map_values(|c: char| if c == '<' { "3c "@ } else { seq![c] });
    let mut k: usize = 0;
    while k < cs.len()
        invariant
            k <= cs@.len(),
            cs@ == raw@,
            m == raw@.map_values(|c: char| if c == '<' { "3c "@ } else { seq![c] }),
            out@ == start + m.subrange(0, k as int).flatten(),
        decreases cs@.len() - k,
    {
        if cs[k] == '<' {
            crate::text::push_str(out, "3c ");
        } else {
            push_char(out, cs[k]);
        }
        assert(m.subrange(0, k + 1) =~= m.subrange(0, k as int).push(m[k as int]));
        proof { m.subrange(0, k as int).lemma_flatten_push(m[k as int]); }
        k += 1;
    }
    assert(m.subrange(0, cs@.len() as int) =~= m);
}

/// `raw` with every `<` written as `\3c `, so that it cannot close a `<style>`.
pub fn escape_lt(raw: &str) -> (r: Cow<'_, str>)
    ensures
        r@ == escape_lt_spec(raw@),
{
    let cs = chars_of(raw);
    if crate::text::find_char(&cs, 0, cs.len(), '<').is_none() {
        proof {
            crate::text::lemma_find_char_bounds(cs@, 0, cs@.len() as int, '<');
            let m = raw@.map_values(|c: char| if c == '<' { "\\3c "@ } else { seq![c] });
            assert(m =~= raw@.map_values(|c: char| seq![c]));
            lemma_flatten_singletons(raw@);
        }
        return Cow::Borrowed(raw);
    }
    let mut out = String::new();
    push_escaped_lt(&mut out, raw);
    Cow::Owned(out)
}

proof fn lemma_flatten_singletons(s: Seq<char>)
    ensures
        s.map_values(|c: char| seq![c]).flatten() =~= s,
    decreases s.len(),
{
    if s.len() > 0 {
        lemma_flatten_singletons(s.drop_first());
        assert(s.map_values(|c: char| seq![c]).drop_first() =~= s.drop_first().map_values(
            |c: char| seq![c],
        ));
        assert(s =~= seq![s[0]] + s.drop_first());
    }
}

proof fn lemma_keep_step(ts: Seq<Tok>, k: int, keep: spec_fn(int) -> bool)
    requires
        0 <= k < ts.len(),
    ensures
        keep_from(ts, k, keep) == (if keep(k) { seq![ts[k]] } else { seq![] }) + keep_from(
            ts,
            k + 1,
            keep,
        ),
{
}

/// Keeps the tokens of `v` at the positions `keep` accepts; `keep` is decided
/// by `accept`, which agrees with it.
fn filter_tokens<'a>(
    v: &Vec<Token<'a>>,
    flags: &Vec<bool>,
    Ghost(keep): Ghost<spec_fn(int) -> bool>,
) -> (r: Vec<Token<'a>>)
    requires
        flags@.len() == v@.len(),
        forall|k: int| 0 <= k < v@.len() ==> flags@[k] == keep(k),
    ensures
        abs_all(r@) == keep_from(abs_all(v@), 0, keep),
{
    let ghost a = abs_all(v@);
    let mut out: Vec<Token> = Vec::new();
    let mut k: usize = 0;
    while k < v.len()
        invariant
            k <= v@.len(),
            flags@.len() == v@.len(),
            forall|j: int| 0 <= j < v@.len() ==> flags@[j] == keep(j),
            a == abs_all(v@),
            abs_all(out@) + keep_from(a, k as int, keep) == keep_from(a, 0, keep),
        decreases v@.len() - k,
    {
        let ghost before = out@;
        proof { lemma_keep_step(a, k as int, keep); }
        if flags[k] {
            out.push(v[k]);
            assert(abs_all(out@) =~= abs_all(before).push(abs(v@[k as int])));
            assert(abs_all(out@) + keep_from(a, k + 1, keep) =~= abs_all(before) + keep_from(
                a,
                k as int,
                keep,
            ));
        } else {
            assert(keep_from(a, k as int, keep) =~= keep_from(a, k + 1, keep));
        }
        k += 1;
    }
    assert(keep_from(a, k as int, keep) =~= seq![]);
    assert(abs_all(out@) =~= abs_all(out@) + keep_from(a, k as int, keep));
    out
}

fn next_significant_at<'a>(ts: &Vec<Token<'a>>, k: usize) -> (r: Option<Token<'a>>)
    ensures
        match (r, next_significant(abs_all(ts@), k as int)) {
            (None, None) => true,
            (Some(t), Some(u)) => abs(t) == u,
            _ => false,
        },
{
    let ghost a = abs_all(ts@);
    let mut j = k;
    while j < ts.len()
        invariant
            k <= j <= ts@.len() || (j == k && k >= ts@.len()),
            a == abs_all(ts@),
            next_significant(a, k as int) == next_significant(a, j as int),
        decreases ts@.len() - j,
    {
        if !is_ws_token(&ts[j]) && !is_semi(&ts[j]) {
            return Some(ts[j]);
        }
        j += 1;
    }
    None
}

/// Comments, whitespace that separates nothing, and `;` before `}` removed;
/// every other token kept, in order.
pub fn minify(css: &str) -> (r: String)
    ensures
        r@ == minify_spec(css@),
        !has_close(r@),
{
    proof { lemma_minify_never_closes(css@); }
    let toks = tokenize(css);
    proof { lemma_toks_of(css@, toks@); }
    // Comments become a single space.
    let mut normal: Vec<Token> = Vec::new();
    let mut k: usize = 0;
    while k < toks.len()
        invariant
            k <= toks@.len(),
            abs_all(normal@) == normalized(abs_all(toks@)).subrange(0, k as int),
        decreases toks@.len() - k,
    {
        let t = match toks[k] {
            Token::Comment(_) => Token::Whitespace(" "),
            other => other,
        };
        let ghost before = normal@;
        normal.push(t);
        assert(abs_all(normal@) =~= abs_all(before).push(abs(t)));
        assert(normalized(abs_all(toks@)).subrange(0, k + 1) =~= normalized(abs_all(toks@)).subrange(
            0,
            k as int,
        ).push(abs(t)));
        k += 1;
    }
    assert(normalized(abs_all(toks@)).subrange(0, k as int) =~= normalized(abs_all(toks@)));
    let ghost n = abs_all(normal@);

    // A run of whitespace keeps its first token.
    let mut flags: Vec<bool> = Vec::new();
    let mut k: usize = 0;
    while k < normal.len()
        invariant
            k <= normal@.len(),
            n == abs_all(normal@),
            flags@.len() == k,
            forall|j: int| 0 <= j < k ==> flags@[j] == dedup_keep(n, j),
        decreases normal@.len() - k,
    {
        let keep = !is_ws_token(&normal[k]) || k == 0 || !is_ws_token(&normal[k - 1]);
        flags.push(keep);
        k += 1;
    }
    let deduped_toks = filter_tokens(&normal, &flags, Ghost(|j: int| dedup_keep(n, j)));
    let ghost d = abs_all(deduped_toks@);
    assert(d == deduped(n));

    // A `;` before a closing `}` goes.
    let mut flags: Vec<bool> = Vec::new();
    let mut k: usize = 0;
    while k < deduped_toks.len()
        invariant
            k <= deduped_toks@.len(),
            d == abs_all(deduped_toks@),
            flags@.len() == k,
            forall|j: int| 0 <= j < k ==> flags@[j] == trim_keep(d, j),
        decreases deduped_toks@.len() - k,
    {
        let keep = !is_semi(&deduped_toks[k]) || !match next_significant_at(&deduped_toks, k + 1) {
            Some(Token::CloseCurly) => true,
            _ => false,
        };
        flags.push(keep);
        k += 1;
    }
    let trimmed_toks = filter_tokens(&deduped_toks, &flags, Ghost(|j: int| trim_keep(d, j)));
    let ghost t = abs_all(trimmed_toks@);
    assert(t == semis_trimmed(d));

    // Whitespace survives only where it separates two tokens.
    let mut flags: Vec<bool> = Vec::new();
    let mut k: usize = 0;
    let tl = trimmed_toks.len();
    while k < tl
        invariant
            k <= tl == trimmed_toks@.len(),
            t == abs_all(trimmed_toks@),
            flags@.len() == k,
            forall|j: int| 0 <= j < k ==> flags@[j] == ws_keep(t, j),
        decreases tl - k,
    {
        let keep = !is_ws_token(&trimmed_toks[k]) || (0 < k && k + 1 < tl && !suppress_after(
            &trimmed_toks[k - 1],
        ) && !suppress_before(&trimmed_toks[k + 1]));
        flags.push(keep);
        k += 1;
    }
    let kept = filter_tokens(&trimmed_toks, &flags, Ghost(|j: int| ws_keep(t, j)));
    let ghost w = abs_all(kept@);
    assert(w == ws_kept(t));

    // Written out, with `<` escaped where it could close the style element.
    let ghost ps = Seq::new(w.len(), |j: int| piece(w, j));
    let mut out = String::new();
    let mut k: usize = 0;
    while k < kept.len()
        invariant
            k <= kept@.len(),
            w == abs_all(kept@),
            ps == Seq::new(w.len(), |j: int| piece(w, j)),
            out@ == ps.subrange(0, k as int).flatten(),
        decreases kept@.len() - k,
    {
        let ghost before = out@;
        match kept[k] {
            Token::Str(x) | Token::Url(x) | Token::BadStr(x) | Token::BadUrl(x) => {
                push_escaped_lt(&mut out, x);
            },
            Token::Delim('<') if k + 1 < kept.len() && match kept[k + 1] {
                Token::Delim('/') => true,
                _ => false,
            } => {
                crate::text::push_str(&mut out, "\\3c ");
            },
            Token::Delim('<') => {
                proof { reveal_strlit("<"); }
                crate::text::push_str(&mut out, "<");
            },
            _ => {
                let raw = kept[k].raw();
                match &raw {
                    Cow::Borrowed(b) => push_bare_lt(&mut out, b),
                    Cow::Owned(o) => push_bare_lt(&mut out, o.as_str()),
                }
            },
        }
        assert(out@ == before + ps[k as int]);
        assert(ps.subrange(0, k + 1) =~= ps.subrange(0, k as int).push(ps[k as int]));
        proof { ps.subrange(0, k as int).lemma_flatten_push(ps[k as int]); }
        k += 1;
    }
    assert(ps.subrange(0, k as int) =~= ps);
    let cs = chars_of(out.as_str());
    let b = crate::text::trim_start(&cs, 0, cs.len());
    let e = crate::text::trim_end(&cs, b, cs.len());
    crate::text::range_string(&cs, b, e)
}

proof fn lemma_toks_of(s: Seq<char>, toks: Seq<Token>)
    requires
        tokenized(s, toks),
    ensures
        abs_all(toks) == toks_of(s),
{
    assert(abs_all(toks) =~= toks_of(s));
}


// -- Selectors -------------------------------------------------------------------

/// The class names a selector mentions: each `.` followed by an identifier,
/// unescaped, from position `k` on.
pub open spec fn classes_from(ts: Seq<Token>, k: int) -> Seq<Seq<char>>
    decreases ts.len() - k,
{
    if !(0 <= k && k + 1 < ts.len()) {
        seq![]
    } else if ts[k] == Token::Delim('.') && ts[k + 1] is Ident {
        seq![unescape_from(token_text(ts[k + 1]), 0)] + classes_from(ts, k + 1)
    } else {
        classes_from(ts, k + 1)
    }
}

/// The class names `selector` mentions: each `.` followed by an identifier,
/// unescaped.
pub fn selector_classes<'a>(selector: &[Token<'a>]) -> (r: Vec<Cow<'a, str>>)
    ensures
        r@.map_values(|c: Cow<'a, str>| c@) == classes_from(selector@, 0),
{
    let mut out: Vec<Cow<'a, str>> = Vec::new();
    let len = selector.len();
    let mut k: usize = 0;
    while len > 0 && k < len - 1
        invariant
            len == selector@.len(),
            out@.map_values(|c: Cow<'a, str>| c@) + classes_from(selector@, k as int) == classes_from(
                selector@,
                0,
            ),
        decreases len - k,
    {
        let ghost before = out@;
        let dot = match selector[k] {
            Token::Delim(c) => c == '.',
            _ => false,
        };
        if dot {
            match selector[k + 1] {
                Token::Ident(name) => {
                    let u = unescape(name);
                    out.push(u);
                    assert(out@.map_values(|c: Cow<'a, str>| c@) =~= before.map_values(
                        |c: Cow<'a, str>| c@,
                    ).push(u@));
                    assert(out@.map_values(|c: Cow<'a, str>| c@) + classes_from(selector@, k + 1)
                        =~= before.map_values(|c: Cow<'a, str>| c@) + classes_from(
                        selector@,
                        k as int,
                    ));
                },
                _ => {},
            }
        }
        k += 1;
    }
    assert(classes_from(selector@, k as int) =~= seq![]);
    assert(out@.map_values(|c: Cow<'a, str>| c@) =~= out@.map_values(|c: Cow<'a, str>| c@)
        + classes_from(selector@, k as int));
    out
}

/// The first position in `[a, b)` holding a token that is not trivia, or `b`.
pub open spec fn first_significant(ts: Seq<Token>, a: int, b: int) -> int
    decreases b - a,
{
    if 0 <= a < b && b <= ts.len() && is_trivia_spec(ts[a]) {
        first_significant(ts, a + 1, b)
    } else {
        a
    }
}

/// Past the last position in `[a, b)` holding a token that is not trivia, or `a`.
pub open spec fn last_significant(ts: Seq<Token>, a: int, b: int) -> int
    decreases b - a,
{
    if 0 <= a < b && b <= ts.len() && is_trivia_spec(ts[b - 1]) {
        last_significant(ts, a, b - 1)
    } else {
        b
    }
}

/// `ts[a..b]` without the trivia at either end, as a span.
pub open spec fn trimmed_span(ts: Seq<Token>, a: int, b: int) -> (int, int) {
    let start = first_significant(ts, a, b);
    (start, last_significant(ts, start, b))
}

fn trim_span(tokens: &[Token], a: usize, b: usize) -> (r: (usize, usize))
    requires
        a <= b <= tokens@.len(),
    ensures
        r.0 == trimmed_span(tokens@, a as int, b as int).0,
        r.1 == trimmed_span(tokens@, a as int, b as int).1,
        a <= r.0 <= r.1 <= b,
{
    let mut start = a;
    while start < b && tokens[start].is_trivia()
        invariant
            a <= start <= b <= tokens@.len(),
            first_significant(tokens@, a as int, b as int) == first_significant(
                tokens@,
                start as int,
                b as int,
            ),
        decreases b - start,
    {
        start += 1;
    }
    let mut end = b;
    while start < end && tokens[end - 1].is_trivia()
        invariant
            start <= end <= b <= tokens@.len(),
            last_significant(tokens@, start as int, b as int) == last_significant(
                tokens@,
                start as int,
                end as int,
            ),
        decreases end,
    {
        end -= 1;
    }
    (start, end)
}

/// `tokens` without the whitespace and comments at either end.
pub fn trim_trivia<'t, 'a>(tokens: &'t [Token<'a>]) -> (r: &'t [Token<'a>])
    ensures
        ({
            let (a, b) = trimmed_span(tokens@, 0, tokens@.len() as int);
            r@ == tokens@.subrange(a, b)
        }),
{
    let (a, b) = trim_span(tokens, 0, tokens.len());
    vstd::slice::slice_subrange(tokens, a, b)
}

/// The groups of a prelude between its top-level commas, as spans, from `k`
/// on; the current group began at `start`.
pub open spec fn split_from(ts: Seq<Token>, k: int, start: int, depth: int) -> Seq<(int, int)>
    decreases ts.len() - k,
{
    if !(0 <= k < ts.len()) {
        seq![(start, ts.len() as int)]
    } else if ts[k] is Comma && depth == 0 {
        seq![(start, k)] + split_from(ts, k + 1, k + 1, depth)
    } else {
        let d = depth + delta(ts[k]);
        split_from(ts, k + 1, start, if d < 0 { 0 } else { d })
    }
}

/// The selectors of a prelude: its groups between top-level commas, trimmed
/// of trivia, the empty ones left out, from group `g` on.
pub open spec fn selectors_from(ts: Seq<Token>, groups: Seq<(int, int)>, g: int) -> Seq<(int, int)>
    decreases groups.len() - g,
{
    if !(0 <= g < groups.len()) {
        seq![]
    } else {
        let t = trimmed_span(ts, groups[g].0, groups[g].1);
        (if t.0 < t.1 { seq![t] } else { seq![] }) + selectors_from(ts, groups, g + 1)
    }
}

pub open spec fn selectors_spec(ts: Seq<Token>) -> Seq<(int, int)> {
    selectors_from(ts, split_from(ts, 0, 0, 0), 0)
}

proof fn lemma_split_from(ts: Seq<Token>, k: int, start: int, depth: int)
    requires
        0 <= start <= k <= ts.len(),
    ensures
        forall|g: int| 0 <= g < split_from(ts, k, start, depth).len() ==> 0 <= (#[trigger] split_from(
            ts,
            k,
            start,
            depth,
        )[g]).0 <= split_from(ts, k, start, depth)[g].1 <= ts.len(),
    decreases ts.len() - k,
{
    let x = split_from(ts, k, start, depth);
    if k < ts.len() {
        if ts[k] is Comma && depth == 0 {
            lemma_split_from(ts, k + 1, k + 1, depth);
            let rest = split_from(ts, k + 1, k + 1, depth);
            assert(x == seq![(start, k)] + rest);
            assert forall|g: int| 0 <= g < x.len() implies 0 <= (#[trigger] x[g]).0 <= x[g].1
                <= ts.len() by {
                if g > 0 {
                    assert(x[g] == rest[g - 1]);
                }
            }
        } else {
            let d = depth + delta(ts[k]);
            lemma_split_from(ts, k + 1, start, if d < 0 { 0 } else { d });
            assert(x == split_from(ts, k + 1, start, if d < 0 { 0 } else { d }));
        }
    } else {
        assert(x =~= seq![(start, ts.len() as int)]);
        assert(x[0] == (start, ts.len() as int));
    }
}

/// The comma-separated selectors of a rule's prelude, each without the
/// trivia at its ends; commas inside parentheses or brackets do not split.
pub fn selectors<'t, 'a>(prelude: &'t [Token<'a>]) -> (r: Vec<&'t [Token<'a>]>)
    ensures
        r@.len() == selectors_spec(prelude@).len(),
        forall|g: int| #![trigger r@[g]] 0 <= g < r@.len() ==> {
            let (a, b) = selectors_spec(prelude@)[g];
            r@[g]@ == prelude@.subrange(a, b)
        },
{
    // The raw groups between top-level commas.
    let len = prelude.len();
    let mut groups: Vec<(usize, usize)> = Vec::new();
    let mut start: usize = 0;
    let mut depth: i128 = 0;
    let mut k: usize = 0;
    let ghost all = split_from(prelude@, 0, 0, 0);
    while k < len
        invariant
            start <= k <= len == prelude@.len(),
            0 <= depth <= k,
            groups@.map_values(|p: (usize, usize)| (p.0 as int, p.1 as int)) + split_from(
                prelude@,
                k as int,
                start as int,
                depth as int,
            ) == all,
        decreases len - k,
    {
        let ghost before = groups@;
        let comma = match prelude[k] {
            Token::Comma => true,
            _ => false,
        };
        if comma && depth == 0 {
            groups.push((start, k));
            assert(groups@.map_values(|p: (usize, usize)| (p.0 as int, p.1 as int)) =~= before.map_values(
                |p: (usize, usize)| (p.0 as int, p.1 as int),
            ).push((start as int, k as int)));
            assert(groups@.map_values(|p: (usize, usize)| (p.0 as int, p.1 as int)) + split_from(
                prelude@,
                k + 1,
                k + 1,
                depth as int,
            ) =~= before.map_values(|p: (usize, usize)| (p.0 as int, p.1 as int)) + split_from(
                prelude@,
                k as int,
                start as int,
                depth as int,
            ));
            start = k + 1;
        } else {
            let d = depth + depth_delta(&prelude[k]) as i128;
            depth = if d < 0 { 0 } else { d };
        }
        k += 1;
    }
    let ghost before = groups@;
    groups.push((start, len));
    assert(groups@.map_values(|p: (usize, usize)| (p.0 as int, p.1 as int)) =~= all);
    proof { lemma_split_from(prelude@, 0, 0, 0); }
    // Trimmed, the empty ones left out.
    let mut out: Vec<&'t [Token<'a>]> = Vec::new();
    let ghost spans: Seq<(int, int)> = Seq::empty();
    let mut g: usize = 0;
    while g < groups.len()
        invariant
            g <= groups@.len(),
            all == groups@.map_values(|p: (usize, usize)| (p.0 as int, p.1 as int)),
            forall|j: int| 0 <= j < all.len() ==> 0 <= (#[trigger] all[j]).0 <= all[j].1
                <= prelude@.len(),
            spans + selectors_from(prelude@, all, g as int) == selectors_spec(prelude@),
            out@.len() == spans.len(),
            forall|j: int| #![trigger out@[j]] 0 <= j < out@.len() ==> out@[j]@ == prelude@.subrange(
                spans[j].0,
                spans[j].1,
            ),
        decreases groups@.len() - g,
    {
        let (a, b) = groups[g];
        assert(all[g as int] == (a as int, b as int));
        let (x, y) = trim_span(prelude, a, b);
        if x < y {
            out.push(vstd::slice::slice_subrange(prelude, x, y));
            proof { spans = spans.push((x as int, y as int)); }
            assert(spans + selectors_from(prelude@, all, g + 1) =~= spans.drop_last() + selectors_from(
                prelude@,
                all,
                g as int,
            ));
        } else {
            assert(selectors_from(prelude@, all, g as int) =~= selectors_from(prelude@, all, g + 1));
        }
        g += 1;
    }
    assert(selectors_from(prelude@, all, g as int) =~= seq![]);
    assert(spans =~= selectors_spec(prelude@));
    out
}

// -- Minified stylesheets stay as they are --------------------------------------

proof fn lemma_ident_end_le(s: Seq<char>, j: int)
    requires
        0 <= j <= s.len(),
    ensures
        ident_end_spec(s, j) <= s.len(),
    decreases s.len() - j,
{
    if j < s.len() {
        let c = s[j];
        if is_ident(c) {
            lemma_ident_end_le(s, j + 1);
        } else if valid_escape_spec(s, j) {
            let e = escape_end_spec(s, j);
            if j < e <= s.len() {
                lemma_ident_end_le(s, e);
            }
        }
    }
}

proof fn lemma_string_end_le(s: Seq<char>, j: int, q: char)
    requires
        0 <= j <= s.len(),
    ensures
        string_end_from(s, j, q).0 <= s.len(),
    decreases s.len() - j,
{
    if j < s.len() {
        let c = s[j];
        if c == q || is_newline(c) {
        } else if valid_escape_spec(s, j) {
            let e = escape_end_spec(s, j);
            if j < e <= s.len() {
                lemma_string_end_le(s, e, q);
            }
        } else if c == '\\' {
            let e = if at_spec(s, j + 1) is Some { j + 2 } else { j + 1 };
            if j < e <= s.len() {
                lemma_string_end_le(s, e, q);
            }
        } else {
            lemma_string_end_le(s, j + 1, q);
        }
    }
}

proof fn lemma_bad_url_end_le(s: Seq<char>, j: int)
    requires
        0 <= j <= s.len(),
    ensures
        bad_url_end_spec(s, j) <= s.len(),
    decreases s.len() - j,
{
    if j < s.len() {
        if s[j] == ')' {
        } else if valid_escape_spec(s, j) {
            let e = escape_end_spec(s, j);
            if j < e <= s.len() {
                lemma_bad_url_end_le(s, e);
            }
        } else {
            lemma_bad_url_end_le(s, j + 1);
        }
    }
}

proof fn lemma_url_end_le(s: Seq<char>, j: int)
    requires
        0 <= j <= s.len(),
    ensures
        url_end_from(s, j).0 <= s.len(),
    decreases s.len() - j,
{
    if j < s.len() {
        let c = s[j];
        if c == ')' {
        } else if c == '"' || c == '\'' || c == '(' {
            lemma_bad_url_end_le(s, j);
        } else if is_ws(c) {
            let w = run_end(s, j, s.len() as int, Class::CssWs);
            lemma_run_end(s, j, s.len() as int, Class::CssWs);
            lemma_bad_url_end_le(s, w);
        } else if valid_escape_spec(s, j) {
            let e = escape_end_spec(s, j);
            if j < e <= s.len() {
                lemma_url_end_le(s, e);
            }
        } else if c == '\\' {
            lemma_bad_url_end_le(s, j);
        } else {
            lemma_url_end_le(s, j + 1);
        }
    }
}

proof fn lemma_numeric_end_le(s: Seq<char>, i: int)
    requires
        0 <= i < s.len(),
    ensures
        numeric_end_spec(s, i) <= s.len(),
{
    let len = s.len() as int;
    let signed = if at_spec(s, i) == Some('+') || at_spec(s, i) == Some('-') { i + 1 } else { i };
    lemma_run_end(s, signed, len, Class::Digit);
    let whole = run_end(s, signed, len, Class::Digit);
    if whole + 1 < len {
        lemma_run_end(s, whole + 1, len, Class::Digit);
    }
    let frac = number_end_spec(s, i);
    let frac0 = if at_spec(s, whole) == Some('.') && (at_spec(s, whole + 1) matches Some(c) && is_ascii_digit(c)) {
        run_end(s, whole + 1, len, Class::Digit)
    } else {
        whole
    };
    if frac0 + 1 < len {
        lemma_run_end(s, frac0 + 1, len, Class::Digit);
    }
    if frac0 + 2 < len {
        lemma_run_end(s, frac0 + 2, len, Class::Digit);
    }
    assert(frac <= len);
    if starts_ident_spec(s, frac) {
        lemma_ident_end_le(s, frac);
    }
}

proof fn lemma_ident_like_le(s: Seq<char>, i: int)
    requires
        0 <= i < s.len(),
    ensures
        ident_like_spec(s, i).1 <= s.len(),
{
    let end = ident_end_spec(s, i);
    lemma_ident_end_le(s, i);
    if at_spec(s, end) == Some('(') {
        lemma_run_end(s, end + 1, s.len() as int, Class::CssWs);
        let body = run_end(s, end + 1, s.len() as int, Class::CssWs);
        lemma_url_end_le(s, body);
    }
}

/// Every token ends after it starts and within the text.
proof fn lemma_token_within(s: Seq<char>, i: int)
    requires
        0 <= i < s.len(),
    ensures
        token_at_spec(s, i) matches Some((k, e)) && i < e <= s.len(),
{
    lemma_token_progress(s, i);
    let c = s[i];
    let len = s.len() as int;
    if is_ws(c) {
        lemma_run_end(s, i, len, Class::CssWs);
    } else if c == '/' && at_spec(s, i + 1) == Some('*') {
        reveal_strlit("*/");
        crate::text::lemma_find_pat_bounds(s, i + 2, len, "*/"@);
    } else if c == '"' || c == '\'' {
        lemma_string_end_le(s, i + 1, c);
    } else if c == '#' {
        lemma_ident_end_le(s, i + 1);
    } else if c == '@' && starts_ident_spec(s, i + 1) {
        lemma_ident_end_le(s, i + 1);
    } else if c == '(' || c == ')' || c == '[' || c == ']' || c == '{' || c == '}' || c == ','
        || c == ':' || c == ';' {
    } else if (c == '+' || c == '-' || c == '.') && starts_number_spec(s, i) {
        lemma_numeric_end_le(s, i);
    } else if c == '-' && starts_ident_spec(s, i) {
        lemma_ident_like_le(s, i);
    } else if c == '\\' && valid_escape_spec(s, i) {
        lemma_ident_like_le(s, i);
    } else if is_ascii_digit(c) {
        lemma_numeric_end_le(s, i);
    } else if is_ident_start(c) {
        lemma_ident_like_le(s, i);
    }
}

/// The texts of the tokens from `i` on, one after the other, are the text
/// from `i` on.
proof fn lemma_tokens_tile(s: Seq<char>, i: int)
    requires
        0 <= i <= s.len(),
    ensures
        ({
            let ts = tokens_from(s, i);
            Seq::new(ts.len(), |k: int| s.subrange(ts[k].1, ts[k].2)).flatten() == s.subrange(i, s.len() as int)
        }),
    decreases s.len() - i,
{
    let ts = tokens_from(s, i);
    let parts = Seq::new(ts.len(), |k: int| s.subrange(ts[k].1, ts[k].2));
    if i == s.len() {
        assert(token_at_spec(s, i) is None);
        assert(parts =~= Seq::<Seq<char>>::empty());
        assert(s.subrange(i, i) =~= Seq::<char>::empty());
    } else {
        lemma_token_within(s, i);
        let (k, e) = token_at_spec(s, i)->Some_0;
        lemma_tokens_tile(s, e);
        let rest = tokens_from(s, e);
        assert(ts == seq![(k, i, e)] + rest);
        let rparts = Seq::new(rest.len(), |j: int| s.subrange(rest[j].1, rest[j].2));
        assert(parts.drop_first() =~= rparts);
        assert(parts[0] == s.subrange(i, e));
        assert(parts.flatten() == parts[0] + parts.drop_first().flatten());
        assert(s.subrange(i, e) + s.subrange(e, s.len() as int) =~= s.subrange(i, s.len() as int));
    }
}

proof fn lemma_keep_all(ts: Seq<Tok>, k: int, keep: spec_fn(int) -> bool)
    requires
        0 <= k <= ts.len(),
        forall|j: int| k <= j < ts.len() ==> #[trigger] keep(j),
    ensures
        keep_from(ts, k, keep) == ts.subrange(k, ts.len() as int),
    decreases ts.len() - k,
{
    if k < ts.len() {
        lemma_keep_all(ts, k + 1, keep);
        assert(keep(k));
        assert(ts.subrange(k, ts.len() as int) =~= seq![ts[k]] + ts.subrange(k + 1, ts.len() as int));
    } else {
        assert(ts.subrange(k, ts.len() as int) =~= Seq::<Tok>::empty());
    }
}

proof fn lemma_no_lt_escape(raw: Seq<char>)
    requires
        !raw.contains('<'),
    ensures
        escape_lt_spec(raw) == raw,
        bare_lt_spec(raw) == raw,
{
    lemma_flatten_singletons(raw);
    assert(raw.map_values(|c: char| if c == '<' { "\\3c "@ } else { seq![c] }) =~= raw.map_values(
        |c: char| seq![c],
    )) by {
        assert forall|j: int| 0 <= j < raw.len() implies raw[j] != '<' by {
            if raw[j] == '<' {
                assert(raw.contains('<'));
            }
        }
    }
    assert(raw.map_values(|c: char| if c == '<' { "3c "@ } else { seq![c] }) =~= raw.map_values(
        |c: char| seq![c],
    )) by {
        assert forall|j: int| 0 <= j < raw.len() implies raw[j] != '<' by {
            if raw[j] == '<' {
                assert(raw.contains('<'));
            }
        }
    }
}

/// Whether `css` holds nothing minifying drops: no comment and no `;`, no `<`,
/// no whitespace at either end, and whitespace only as one run between two
/// tokens, where the one before is none of `{ } : ,` and the one after none of
/// `{ } ,`.
pub open spec fn settled(css: Seq<char>) -> bool {
    let ts = toks_of(css);
    &&& !css.contains('<')
    &&& css.len() > 0 ==> !crate::text::is_whitespace(css[0]) && !crate::text::is_whitespace(css.last())
    &&& forall|k: int| 0 <= k < ts.len() ==> (#[trigger] ts[k]).0 != Kind::Comment && ts[k].0 != Kind::Semicolon
    &&& forall|k: int| 0 <= k < ts.len() && (#[trigger] ts[k]).0 == Kind::Whitespace ==> {
        &&& 0 < k < ts.len() - 1
        &&& ts[k - 1].0 != Kind::Whitespace
        &&& ts[k - 1].0 != Kind::OpenCurly && ts[k - 1].0 != Kind::CloseCurly
        &&& ts[k - 1].0 != Kind::Colon && ts[k - 1].0 != Kind::Comma
        &&& ts[k + 1].0 != Kind::OpenCurly && ts[k + 1].0 != Kind::CloseCurly && ts[k + 1].0 != Kind::Comma
    }
}

/// Minifying takes out only what says nothing: a stylesheet with nothing of
/// that kind left comes out exactly as it went in. So whitespace between two
/// tokens that are not punctuation, such as the descendant combinator in
/// `.post .title`, is never removed.
pub proof fn lemma_settled_css_is_kept(css: Seq<char>)
    requires
        settled(css),
    ensures
        minify_spec(css) == css,
{
    let tf = tokens_from(css, 0);
    let ts = toks_of(css);
    let n = ts.len() as int;
    lemma_spans_fit(css, 0);
    lemma_tokens_tile(css, 0);
    assert(normalized(ts) =~= ts);
    lemma_keep_all(ts, 0, |k: int| dedup_keep(ts, k));
    assert(ts.subrange(0, n) =~= ts);
    assert(deduped(ts) == ts);
    lemma_keep_all(ts, 0, |k: int| trim_keep(ts, k));
    assert(semis_trimmed(ts) == ts);
    lemma_keep_all(ts, 0, |k: int| ws_keep(ts, k));
    assert(ws_kept(ts) == ts);
    assert(Seq::new(ts.len(), |k: int| piece(ts, k)) =~= Seq::new(tf.len(), |k: int| css.subrange(tf[k].1, tf[k].2))) by {
        assert forall|k: int| 0 <= k < n implies piece(ts, k) == css.subrange(tf[k].1, tf[k].2) by {
            let (kind, a, e) = tf[k];
            let text = css.subrange(a, e);
            assert(ts[k] == (kind, text));
            assert(!text.contains('<')) by {
                if text.contains('<') {
                    let j = choose|j: int| 0 <= j < text.len() && text[j] == '<';
                    assert(css[a + j] == '<');
                    assert(css.contains('<'));
                }
            }
            lemma_no_lt_escape(text);
            if kind == Kind::Delim('<') {
                assert(css[a] == '<');
                assert(css.contains('<'));
            }
        }
    }
    assert(pieces(ts) == css.subrange(0, css.len() as int));
    assert(css.subrange(0, css.len() as int) =~= css);
    if css.len() > 0 {
        assert(crate::text::trim_start_pos(css, 0, css.len() as int) == 0);
        assert(crate::text::trim_end_pos(css, 0, css.len() as int) == css.len());
    }
    assert(trimmed(css) =~= css);
}

} // verus!
