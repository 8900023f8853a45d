//! A strict subset of YAML 1.2.2 <https://yaml.org/spec/1.2.2/>
//!
//! Deliberately missing because I don't want them: block scalars, flow
//! mappings, anchors, aliases, tags, merge keys, directives, document markers,
//! nested mappings, duplicate keys, unknown keys, and tabs for indentation.
use std::borrow::Cow;
use vstd::prelude::*;

use crate::css::{char_from_u32, hex_digit, hex_value, lemma_hex_value_bound, pow16};
use crate::text::{
    alnum, alpha, at_pat, chars_of, debug_str, find_char, find_char_spec, find_pat,
    is_ascii_alnum, is_ascii_alpha, is_ascii_hex, lemma_find_char_bounds, lemma_trim_end,
    push_char, push_range, push_str, range_string, starts_at, str_debug, trim_end, trim_end_pos,
    trim_start, trim_start_pos, hex,
};

verus! {

#[derive(Debug, PartialEq, Eq)]
pub struct Error {
    pub line: usize,
    pub msg: String,
}

/// An error as plain values: line and message.
pub type ErrSpec = (int, Seq<char>);

impl Error {
    /// `line N: message`.
    pub fn describe(&self) -> (r: String)
        ensures
            r@ == "line "@ + crate::text::decimal(self.line as nat) + ": "@ + self.msg@,
    {
        let mut out = String::new();
        push_str(&mut out, "line ");
        crate::text::push_decimal(&mut out, self.line as u64);
        push_str(&mut out, ": ");
        push_str(&mut out, self.msg.as_str());
        out
    }
}

fn err(line: usize, msg: &str) -> (r: Error)
    ensures
        r.line == line,
        r.msg@ == msg@,
{
    Error { line, msg: msg.to_owned() }
}

#[derive(Debug, PartialEq, Eq)]
pub enum Value<'a> {
    Scalar(Cow<'a, str>),
    List(Vec<Cow<'a, str>>),
}

/// A scalar as plain values: its text, and whether it borrows the input.
pub type ScalarSpec = (Seq<char>, bool);

pub enum ValueSpec {
    Scalar(ScalarSpec),
    List(Seq<ScalarSpec>),
}

pub open spec fn cow_view(c: Cow<str>) -> ScalarSpec {
    match c {
        Cow::Borrowed(b) => (b@, true),
        Cow::Owned(o) => (o@, false),
    }
}

pub open spec fn cows_view(v: Seq<Cow<str>>) -> Seq<ScalarSpec> {
    v.map_values(|c: Cow<str>| cow_view(c))
}

pub open spec fn value_view(v: Value) -> ValueSpec {
    match v {
        Value::Scalar(c) => ValueSpec::Scalar(cow_view(c)),
        Value::List(items) => ValueSpec::List(cows_view(items@)),
    }
}

// -- Lines --------------------------------------------------------------------

/// Where the line that starts at `a` ends: its `\n`, or the end.
pub open spec fn line_end(s: Seq<char>, a: int) -> int {
    match find_char_spec(s, a, s.len() as int, '\n') {
        Some(k) => k,
        None => s.len() as int,
    }
}

/// The end of the line's text: `str::lines` drops a `\r` before its `\n`, and
/// one more `\r` is stripped after that.
pub open spec fn text_end(s: Seq<char>, a: int) -> int {
    let nl = line_end(s, a);
    let e1 = if nl < s.len() && nl > a && s[nl - 1] == '\r' { nl - 1 } else { nl };
    if e1 > a && s[e1 - 1] == '\r' { e1 - 1 } else { e1 }
}

/// A top-level key and what follows it: its line, the key, the text after the
/// `:`, and the block-list items under it, each with its line.
pub type GroupSpec = (int, (int, int), (int, int), Seq<(int, (int, int))>);

pub open spec fn is_key(k: Seq<char>) -> bool {
    &&& k.len() > 0
    &&& (is_ascii_alpha(k[0]) || k[0] == '_')
    &&& forall|i: int| 1 <= i < k.len() ==> (is_ascii_alnum(#[trigger] k[i]) || k[i] == '_' || k[i]
        == '-')
}

/// Whether a group among `gs` has the key `k`.
pub open spec fn has_key(s: Seq<char>, gs: Seq<GroupSpec>, k: Seq<char>) -> bool {
    exists|j: int| 0 <= j < gs.len() && s.subrange((#[trigger] gs[j]).1.0, gs[j].1.1) == k
}

pub open spec fn msg_block() -> Seq<char> {
    "block scalars are not supported; use a quoted single-line string"@
}

/// Sorts the lines from the one starting at `a` (line number `line`) into
/// groups, or the first line that is not allowed.
pub open spec fn group_from(s: Seq<char>, a: int, line: int, gs: Seq<GroupSpec>) -> Result<
    Seq<GroupSpec>,
    ErrSpec,
>
    decreases s.len() + 1 - a,
{
    if !(0 <= a < s.len()) {
        Ok(gs)
    } else {
        let nl = line_end(s, a);
        let e = text_end(s, a);
        let b = trim_start_pos(s, a, e);
        let next = nl + 1;
        if !(a <= b <= e <= nl < next && nl <= s.len()) {
            Ok(gs)
        } else if b == e || s[b] == '#' {
            group_from(s, next, line + 1, gs)
        } else if find_char_spec(s, a, b, '\t') is Some {
            Err((line, "tabs may not be used for indentation"@))
        } else if at_pat(s, b, e, "---"@) || at_pat(s, b, e, "..."@) {
            Err((line, "unexpected document marker inside the frontmatter"@))
        } else if s[b] == '%' {
            Err((line, "directives (%YAML, %TAG) are not supported"@))
        } else if at_pat(s, b, e, "<<:"@) {
            Err((line, "merge keys are not supported"@))
        } else if (e - b == 1 && s[b] == '-') || at_pat(s, b, e, "- "@) {
            let item = trim_start_pos(s, b + 1, e);
            if item == e {
                Err((line, "empty list item"@))
            } else if gs.len() == 0 {
                Err((line, "list item before any key"@))
            } else {
                let g = gs.last();
                let g2 = (g.0, g.1, g.2, g.3.push((line, (item, e))));
                group_from(s, next, line + 1, gs.drop_last().push(g2))
            }
        } else if b > a {
            Err((line, "nested mappings are not supported"@))
        } else {
            match find_char_spec(s, b, e, ':') {
                None => Err((line, "expected \"key: value\""@)),
                Some(colon) => {
                    let key = s.subrange(b, colon);
                    if !is_key(key) {
                        Err((line, str_debug(key) + " is not a valid key"@))
                    } else if has_key(s, gs, key) {
                        Err((line, "duplicate key "@ + str_debug(key)))
                    } else {
                        let t = trim_start_pos(s, colon + 1, e);
                        if t < e && (s[t] == '|' || s[t] == '>') {
                            Err((line, msg_block()))
                        } else {
                            group_from(
                                s,
                                next,
                                line + 1,
                                gs.push((line, (b, colon), (colon + 1, e), seq![])),
                            )
                        }
                    }
                },
            }
        }
    }
}

// -- Scalars ------------------------------------------------------------------

/// A scalar, and where the text after it starts.
pub type ScalarAt = (ScalarSpec, int);

/// §7.3.3. A plain scalar `s[i..e]`: it ends at a `#` that follows whitespace,
/// and may not contain `": "`.
pub open spec fn comment_at(s: Seq<char>, i: int, e: int, j: int) -> int
    decreases e - j,
{
    if !(i <= j < e) || e > s.len() || i < 0 {
        e
    } else if s[j] == '#' && j > i && (s[j - 1] == ' ' || s[j - 1] == '\t') {
        j
    } else {
        comment_at(s, i, e, j + 1)
    }
}

pub open spec fn plain_spec(s: Seq<char>, i: int, e: int) -> Result<ScalarAt, Seq<char>> {
    let end = comment_at(s, i, e, i);
    let v = trim_end_pos(s, i, end);
    let value = s.subrange(i, v);
    if find_pat(s, i, v, ": "@) is Some {
        Err("unquoted value contains \": \"; quote it: "@ + str_debug(value))
    } else if v == i {
        Err("expected a value"@)
    } else {
        Ok(((value, true), end))
    }
}

/// §7.3.2, from `j` on, with `acc` read so far: the only escape is `''`.
pub open spec fn single_from(s: Seq<char>, start: int, j: int, e: int, acc: Seq<char>, doubled: bool) -> Result<
    ScalarAt,
    Seq<char>,
>
    decreases e - j,
{
    if !(0 <= j < e && e <= s.len()) {
        Err("unterminated quoted string"@)
    } else if s[j] != '\'' {
        single_from(s, start, j + 1, e, acc.push(s[j]), doubled)
    } else if j + 1 < e && s[j + 1] == '\'' {
        single_from(s, start, j + 2, e, acc.push('\''), true)
    } else {
        Ok(((acc, !doubled), j + 1))
    }
}

/// The character a simple escape stands for.
pub open spec fn simple_escape(k: char) -> Option<char> {
    if k == '"' {
        Some('"')
    } else if k == '\\' {
        Some('\\')
    } else if k == '/' {
        Some('/')
    } else if k == ' ' {
        Some(' ')
    } else if k == '0' {
        Some('\0')
    } else if k == 'a' {
        Some('\u{7}')
    } else if k == 'b' {
        Some('\u{8}')
    } else if k == 't' {
        Some('\t')
    } else if k == 'n' {
        Some('\n')
    } else if k == 'v' {
        Some('\u{b}')
    } else if k == 'f' {
        Some('\u{c}')
    } else if k == 'r' {
        Some('\r')
    } else if k == 'e' {
        Some('\u{1b}')
    } else {
        None
    }
}

pub open spec fn all_hex(b: Seq<char>) -> bool {
    forall|k: int| 0 <= k < b.len() ==> is_ascii_hex(#[trigger] b[k])
}

/// What `u32::from_str_radix(h, 16)` gives: an optional `+`, then hex digits.
pub open spec fn hex_u32(h: Seq<char>) -> Option<nat> {
    let body = if h.len() > 0 && h[0] == '+' { h.drop_first() } else { h };
    if body.len() > 0 && all_hex(body) && hex_value(body) <= u32::MAX {
        Some(hex_value(body))
    } else {
        None
    }
}

pub open spec fn is_scalar_value(n: nat) -> bool {
    n <= 0x10FFFF && !(0xD800 <= n && n <= 0xDFFF)
}

/// §5.7. The escape whose backslash is at `j`: the character and how many
/// characters of source it takes.
pub open spec fn escape_spec(s: Seq<char>, j: int, e: int) -> Result<(char, int), Seq<char>> {
    if !(0 <= j && j + 1 < e && e <= s.len()) {
        Err("unterminated escape sequence"@)
    } else {
        let k = s[j + 1];
        match simple_escape(k) {
            Some(c) => Ok((c, 2)),
            None => if k == 'x' || k == 'u' || k == 'U' {
                let digits: int = if k == 'x' { 2 } else if k == 'u' { 4 } else { 8 };
                let hex = if j + 2 + digits <= e { s.subrange(j + 2, j + 2 + digits) } else { seq![] };
                match hex_u32(hex) {
                    Some(n) if is_scalar_value(n) => Ok(((n as u32) as char, 2 + digits)),
                    _ => Err("invalid \\"@ + seq![k] + " escape: "@ + str_debug(hex)),
                }
            } else {
                Err("unknown escape sequence \"\\"@ + seq![k] + "\""@)
            },
        }
    }
}

/// §7.3.1, from `j` on, with `acc` decoded so far.
pub open spec fn double_from(s: Seq<char>, start: int, j: int, e: int, acc: Seq<char>) -> Result<
    ScalarAt,
    Seq<char>,
>
    decreases e - j,
{
    if !(0 <= j < e && e <= s.len()) {
        Err("unterminated quoted string"@)
    } else if s[j] == '"' {
        Ok(((acc, !s.subrange(start + 1, j).contains('\\')), j + 1))
    } else if s[j] == '\\' {
        match escape_spec(s, j, e) {
            Err(m) => Err(m),
            Ok((c, w)) => if w > 0 {
                double_from(s, start, j + w, e, acc.push(c))
            } else {
                Err(seq![])
            },
        }
    } else {
        double_from(s, start, j + 1, e, acc.push(s[j]))
    }
}

/// A scalar starting at `i`, its form told by its first character.
pub open spec fn scalar_spec(s: Seq<char>, i: int, e: int) -> Result<ScalarAt, Seq<char>> {
    if !(0 <= i < e && e <= s.len()) {
        Err("expected a value"@)
    } else {
        let c = s[i];
        if c == '"' {
            double_from(s, i, i + 1, e, seq![])
        } else if c == '\'' {
            single_from(s, i, i + 1, e, seq![], false)
        } else if c == '|' || c == '>' {
            Err(msg_block())
        } else if c == '&' || c == '*' {
            Err("anchors and aliases are not supported"@)
        } else if c == '!' {
            Err("tags are not supported"@)
        } else if c == '{' {
            Err("flow mappings are not supported"@)
        } else if c == '[' {
            Err("a list is not valid here"@)
        } else {
            plain_spec(s, i, e)
        }
    }
}

/// The first `,` or `]` in `s[i..e]`.
pub open spec fn item_end(s: Seq<char>, i: int, e: int) -> Option<int>
    decreases e - i,
{
    if !(0 <= i < e && e <= s.len()) {
        None
    } else if s[i] == ',' || s[i] == ']' {
        Some(i)
    } else {
        item_end(s, i + 1, e)
    }
}

pub open spec fn msg_unterminated_flow() -> Seq<char> {
    "unterminated flow sequence"@
}

/// A flow sequence from `rest` on, with the items read so far.
pub open spec fn flow_from(s: Seq<char>, rest: int, e: int, items: Seq<ScalarSpec>) -> Result<
    (Seq<ScalarSpec>, int),
    Seq<char>,
>
    decreases e - rest,
{
    if !(0 <= rest <= e && e <= s.len()) {
        Err(msg_unterminated_flow())
    } else if rest < e && s[rest] == ']' {
        Ok((items, rest + 1))
    } else if rest == e {
        Err(msg_unterminated_flow())
    } else {
        let got: Result<ScalarAt, Seq<char>> = if s[rest] == '"' {
            double_from(s, rest, rest + 1, e, seq![])
        } else if s[rest] == '\'' {
            single_from(s, rest, rest + 1, e, seq![], false)
        } else {
            match item_end(s, rest, e) {
                None => Err(msg_unterminated_flow()),
                Some(end) => Ok(((s.subrange(rest, trim_end_pos(s, rest, end)), true), end)),
            }
        };
        match got {
            Err(m) => Err(m),
            Ok((v, tail)) => {
                let items2 = if v.0.len() > 0 { items.push(v) } else { items };
                let r = trim_start_pos(s, tail, e);
                if !(rest <= tail <= e) {
                    Err(seq![])
                } else if r < e && s[r] == ',' {
                    let n = trim_start_pos(s, r + 1, e);
                    if !(rest < n <= e) {
                        Err(seq![])
                    } else {
                        flow_from(s, n, e, items2)
                    }
                } else if r < e && s[r] == ']' {
                    Ok((items2, r + 1))
                } else {
                    Err("expected \",\" or \"]\" in flow sequence"@)
                }
            },
        }
    }
}

// -- Values -------------------------------------------------------------------

/// The text after the value `s[rest..e]` may only be a comment.
pub open spec fn end_of_line_spec(s: Seq<char>, rest: int, e: int) -> Option<Seq<char>> {
    let r = trim_start_pos(s, rest, e);
    if r == e || s[r] == '#' {
        None
    } else {
        Some("unexpected text after the value: "@ + str_debug(s.subrange(r, e)))
    }
}

/// The values of block-list items `items[k..]`.
pub open spec fn items_from(s: Seq<char>, items: Seq<(int, (int, int))>, k: int) -> Result<
    Seq<ScalarSpec>,
    ErrSpec,
>
    decreases items.len() - k,
{
    if !(0 <= k < items.len()) {
        Ok(seq![])
    } else {
        let (line, (a, b)) = items[k];
        match scalar_spec(s, a, b) {
            Err(m) => Err((line, m)),
            Ok((v, _)) => match items_from(s, items, k + 1) {
                Err(e) => Err(e),
                Ok(rest) => Ok(seq![v] + rest),
            },
        }
    }
}

/// What a group's key is bound to: nothing, a scalar, or a list.
#[verifier::opaque]
pub open spec fn value_of_spec(s: Seq<char>, g: GroupSpec) -> Result<Option<ValueSpec>, ErrSpec> {
    let (line, (k0, k1), (i0, e), items) = g;
    let inline = trim_start_pos(s, i0, e);
    let has_inline = inline < e && s[inline] != '#';
    if has_inline && items.len() > 0 {
        Err(
            (
                line,
                "key "@ + str_debug(s.subrange(k0, k1)) + " has both an inline value and a block list"@,
            ),
        )
    } else if items.len() > 0 {
        match items_from(s, items, 0) {
            Err(e) => Err(e),
            Ok(vs) => Ok(Some(ValueSpec::List(vs))),
        }
    } else if !has_inline {
        Ok(None)
    } else if !(i0 < e && (s[i0] == ' ' || s[i0] == '\t')) {
        Err((line, "expected a space after \":\""@))
    } else {
        let got: Result<(ValueSpec, int), Seq<char>> = if s[inline] == '[' {
            match flow_from(s, trim_start_pos(s, inline + 1, e), e, seq![]) {
                Err(m) => Err(m),
                Ok((vs, rest)) => Ok((ValueSpec::List(vs), rest)),
            }
        } else {
            match scalar_spec(s, inline, e) {
                Err(m) => Err(m),
                Ok((v, rest)) => Ok((ValueSpec::Scalar(v), rest)),
            }
        };
        match got {
            Err(m) => Err((line, m)),
            Ok((v, rest)) => match end_of_line_spec(s, rest, e) {
                Some(m) => Err((line, m)),
                None => Ok(Some(v)),
            },
        }
    }
}

/// The bindings of `gs[k..]`, in order: unless `open`, a key not in `allowed`
/// is an error; a key bound to nothing is left out.
pub open spec fn bindings_from(s: Seq<char>, gs: Seq<GroupSpec>, allowed: Seq<Seq<char>>, open: bool, k: int) -> Result<
    Seq<(Seq<char>, ValueSpec)>,
    ErrSpec,
>
    decreases gs.len() - k,
{
    if !(0 <= k < gs.len()) {
        Ok(seq![])
    } else {
        let g = gs[k];
        let key = s.subrange(g.1.0, g.1.1);
        if !open && !allowed.contains(key) {
            Err((g.0, "unknown key "@ + str_debug(key)))
        } else {
            match value_of_spec(s, g) {
                Err(e) => Err(e),
                Ok(v) => match bindings_from(s, gs, allowed, open, k + 1) {
                    Err(e) => Err(e),
                    Ok(rest) => match v {
                        None => Ok(rest),
                        Some(x) => Ok(seq![(key, x)] + rest),
                    },
                },
            }
        }
    }
}

/// What `front` binds; unless `open`, every key must be one of `allowed`.
pub open spec fn bindings_spec(front: Seq<char>, allowed: Seq<Seq<char>>, open: bool) -> Result<
    Seq<(Seq<char>, ValueSpec)>,
    ErrSpec,
> {
    match group_from(front, 0, 1, seq![]) {
        Err(e) => Err(e),
        Ok(gs) => bindings_from(front, gs, allowed, open, 0),
    }
}

/// What `parse` reads from `front`: every key must be one of `allowed`.
pub open spec fn parse_spec(front: Seq<char>, allowed: Seq<Seq<char>>) -> Result<
    Seq<(Seq<char>, ValueSpec)>,
    ErrSpec,
> {
    bindings_spec(front, allowed, false)
}

/// What `parse_any` reads from `front`: any key.
pub open spec fn parse_any_spec(front: Seq<char>) -> Result<Seq<(Seq<char>, ValueSpec)>, ErrSpec> {
    bindings_spec(front, seq![], true)
}

pub open spec fn strs_view(v: Seq<&str>) -> Seq<Seq<char>> {
    v.map_values(|x: &str| x@)
}

pub open spec fn bindings_view(v: Seq<(&str, Value)>) -> Seq<(Seq<char>, ValueSpec)> {
    v.map_values(|b: (&str, Value)| (b.0@, value_view(b.1)))
}


// -- Reading ------------------------------------------------------------------

/// `s[a0..a1]` and `s[b0..b1]` hold the same characters.
fn ranges_eq(s: &[char], a0: usize, a1: usize, b0: usize, b1: usize) -> (r: bool)
    requires
        a0 <= a1 <= s@.len(),
        b0 <= b1 <= s@.len(),
    ensures
        r == (s@.subrange(a0 as int, a1 as int) == s@.subrange(b0 as int, b1 as int)),
{
    if a1 - a0 != b1 - b0 {
        assert(s@.subrange(a0 as int, a1 as int).len() != s@.subrange(b0 as int, b1 as int).len());
        return false;
    }
    let n = a1 - a0;
    let mut k: usize = 0;
    while k < n
        invariant
            a0 <= a1 <= s@.len(),
            b0 <= b1 <= s@.len(),
            n == a1 - a0 == b1 - b0,
            k <= n,
            forall|j: int| 0 <= j < k ==> s@.subrange(a0 as int, a1 as int)[j] == #[trigger] s@.subrange(
                b0 as int,
                b1 as int,
            )[j],
        decreases n - k,
    {
        if s[a0 + k] != s[b0 + k] {
            assert(s@.subrange(a0 as int, a1 as int)[k as int] != s@.subrange(b0 as int, b1 as int)[k as int]);
            return false;
        }
        k += 1;
    }
    assert(s@.subrange(a0 as int, a1 as int) =~= s@.subrange(b0 as int, b1 as int));
    true
}

struct Group {
    line: usize,
    key: (usize, usize),
    inline: (usize, usize),
    items: Vec<(usize, (usize, usize))>,
}

pub open spec fn items_view(v: Seq<(usize, (usize, usize))>) -> Seq<(int, (int, int))> {
    v.map_values(|t: (usize, (usize, usize))| (t.0 as int, (t.1.0 as int, t.1.1 as int)))
}

spec fn group_view(g: Group) -> GroupSpec {
    (
        g.line as int,
        (g.key.0 as int, g.key.1 as int),
        (g.inline.0 as int, g.inline.1 as int),
        items_view(g.items@),
    )
}

spec fn groups_view(v: Seq<Group>) -> Seq<GroupSpec> {
    v.map_values(|g: Group| group_view(g))
}

spec fn group_ok(g: Group, len: int) -> bool {
    &&& g.key.0 <= g.key.1 <= len
    &&& g.inline.0 <= g.inline.1 <= len
    &&& forall|k: int| 0 <= k < g.items@.len() ==> (#[trigger] g.items@[k]).1.0 <= g.items@[k].1.1
        <= len
}

/// The end of the text of the line that starts at `a`, and where the line ends.
fn line_bounds(s: &[char], a: usize) -> (r: (usize, usize))
    requires
        a < s@.len(),
    ensures
        r.0 == text_end(s@, a as int),
        r.1 == line_end(s@, a as int),
        a <= r.0 <= r.1 <= s@.len(),
{
    proof { lemma_find_char_bounds(s@, a as int, s@.len() as int, '\n'); }
    let nl = match find_char(s, a, s.len(), '\n') {
        Some(k) => k,
        None => s.len(),
    };
    let e1 = if nl < s.len() && nl > a && s[nl - 1] == '\r' { nl - 1 } else { nl };
    let e = if e1 > a && s[e1 - 1] == '\r' { e1 - 1 } else { e1 };
    (e, nl)
}

fn is_key_at(s: &[char], a: usize, b: usize) -> (r: bool)
    requires
        a <= b <= s@.len(),
    ensures
        r == is_key(s@.subrange(a as int, b as int)),
{
    let ghost k = s@.subrange(a as int, b as int);
    if a == b || !(alpha(s[a]) || s[a] == '_') {
        return false;
    }
    let mut i = a + 1;
    while i < b
        invariant
            a < i <= b <= s@.len(),
            k == s@.subrange(a as int, b as int),
            forall|j: int| 1 <= j < i - a ==> (is_ascii_alnum(#[trigger] k[j]) || k[j] == '_' || k[j]
                == '-'),
        decreases b - i,
    {
        let c = s[i];
        if !(alnum(c) || c == '_' || c == '-') {
            assert(k[i - a] == c);
            return false;
        }
        assert(k[i - a] == c);
        i += 1;
    }
    true
}

/// Whether a group among `gs` has the key `s[b..colon]`.
fn key_taken(s: &[char], gs: &Vec<Group>, b: usize, colon: usize) -> (r: bool)
    requires
        b <= colon <= s@.len(),
        forall|k: int| 0 <= k < gs@.len() ==> group_ok(#[trigger] gs@[k], s@.len() as int),
    ensures
        r == has_key(s@, groups_view(gs@), s@.subrange(b as int, colon as int)),
{
    let ghost gv = groups_view(gs@);
    let mut j: usize = 0;
    while j < gs.len()
        invariant
            j <= gs@.len(),
            gv == groups_view(gs@),
            b <= colon <= s@.len(),
            forall|k: int| 0 <= k < gs@.len() ==> group_ok(#[trigger] gs@[k], s@.len() as int),
            forall|i: int| 0 <= i < j ==> s@.subrange((#[trigger] gv[i]).1.0, gv[i].1.1)
                != s@.subrange(b as int, colon as int),
        decreases gs@.len() - j,
    {
        assert(group_ok(gs@[j as int], s@.len() as int));
        assert(gv[j as int] == group_view(gs@[j as int]));
        if ranges_eq(s, gs[j].key.0, gs[j].key.1, b, colon) {
            return true;
        }
        j += 1;
    }
    false
}

/// Sorts the lines into groups: a key with its inline text, and the list
/// items under it.
fn group(s: &[char]) -> (r: Result<Vec<Group>, Error>)
    requires
        s@.len() < usize::MAX,
    ensures
        match r {
            Ok(gs) => group_from(s@, 0, 1, seq![]) == Ok::<Seq<GroupSpec>, ErrSpec>(groups_view(gs@))
                && forall|k: int| 0 <= k < gs@.len() ==> group_ok(#[trigger] gs@[k], s@.len() as int),
            Err(e) => group_from(s@, 0, 1, seq![]) == Err::<Seq<GroupSpec>, ErrSpec>(
                (e.line as int, e.msg@),
            ),
        },
{
    let mut gs: Vec<Group> = Vec::new();
    let mut a: usize = 0;
    let mut line: usize = 1;
    assert(groups_view(gs@) =~= Seq::<GroupSpec>::empty());
    while a < s.len()
        invariant
            s@.len() < usize::MAX,
            a <= s@.len() + 1,
            1 <= line <= a + 1,
            group_from(s@, 0, 1, seq![]) == group_from(s@, a as int, line as int, groups_view(gs@)),
            forall|k: int| 0 <= k < gs@.len() ==> group_ok(#[trigger] gs@[k], s@.len() as int),
        decreases s@.len() + 1 - a,
    {
        let ghost gv = groups_view(gs@);
        let (e, nl) = line_bounds(s, a);
        let b = trim_start(s, a, e);
        let next = nl + 1;
        if b == e || s[b] == '#' {
            a = next;
            line += 1;
            continue;
        }
        proof { lemma_find_char_bounds(s@, a as int, b as int, '\t'); }
        if find_char(s, a, b, '\t').is_some() {
            return Err(err(line, "tabs may not be used for indentation"));
        }
        if starts_at(s, b, e, "---") || starts_at(s, b, e, "...") {
            return Err(err(line, "unexpected document marker inside the frontmatter"));
        }
        if s[b] == '%' {
            return Err(err(line, "directives (%YAML, %TAG) are not supported"));
        }
        if starts_at(s, b, e, "<<:") {
            return Err(err(line, "merge keys are not supported"));
        }
        if (e - b == 1 && s[b] == '-') || starts_at(s, b, e, "- ") {
            let item = trim_start(s, b + 1, e);
            if item == e {
                return Err(err(line, "empty list item"));
            }
            if gs.len() == 0 {
                return Err(err(line, "list item before any key"));
            }
            let mut g = gs.pop().unwrap();
            let ghost before = items_view(g.items@);
            g.items.push((line, (item, e)));
            assert(items_view(g.items@) =~= before.push((line as int, (item as int, e as int))));
            let ghost gd = groups_view(gs@);
            gs.push(g);
            assert(gd =~= gv.drop_last());
            assert(groups_view(gs@) =~= gd.push(group_view(g)));
            a = next;
            line += 1;
            continue;
        }
        if b > a {
            return Err(err(line, "nested mappings are not supported"));
        }
        proof { lemma_find_char_bounds(s@, b as int, e as int, ':'); }
        let colon = match find_char(s, b, e, ':') {
            None => return Err(err(line, "expected \"key: value\"")),
            Some(k) => k,
        };
        if !is_key_at(s, b, colon) {
            let k = range_string(s, b, colon);
            let mut msg = debug_str(k.as_str());
            push_str(&mut msg, " is not a valid key");
            return Err(Error { line, msg });
        }
        if key_taken(s, &gs, b, colon) {
            let k = range_string(s, b, colon);
            let mut msg = String::new();
            push_str(&mut msg, "duplicate key ");
            let q = debug_str(k.as_str());
            push_str(&mut msg, q.as_str());
            return Err(Error { line, msg });
        }
        let t = trim_start(s, colon + 1, e);
        if t < e && (s[t] == '|' || s[t] == '>') {
            return Err(err(line, "block scalars are not supported; use a quoted single-line string"));
        }
        let ghost before = groups_view(gs@);
        let items: Vec<(usize, (usize, usize))> = Vec::new();
        assert(items_view(items@) =~= Seq::<(int, (int, int))>::empty());
        gs.push(Group { line, key: (b, colon), inline: (colon + 1, e), items });
        assert(groups_view(gs@) =~= before.push((line as int, (b as int, colon as int), (colon + 1, e as int), seq![])));
        a = next;
        line += 1;
    }
    Ok(gs)
}


pub open spec fn scalar_res_view(r: Result<(Cow<str>, usize), String>) -> Result<ScalarAt, Seq<char>> {
    match r {
        Ok((c, rest)) => Ok((cow_view(c), rest as int)),
        Err(m) => Err(m@),
    }
}

fn plain<'a>(front: &'a str, s: &[char], i: usize, e: usize) -> (r: Result<(Cow<'a, str>, usize), String>)
    requires
        s@ == front@,
        i <= e <= s@.len(),
    ensures
        scalar_res_view(r) == plain_spec(s@, i as int, e as int),
        r matches Ok((_, rest)) ==> i <= rest <= e,
{
    let mut end = i;
    while end < e
        invariant
            i <= end <= e <= s@.len(),
            comment_at(s@, i as int, e as int, i as int) == comment_at(s@, i as int, e as int, end as int),
        ensures
            i <= end <= e,
            comment_at(s@, i as int, e as int, i as int) == end,
        decreases e - end,
    {
        if s[end] == '#' && end > i && (s[end - 1] == ' ' || s[end - 1] == '\t') {
            break;
        }
        end += 1;
    }
    let v = trim_end(s, i, end);
    proof { crate::text::lemma_find_pat_bounds(s@, i as int, v as int, ": "@); }
    if crate::text::find(s, i, v, ": ").is_some() {
        let value = front.substring_char(i, v);
        let mut msg = String::new();
        push_str(&mut msg, "unquoted value contains \": \"; quote it: ");
        let q = debug_str(value);
        push_str(&mut msg, q.as_str());
        return Err(msg);
    }
    if v == i {
        return Err("expected a value".to_owned());
    }
    Ok((Cow::Borrowed(front.substring_char(i, v)), end))
}

fn single<'a>(front: &'a str, s: &[char], i: usize, e: usize) -> (r: Result<(Cow<'a, str>, usize), String>)
    requires
        s@ == front@,
        i < e <= s@.len(),
    ensures
        scalar_res_view(r) == single_from(s@, i as int, i + 1, e as int, seq![], false),
        r matches Ok((_, rest)) ==> i < rest <= e,
{
    let mut out = String::new();
    let mut j = i + 1;
    let mut doubled = false;
    while j < e
        invariant
            i < j <= e <= s@.len(),
            s@ == front@,
            single_from(s@, i as int, i + 1, e as int, seq![], false) == single_from(
                s@,
                i as int,
                j as int,
                e as int,
                out@,
                doubled,
            ),
            !doubled ==> out@ == s@.subrange(i + 1, j as int),
        decreases e - j,
    {
        let c = s[j];
        if c != '\'' {
            push_char(&mut out, c);
            assert(s@.subrange(i + 1, j + 1) =~= s@.subrange(i + 1, j as int).push(c));
            j += 1;
        } else if j + 1 < e && s[j + 1] == '\'' {
            push_char(&mut out, '\'');
            doubled = true;
            j += 2;
        } else {
            if doubled {
                return Ok((Cow::Owned(out), j + 1));
            } else {
                return Ok((Cow::Borrowed(front.substring_char(i + 1, j)), j + 1));
            }
        }
    }
    Err("unterminated quoted string".to_owned())
}

/// The value of the hex digits `s[a..b]`, at most eight of them.
fn hex_at(s: &[char], a: usize, b: usize) -> (r: u64)
    requires
        a <= b <= s@.len(),
        b - a <= 8,
        forall|k: int| a <= k < b ==> is_ascii_hex(#[trigger] s@[k]),
    ensures
        r == hex_value(s@.subrange(a as int, b as int)),
        r < pow16((b - a) as nat),
{
    let mut v: u64 = 0;
    let mut k = a;
    proof { lemma_pow16_mono(0, 8); }
    while k < b
        invariant
            a <= k <= b <= s@.len(),
            b - a <= 8,
            forall|j: int| a <= j < b ==> is_ascii_hex(#[trigger] s@[j]),
            v == hex_value(s@.subrange(a as int, k as int)),
            v < pow16((k - a) as nat),
            pow16((k - a) as nat) <= pow16(8),
        decreases b - k,
    {
        let d = hex_digit(s[k]);
        assert(s@.subrange(a as int, k + 1).drop_last() =~= s@.subrange(a as int, k as int));
        assert(pow16((k + 1 - a) as nat) == 16 * pow16((k - a) as nat));
        assert(pow16(8) == 4294967296) by { reveal_with_fuel(pow16, 9); }
        proof { lemma_pow16_mono((k + 1 - a) as nat, 8); }
        v = v * 16 + d as u64;
        k += 1;
    }
    v
}

proof fn lemma_pow16_mono(a: nat, b: nat)
    requires
        a <= b,
    ensures
        pow16(a) <= pow16(b),
    decreases b,
{
    if a < b {
        lemma_pow16_mono(a, (b - 1) as nat);
    }
}

/// What `u32::from_str_radix(s[a..b], 16)` gives, for at most eight
/// characters.
fn hex_u32_at(s: &[char], a: usize, b: usize) -> (r: Option<u32>)
    requires
        a <= b <= s@.len(),
        b - a <= 8,
    ensures
        match (r, hex_u32(s@.subrange(a as int, b as int))) {
            (Some(x), Some(y)) => x == y,
            (None, None) => true,
            _ => false,
        },
{
    let ghost h = s@.subrange(a as int, b as int);
    let start = if a < b && s[a] == '+' { a + 1 } else { a };
    assert(s@.subrange(start as int, b as int) =~= (if h.len() > 0 && h[0] == '+' { h.drop_first() } else { h }));
    if start == b {
        return None;
    }
    let mut k = start;
    while k < b
        invariant
            a <= start <= k <= b <= s@.len(),
            h == s@.subrange(a as int, b as int),
            s@.subrange(start as int, b as int) == (if h.len() > 0 && h[0] == '+' { h.drop_first() } else { h }),
            forall|j: int| start <= j < k ==> is_ascii_hex(#[trigger] s@[j]),
        decreases b - k,
    {
        if !hex(s[k]) {
            proof {
                let body = if h.len() > 0 && h[0] == '+' { h.drop_first() } else { h };
                assert(body[k - start] == s@[k as int]);
                assert(!is_ascii_hex(body[k - start]));
                assert(!all_hex(body));
            }
            return None;
        }
        k += 1;
    }
    assert forall|j: int| 0 <= j < b - start implies is_ascii_hex(#[trigger] s@.subrange(start as int, b as int)[j]) by {
        assert(is_ascii_hex(s@[start + j]));
    }
    let v = hex_at(s, start, b);
    proof {
        lemma_pow16_mono((b - start) as nat, 8);
        assert(pow16(8) == 4294967296) by { reveal_with_fuel(pow16, 9); }
    }
    Some(v as u32)
}

fn escape(s: &[char], j: usize, e: usize) -> (r: Result<(char, usize), String>)
    requires
        j < e <= s@.len(),
    ensures
        match (r, escape_spec(s@, j as int, e as int)) {
            (Ok((c, w)), Ok((c2, w2))) => c == c2 && w == w2,
            (Err(m), Err(m2)) => m@ == m2,
            _ => false,
        },
        r matches Ok((_, w)) ==> 2 <= w <= 10,
{
    if j + 1 >= e {
        return Err("unterminated escape sequence".to_owned());
    }
    let k = s[j + 1];
    let simple = if k == '"' {
        Some('"')
    } else if k == '\\' {
        Some('\\')
    } else if k == '/' {
        Some('/')
    } else if k == ' ' {
        Some(' ')
    } else if k == '0' {
        Some('\0')
    } else if k == 'a' {
        Some('\u{7}')
    } else if k == 'b' {
        Some('\u{8}')
    } else if k == 't' {
        Some('\t')
    } else if k == 'n' {
        Some('\n')
    } else if k == 'v' {
        Some('\u{b}')
    } else if k == 'f' {
        Some('\u{c}')
    } else if k == 'r' {
        Some('\r')
    } else if k == 'e' {
        Some('\u{1b}')
    } else {
        None
    };
    if let Some(c) = simple {
        return Ok((c, 2));
    }
    if k == 'x' || k == 'u' || k == 'U' {
        let digits: usize = if k == 'x' { 2 } else if k == 'u' { 4 } else { 8 };
        let (h0, h1) = if digits <= e - j - 2 { (j + 2, j + 2 + digits) } else { (j, j) };
        assert(s@.subrange(h0 as int, h1 as int) =~= (if j + 2 + digits <= e { s@.subrange(j + 2, j + 2 + digits) } else { seq![] }));
        if let Some(n) = hex_u32_at(s, h0, h1) {
            if let Some(c) = char_from_u32(n) {
                proof { vstd::utf8::char_u32_cast(c, n); }
                return Ok((c, 2 + digits));
            }
        }
        let mut msg = String::new();
        push_str(&mut msg, "invalid \\");
        push_char(&mut msg, k);
        push_str(&mut msg, " escape: ");
        let hs = range_string(s, h0, h1);
        let q = debug_str(hs.as_str());
        push_str(&mut msg, q.as_str());
        return Err(msg);
    }
    let mut msg = String::new();
    push_str(&mut msg, "unknown escape sequence \"\\");
    push_char(&mut msg, k);
    push_str(&mut msg, "\"");
    Err(msg)
}

fn double<'a>(front: &'a str, s: &[char], i: usize, e: usize) -> (r: Result<(Cow<'a, str>, usize), String>)
    requires
        s@ == front@,
        i < e <= s@.len(),
    ensures
        scalar_res_view(r) == double_from(s@, i as int, i + 1, e as int, seq![]),
        r matches Ok((_, rest)) ==> i < rest <= e,
{
    let mut out = String::new();
    let mut j = i + 1;
    while j < e
        invariant
            i < j <= e <= s@.len(),
            s@ == front@,
            double_from(s@, i as int, i + 1, e as int, seq![]) == double_from(
                s@,
                i as int,
                j as int,
                e as int,
                out@,
            ),
            !s@.subrange(i + 1, j as int).contains('\\') ==> out@ == s@.subrange(i + 1, j as int),
        decreases e - j,
    {
        let c = s[j];
        if c == '"' {
            proof { lemma_find_char_bounds(s@, i + 1, j as int, '\\'); }
            if find_char(s, i + 1, j, '\\').is_some() {
                proof {
                    let k = find_char_spec(s@, i + 1, j as int, '\\')->0;
                    assert(s@.subrange(i + 1, j as int)[k - i - 1] == '\\');
                }
                return Ok((Cow::Owned(out), j + 1));
            } else {
                proof {
                    if s@.subrange(i + 1, j as int).contains('\\') {
                        let k = choose|k: int| 0 <= k < j - i - 1 && #[trigger] s@.subrange(i + 1, j as int)[k] == '\\';
                        assert(s@[i + 1 + k] == '\\');
                    }
                }
                return Ok((Cow::Borrowed(front.substring_char(i + 1, j)), j + 1));
            }
        } else if c == '\\' {
            match escape(s, j, e) {
                Err(m) => return Err(m),
                Ok((x, w)) => {
                    push_char(&mut out, x);
                    proof {
                        assert(s@.subrange(i + 1, j + w)[j - i - 1] == '\\');
                    }
                    if w > e - j {
                        return Err(String::new());
                    }
                    j += w;
                },
            }
        } else {
            push_char(&mut out, c);
            proof {
                assert(s@.subrange(i + 1, j + 1) =~= s@.subrange(i + 1, j as int).push(c));
                if s@.subrange(i + 1, j + 1).contains('\\') {
                    let k = choose|k: int| 0 <= k < j + 1 - i - 1 && #[trigger] s@.subrange(i + 1, j + 1)[k] == '\\';
                    assert(k < j - i - 1);
                    assert(s@.subrange(i + 1, j as int)[k] == '\\');
                }
            }
            j += 1;
        }
    }
    Err("unterminated quoted string".to_owned())
}


fn scalar<'a>(front: &'a str, s: &[char], i: usize, e: usize) -> (r: Result<(Cow<'a, str>, usize), String>)
    requires
        s@ == front@,
        i <= e <= s@.len(),
    ensures
        scalar_res_view(r) == scalar_spec(s@, i as int, e as int),
        r matches Ok((_, rest)) ==> i < rest <= e,
{
    if i >= e {
        return Err("expected a value".to_owned());
    }
    let c = s[i];
    if c == '"' {
        double(front, s, i, e)
    } else if c == '\'' {
        single(front, s, i, e)
    } else if c == '|' || c == '>' {
        Err("block scalars are not supported; use a quoted single-line string".to_owned())
    } else if c == '&' || c == '*' {
        Err("anchors and aliases are not supported".to_owned())
    } else if c == '!' {
        Err("tags are not supported".to_owned())
    } else if c == '{' {
        Err("flow mappings are not supported".to_owned())
    } else if c == '[' {
        Err("a list is not valid here".to_owned())
    } else {
        let r = plain(front, s, i, e);
        match r {
            Ok((_, rest)) => {
                if rest <= i {
                    proof { lemma_trim_end(s@, i as int, rest as int); }
                    assert(false);
                }
            },
            Err(_) => {},
        }
        r
    }
}

/// The first `,` or `]` in `s[i..e]`.
fn item_end_at(s: &[char], i: usize, e: usize) -> (r: Option<usize>)
    requires
        i <= e <= s@.len(),
    ensures
        match r {
            Some(k) => item_end(s@, i as int, e as int) == Some(k as int) && i <= k < e,
            None => item_end(s@, i as int, e as int) is None,
        },
{
    let mut k = i;
    while k < e
        invariant
            i <= k <= e <= s@.len(),
            item_end(s@, i as int, e as int) == item_end(s@, k as int, e as int),
        decreases e - k,
    {
        if s[k] == ',' || s[k] == ']' {
            return Some(k);
        }
        k += 1;
    }
    None
}

pub open spec fn flow_res_view(r: Result<(Vec<Cow<str>>, usize), String>) -> Result<
    (Seq<ScalarSpec>, int),
    Seq<char>,
> {
    match r {
        Ok((v, rest)) => Ok((cows_view(v@), rest as int)),
        Err(m) => Err(m@),
    }
}

/// A flow sequence whose items start at `rest`, just inside its `[`.
fn flow<'a>(front: &'a str, s: &[char], begin: usize, e: usize) -> (r: Result<(Vec<Cow<'a, str>>, usize), String>)
    requires
        s@ == front@,
        begin <= e <= s@.len(),
    ensures
        flow_res_view(r) == flow_from(s@, begin as int, e as int, seq![]),
        r matches Ok((_, after)) ==> after <= e,
{
    let mut items: Vec<Cow<'a, str>> = Vec::new();
    let mut rest = begin;
    assert(cows_view(items@) =~= Seq::<ScalarSpec>::empty());
    loop
        invariant
            s@ == front@,
            rest <= e <= s@.len(),
            flow_from(s@, begin as int, e as int, seq![]) == flow_from(s@, rest as int, e as int, cows_view(items@)),
        decreases e - rest,
    {
        if rest < e && s[rest] == ']' {
            return Ok((items, rest + 1));
        }
        if rest == e {
            return Err("unterminated flow sequence".to_owned());
        }
        let got = if s[rest] == '"' {
            double(front, s, rest, e)
        } else if s[rest] == '\'' {
            single(front, s, rest, e)
        } else {
            match item_end_at(s, rest, e) {
                None => return Err("unterminated flow sequence".to_owned()),
                Some(end) => {
                    let v = trim_end(s, rest, end);
                    Ok((Cow::Borrowed(front.substring_char(rest, v)), end))
                },
            }
        };
        let (value, tail) = match got {
            Err(m) => return Err(m),
            Ok(x) => x,
        };
        let ghost before = cows_view(items@);
        let ghost vv = cow_view(value);
        let nonempty = match &value {
            Cow::Borrowed(b) => b.unicode_len() > 0,
            Cow::Owned(o) => o.as_str().unicode_len() > 0,
        };
        if nonempty {
            items.push(value);
            assert(cows_view(items@) =~= before.push(vv));
        }
        let r = trim_start(s, tail, e);
        if r < e && s[r] == ',' {
            let n = trim_start(s, r + 1, e);
            rest = n;
        } else if r < e && s[r] == ']' {
            return Ok((items, r + 1));
        } else {
            return Err("expected \",\" or \"]\" in flow sequence".to_owned());
        }
    }
}


pub open spec fn opt_value_view(v: Option<Value>) -> Option<ValueSpec> {
    match v {
        Some(x) => Some(value_view(x)),
        None => None,
    }
}

/// The items under a key, each read as a scalar.
fn items_of<'a>(front: &'a str, s: &[char], g: &Group) -> (r: Result<Vec<Cow<'a, str>>, Error>)
    requires
        s@ == front@,
        group_ok(*g, s@.len() as int),
    ensures
        match r {
            Ok(v) => items_from(s@, items_view(g.items@), 0) == Ok::<Seq<ScalarSpec>, ErrSpec>(cows_view(v@)),
            Err(e) => items_from(s@, items_view(g.items@), 0) == Err::<Seq<ScalarSpec>, ErrSpec>((e.line as int, e.msg@)),
        },
{
    let ghost iv = items_view(g.items@);
    let mut out: Vec<Cow<'a, str>> = Vec::new();
    let mut k: usize = 0;
    assert(cows_view(out@) =~= Seq::<ScalarSpec>::empty());
    while k < g.items.len()
        invariant
            s@ == front@,
            group_ok(*g, s@.len() as int),
            iv == items_view(g.items@),
            k <= g.items@.len(),
            items_from(s@, iv, 0) == match items_from(s@, iv, k as int) {
                Ok(rest) => Ok(cows_view(out@) + rest),
                Err(e) => Err(e),
            },
        decreases g.items@.len() - k,
    {
        let (line, (a, b)) = g.items[k];
        assert(group_ok(*g, s@.len() as int));
        assert(g.items@[k as int].1.0 <= g.items@[k as int].1.1 <= s@.len());
        assert(iv[k as int] == (line as int, (a as int, b as int)));
        match scalar(front, s, a, b) {
            Err(m) => return Err(Error { line, msg: m }),
            Ok((v, _)) => {
                let ghost before = cows_view(out@);
                let ghost vv = cow_view(v);
                out.push(v);
                assert(cows_view(out@) =~= before.push(vv));
                proof {
                    match items_from(s@, iv, k + 1) {
                        Ok(rest) => assert(before + (seq![vv] + rest) =~= before.push(vv) + rest),
                        Err(_) => {},
                    }
                }
            },
        }
        k += 1;
    }
    assert(cows_view(out@) + Seq::<ScalarSpec>::empty() =~= cows_view(out@));
    Ok(out)
}

/// What a group's key is bound to: nothing, a scalar, or a list.
fn value_of<'a>(front: &'a str, s: &[char], g: &Group) -> (r: Result<Option<Value<'a>>, Error>)
    requires
        s@ == front@,
        group_ok(*g, s@.len() as int),
    ensures
        match r {
            Ok(v) => value_of_spec(s@, group_view(*g)) == Ok::<Option<ValueSpec>, ErrSpec>(opt_value_view(v)),
            Err(e) => value_of_spec(s@, group_view(*g)) == Err::<Option<ValueSpec>, ErrSpec>((e.line as int, e.msg@)),
        },
{
    reveal(value_of_spec);
    let (i0, e) = g.inline;
    let inline = trim_start(s, i0, e);
    let has_inline = inline < e && s[inline] != '#';
    if has_inline && g.items.len() > 0 {
        let k = range_string(s, g.key.0, g.key.1);
        let mut msg = String::new();
        push_str(&mut msg, "key ");
        let q = debug_str(k.as_str());
        push_str(&mut msg, q.as_str());
        push_str(&mut msg, " has both an inline value and a block list");
        return Err(Error { line: g.line, msg });
    }
    if g.items.len() > 0 {
        return match items_of(front, s, g) {
            Err(e) => Err(e),
            Ok(items) => Ok(Some(Value::List(items))),
        };
    }
    if !has_inline {
        return Ok(None);
    }
    if !(i0 < e && (s[i0] == ' ' || s[i0] == '\t')) {
        return Err(err(g.line, "expected a space after \":\""));
    }
    let (value, rest) = if s[inline] == '[' {
        let n = trim_start(s, inline + 1, e);
        match flow(front, s, n, e) {
            Err(m) => return Err(Error { line: g.line, msg: m }),
            Ok((items, rest)) => (Value::List(items), rest),
        }
    } else {
        match scalar(front, s, inline, e) {
            Err(m) => return Err(Error { line: g.line, msg: m }),
            Ok((v, rest)) => (Value::Scalar(v), rest),
        }
    };
    let r = trim_start(s, rest, e);
    if r == e || s[r] == '#' {
        Ok(Some(value))
    } else {
        let t = range_string(s, r, e);
        let mut msg = String::new();
        push_str(&mut msg, "unexpected text after the value: ");
        let q = debug_str(t.as_str());
        push_str(&mut msg, q.as_str());
        Err(Error { line: g.line, msg })
    }
}

pub open spec fn prepend_bindings(
    p: Seq<(Seq<char>, ValueSpec)>,
    r: Result<Seq<(Seq<char>, ValueSpec)>, ErrSpec>,
) -> Result<Seq<(Seq<char>, ValueSpec)>, ErrSpec> {
    match r {
        Ok(x) => Ok(p + x),
        Err(e) => Err(e),
    }
}

/// Whether `s[a..b]` is one of `allowed`.
fn allowed_at(s: &[char], a: usize, b: usize, allowed: &[&str]) -> (r: bool)
    requires
        a <= b <= s@.len(),
    ensures
        r == strs_view(allowed@).contains(s@.subrange(a as int, b as int)),
{
    let ghost av = strs_view(allowed@);
    let mut k: usize = 0;
    while k < allowed.len()
        invariant
            a <= b <= s@.len(),
            av == strs_view(allowed@),
            k <= allowed@.len(),
            forall|j: int| 0 <= j < k ==> av[j] != s@.subrange(a as int, b as int),
        decreases allowed@.len() - k,
    {
        assert(av[k as int] == allowed@[k as int]@);
        if crate::text::range_eq(s, a, b, allowed[k]) {
            assert(av[k as int] == s@.subrange(a as int, b as int));
            return true;
        }
        k += 1;
    }
    false
}

/// Parses the frontmatter `front`. Every key must be one of `allowed`; a key
/// with no value is left out rather than bound to something empty.
pub fn parse<'a>(front: &'a str, allowed: &[&str]) -> (r: Result<Vec<(&'a str, Value<'a>)>, Error>)
    requires
        front@.len() < usize::MAX,
    ensures
        match r {
            Ok(v) => parse_spec(front@, strs_view(allowed@)) == Ok::<Seq<(Seq<char>, ValueSpec)>, ErrSpec>(
                bindings_view(v@),
            ),
            Err(e) => parse_spec(front@, strs_view(allowed@)) == Err::<Seq<(Seq<char>, ValueSpec)>, ErrSpec>(
                (e.line as int, e.msg@),
            ),
        },
{
    parse_keys(front, allowed, false)
}

/// Parses the frontmatter `front`, whatever its keys; a key with no value is
/// left out.
pub fn parse_any<'a>(front: &'a str) -> (r: Result<Vec<(&'a str, Value<'a>)>, Error>)
    requires
        front@.len() < usize::MAX,
    ensures
        match r {
            Ok(v) => parse_any_spec(front@) == Ok::<Seq<(Seq<char>, ValueSpec)>, ErrSpec>(bindings_view(v@)),
            Err(e) => parse_any_spec(front@) == Err::<Seq<(Seq<char>, ValueSpec)>, ErrSpec>(
                (e.line as int, e.msg@),
            ),
        },
{
    let none: [&str; 0] = [];
    assert(strs_view(none@) =~= Seq::<Seq<char>>::empty());
    parse_keys(front, &none, true)
}

fn parse_keys<'a>(front: &'a str, allowed: &[&str], open: bool) -> (r: Result<Vec<(&'a str, Value<'a>)>, Error>)
    requires
        front@.len() < usize::MAX,
    ensures
        match r {
            Ok(v) => bindings_spec(front@, strs_view(allowed@), open) == Ok::<Seq<(Seq<char>, ValueSpec)>, ErrSpec>(
                bindings_view(v@),
            ),
            Err(e) => bindings_spec(front@, strs_view(allowed@), open) == Err::<Seq<(Seq<char>, ValueSpec)>, ErrSpec>(
                (e.line as int, e.msg@),
            ),
        },
{
    let s = chars_of(front);
    let gs = match group(&s) {
        Err(e) => return Err(e),
        Ok(gs) => gs,
    };
    let ghost gv = groups_view(gs@);
    let ghost al = strs_view(allowed@);
    let mut out: Vec<(&'a str, Value<'a>)> = Vec::new();
    assert(bindings_view(out@) =~= Seq::<(Seq<char>, ValueSpec)>::empty());
    let mut k: usize = 0;
    while k < gs.len()
        invariant
            s@ == front@,
            gv == groups_view(gs@),
            al == strs_view(allowed@),
            forall|j: int| 0 <= j < gs@.len() ==> group_ok(#[trigger] gs@[j], s@.len() as int),
            k <= gs@.len(),
            bindings_from(s@, gv, al, open, 0) == prepend_bindings(bindings_view(out@), bindings_from(s@, gv, al, open, k as int)),
            bindings_spec(front@, al, open) == bindings_from(s@, gv, al, open, 0),
        decreases gs@.len() - k,
    {
        let g = &gs[k];
        assert(group_ok(gs@[k as int], s@.len() as int));
        assert(gv[k as int] == group_view(gs@[k as int]));
        if !open && !allowed_at(&s, g.key.0, g.key.1, allowed) {
            let key = front.substring_char(g.key.0, g.key.1);
            let mut msg = String::new();
            push_str(&mut msg, "unknown key ");
            let q = debug_str(key);
            push_str(&mut msg, q.as_str());
            assert(gv[k as int].1.0 == g.key.0 && gv[k as int].1.1 == g.key.1 && gv[k as int].0 == g.line);
            assert(!al.contains(s@.subrange(g.key.0 as int, g.key.1 as int)));
            assert(bindings_from(s@, gv, al, open, k as int) == Err::<Seq<(Seq<char>, ValueSpec)>, ErrSpec>((g.line as int, msg@)));
            return Err(Error { line: g.line, msg });
        }
        match value_of(front, &s, g) {
            Err(e) => {
                assert(bindings_from(s@, gv, al, open, k as int) == Err::<Seq<(Seq<char>, ValueSpec)>, ErrSpec>((e.line as int, e.msg@)));
                return Err(e);
            },
            Ok(None) => {},
            Ok(Some(v)) => {
                let key = front.substring_char(g.key.0, g.key.1);
                let ghost before = bindings_view(out@);
                let ghost b = (key@, value_view(v));
                out.push((key, v));
                assert(bindings_view(out@) =~= before.push(b));
                proof {
                    match bindings_from(s@, gv, al, open, k + 1) {
                        Ok(rest) => assert(before + (seq![b] + rest) =~= before.push(b) + rest),
                        Err(_) => {},
                    }
                }
            },
        }
        k += 1;
    }
    assert(bindings_view(out@) + Seq::<(Seq<char>, ValueSpec)>::empty() =~= bindings_view(out@));
    Ok(out)
}

} // verus!
