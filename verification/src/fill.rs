//! Fills marked regions of an ordinary HTML file with values.
//!
//! A template here is not a dialect -- it is HTML. Every dynamic region is
//! named by a `data-` attribute, so a template opens in a browser, validates as
//! HTML, and can be edited with HTML tooling. Six markers, all stripped from
//! the output:
//!
//! ```text
//! data-slot="path"       element content, escaped
//! data-html="path"       element content, raw
//! data-attr-NAME="path"  attribute NAME, escaped
//! data-each="path"       clone the first child element once per list item
//! data-include="_f.html" replace this element with that file
//! data-when="path"       keep this element only if `path` is present
//! ```
//!
//! There is no conditional. A binding that resolves to `Nil`, or a `data-each`
//! over an empty list, removes the element. `data-slot` refuses to emit `Html`
//! and `data-html` is the only marker that emits it unescaped. An unknown
//! field is an error rather than an empty string.
use vstd::prelude::*;

use crate::html::{
    attributes_in, attrs_spec, comment_end, comment_skip, decl_end, decl_skip, extent_at,
    extent_spec, is_comment, is_decl, named, named_spec, tag_end_at, tag_end_spec, tag_name_at,
    tag_name_spec, AttrPos, AttrSpec, attr_specs, attrs_ordered, RAWTEXT,
};
use crate::text::{
    chars_of, eq_ignore_case, find_char, find_char_spec, lemma_find_char_bounds, push_char,
    ranges_eq_ignore_case,
    push_range, push_str, range_eq, range_eq_ignore_case, range_string, starts_at, str_eq,
    trim_end, trim_end_pos, trim_start, trim_start_pos,
};

verus! {

#[derive(Debug, PartialEq, Eq)]
pub struct Error {
    pub file: String,
    pub line: usize,
    pub msg: String,
}

/// An error as plain values: file, line, message.
pub type ErrSpec = (Seq<char>, int, Seq<char>);

pub open spec fn err_view(e: Error) -> ErrSpec {
    (e.file@, e.line as int, e.msg@)
}

impl Error {
    /// `file: line N: message`.
    pub fn describe(&self) -> (r: String)
        ensures
            r@ == self.file@ + ": line "@ + crate::text::decimal(self.line as nat) + ": "@ + self.msg@,
    {
        let mut out = String::new();
        push_str(&mut out, self.file.as_str());
        push_str(&mut out, ": line ");
        crate::text::push_decimal(&mut out, self.line as u64);
        push_str(&mut out, ": ");
        push_str(&mut out, self.msg.as_str());
        out
    }
}

/// How many times `c` occurs in `s[0..k]`.
pub open spec fn count_char(s: Seq<char>, c: char, k: int) -> nat
    decreases k,
{
    if k <= 0 || k > s.len() {
        0
    } else {
        count_char(s, c, k - 1) + if s[k - 1] == c { 1nat } else { 0nat }
    }
}

/// The 1-based line that holds position `at` of `s`.
pub open spec fn line_spec(s: Seq<char>, at: int) -> int {
    (count_char(s, '\n', if at < s.len() { at } else { s.len() as int }) + 1) as int
}

fn line_of(s: &[char], at: usize) -> (r: usize)
    requires
        at < usize::MAX,
    ensures
        r == line_spec(s@, at as int),
{
    let end = if at < s.len() { at } else { s.len() };
    let mut n: usize = 0;
    let mut k: usize = 0;
    while k < end
        invariant
            k <= end <= s@.len(),
            n == count_char(s@, '\n', k as int),
            n <= k,
            end <= at,
        decreases end - k,
    {
        if s[k] == '\n' {
            n += 1;
        }
        k += 1;
    }
    n + 1
}

/// 1-based line containing byte offset `at`; an offset past the end counts as
/// the end.
pub fn line_at(src: &str, at: usize) -> (r: usize)
    requires
        src@.len() < usize::MAX,
        at >= crate::bytes::utf8_len(src@) || crate::bytes::on_boundary(src@, at as int),
    ensures
        r == line_spec(src@, crate::bytes::chars_before(src@, at as int)),
{
    let cs = chars_of(src);
    let (k, _) = crate::bytes::char_of_byte(&cs, at);
    line_of(&cs, k)
}

/// The file a span belongs to. Carried so an error inside an include names the
/// include, not the page that pulled it in.
#[derive(Clone, Copy)]
pub struct Src<'a> {
    pub name: &'a str,
    pub text: &'a str,
}

pub open spec fn err_at(src: Src, at: int, msg: Seq<char>) -> ErrSpec {
    (src.name@, line_spec(src.text@, at), msg)
}

impl<'a> Src<'a> {
    fn at(&self, cs: &[char], at: usize, msg: String) -> (r: Error)
        requires
            cs@ == self.text@,
            at < usize::MAX,
        ensures
            err_view(r) == err_at(*self, at as int, msg@),
    {
        Error { file: self.name.to_owned(), line: line_of(cs, at), msg }
    }
}

// -- Values -------------------------------------------------------------------

#[derive(Debug, PartialEq)]
pub enum Value<'a> {
    /// A field that is present but empty. Removes the element that binds it.
    Nil,
    Bool(bool),
    Num(i64),
    /// Escaped by `data-slot` and `data-attr-*`.
    Text(String),
    /// Markup. Only `data-html` may emit it.
    Html(String),
    List(Vec<Value<'a>>),
    Dict(Vec<(&'a str, Value<'a>)>),
}

pub const NIL: Value<'static> = Value::Nil;

/// The value under `key` among `entries[k..]`, the first one if it repeats.
pub open spec fn entry_spec<'a>(entries: Seq<(&'a str, Value<'a>)>, key: Seq<char>, k: int) -> Option<Value<'a>>
    decreases entries.len() - k,
{
    if !(0 <= k < entries.len()) {
        None
    } else if entries[k].0@ == key {
        Some(entries[k].1)
    } else {
        entry_spec(entries, key, k + 1)
    }
}

/// The field `key` of a map; nothing for anything else.
pub open spec fn get_spec<'a>(v: Value<'a>, key: Seq<char>) -> Option<Value<'a>> {
    match v {
        Value::Dict(entries) => entry_spec(entries@, key, 0),
        _ => None,
    }
}

impl<'a> Value<'a> {
    pub fn text(s: &str) -> (r: Self)
        ensures r matches Value::Text(t) && t@ == s@,
    {
        Value::Text(s.to_owned())
    }

    pub fn html(s: &str) -> (r: Self)
        ensures r matches Value::Html(t) && t@ == s@,
    {
        Value::Html(s.to_owned())
    }

    pub fn num(n: usize) -> (r: Self)
        ensures r == Value::Num(n as i64),
    {
        Value::Num(n as i64)
    }

    /// `None` becomes `Nil`, so an absent optional is still a bound field.
    pub fn opt(s: Option<&str>) -> (r: Self)
        ensures
            s is None ==> r == Value::Nil,
            s matches Some(x) ==> (r matches Value::Text(t) && t@ == x@),
    {
        match s {
            None => Value::Nil,
            Some(x) => Value::text(x),
        }
    }

    pub fn list(items: Vec<Value<'a>>) -> (r: Self)
        ensures r == Value::List(items),
    {
        Value::List(items)
    }

    pub fn map(entries: Vec<(&'a str, Value<'a>)>) -> (r: Self)
        ensures r == Value::Dict(entries),
    {
        Value::Dict(entries)
    }

    /// The field `key` of a map, the first one if it repeats; nothing for
    /// anything that is not a map.
    pub fn get<'s>(&'s self, key: &str) -> (r: Option<&'s Value<'a>>)
        ensures
            match (r, get_spec(*self, key@)) {
                (None, None) => true,
                (Some(x), Some(y)) => *x == y,
                _ => false,
            },
    {
        match self {
            Value::Dict(entries) => {
                let mut k: usize = 0;
                while k < entries.len()
                    invariant
                        k <= entries@.len(),
                        get_spec(*self, key@) == entry_spec(entries@, key@, k as int),
                    decreases entries@.len() - k,
                {
                    if str_eq(entries[k].0, key) {
                        assert(entry_spec(entries@, key@, k as int) == Some(entries@[k as int].1));
                        return Some(&entries[k].1);
                    }
                    k += 1;
                }
                None
            },
            _ => None,
        }
    }
}

/// What a character becomes in escaped text.
pub open spec fn esc_char(c: char) -> Seq<char> {
    if c == '&' {
        "&amp;"@
    } else if c == '<' {
        "&lt;"@
    } else if c == '>' {
        "&gt;"@
    } else if c == '"' {
        "&quot;"@
    } else {
        seq![c]
    }
}

pub open spec fn esc_spec(s: Seq<char>) -> Seq<char> {
    s.map_values(|c: char| esc_char(c)).flatten()
}

fn push_esc(out: &mut String, s: &str)
    ensures
        final(out)@ == old(out)@ + esc_spec(s@),
{
    let cs = chars_of(s);
    let ghost start = out@;
    let ghost m = s@.map_values(|c: char| esc_char(c));
    let mut k: usize = 0;
    while k < cs.len()
        invariant
            k <= cs@.len(),
            cs@ == s@,
            m == s@.map_values(|c: char| esc_char(c)),
            out@ == start + m.subrange(0, k as int).flatten(),
        decreases cs@.len() - k,
    {
        let c = cs[k];
        if c == '&' {
            push_str(out, "&amp;");
        } else if c == '<' {
            push_str(out, "&lt;");
        } else if c == '>' {
            push_str(out, "&gt;");
        } else if c == '"' {
            push_str(out, "&quot;");
        } else {
            push_char(out, c);
        }
        assert(m.subrange(0, k + 1) =~= m.subrange(0, k as int).push(m[k as int]));
        proof { m.subrange(0, k as int).lemma_flatten_push(m[k as int]); }
        k += 1;
    }
    assert(m.subrange(0, cs@.len() as int) =~= m);
}

/// Escapes the four characters that change meaning in element content or a
/// double-quoted attribute. Not `'`: every attribute this project emits is
/// double-quoted, and XML text does not need `&apos;`.
pub fn esc(s: &str) -> (r: String)
    ensures
        r@ == esc_spec(s@),
{
    let mut out = String::new();
    push_esc(&mut out, s);
    out
}

// -- Scopes -------------------------------------------------------------------

/// The value of `key` in the innermost scope that defines it; scopes are
/// listed outermost first.
pub open spec fn lookup_head<'a>(scopes: Seq<&Value<'a>>, key: Seq<char>) -> Option<Value<'a>>
    decreases scopes.len(),
{
    if scopes.len() == 0 {
        None
    } else {
        match get_spec(*scopes.last(), key) {
            Some(v) => Some(v),
            None => lookup_head(scopes.drop_last(), key),
        }
    }
}

/// Where the path segment that starts at `i` ends.
pub open spec fn seg_end(p: Seq<char>, i: int) -> int {
    match find_char_spec(p, i, p.len() as int, '.') {
        Some(k) => k,
        None => p.len() as int,
    }
}

/// Follows the segments of `p` from `i` on into `v`; through a `Nil` the
/// result is `Nil`.
pub open spec fn follow<'a>(v: Value<'a>, p: Seq<char>, i: int) -> Option<Value<'a>>
    decreases p.len() - i,
{
    let e = seg_end(p, i);
    let next = match v {
        Value::Nil => Some(Value::Nil),
        _ => get_spec(v, p.subrange(i, e)),
    };
    match next {
        None => None,
        Some(w) => if i <= e < p.len() { follow(w, p, e + 1) } else { Some(w) },
    }
}

/// Resolves `a.b.c` against the innermost scope that defines `a`. A segment
/// reached through a `Nil` is `Nil` rather than an error.
pub open spec fn lookup_spec<'a>(scopes: Seq<&Value<'a>>, p: Seq<char>) -> Option<Value<'a>> {
    let h = seg_end(p, 0);
    match lookup_head(scopes, p.subrange(0, h)) {
        None => None,
        Some(found) => if h + 1 < p.len() { follow(found, p, h + 1) } else { Some(found) },
    }
}

/// The field named by `s[a..b]` of a map.
pub(crate) fn get_range<'s, 'a>(v: &'s Value<'a>, s: &[char], a: usize, b: usize) -> (r: Option<&'s Value<'a>>)
    requires
        a <= b <= s@.len(),
    ensures
        match (r, get_spec(*v, s@.subrange(a as int, b as int))) {
            (None, None) => true,
            (Some(x), Some(y)) => *x == y,
            _ => false,
        },
{
    match v {
        Value::Dict(entries) => {
            let mut k: usize = 0;
            while k < entries.len()
                invariant
                    a <= b <= s@.len(),
                    k <= entries@.len(),
                    get_spec(*v, s@.subrange(a as int, b as int)) == entry_spec(
                        entries@,
                        s@.subrange(a as int, b as int),
                        k as int,
                    ),
                decreases entries@.len() - k,
            {
                if range_eq(s, a, b, entries[k].0) {
                    assert(entry_spec(entries@, s@.subrange(a as int, b as int), k as int) == Some(
                        entries@[k as int].1,
                    ));
                    return Some(&entries[k].1);
                }
                k += 1;
            }
            None
        },
        _ => None,
    }
}

/// The value of the key `s[a..h]` in the innermost scope that defines it.
fn innermost<'s, 'a>(scopes: &Vec<&'s Value<'a>>, s: &[char], a: usize, h: usize) -> (r: Option<
    &'s Value<'a>,
>)
    requires
        a <= h <= s@.len(),
    ensures
        match (r, lookup_head(scopes@, s@.subrange(a as int, h as int))) {
            (None, None) => true,
            (Some(x), Some(y)) => *x == y,
            _ => false,
        },
{
    let mut n = scopes.len();
    assert(scopes@.subrange(0, n as int) =~= scopes@);
    while n > 0
        invariant
            n <= scopes@.len(),
            a <= h <= s@.len(),
            lookup_head(scopes@, s@.subrange(a as int, h as int)) == lookup_head(
                scopes@.subrange(0, n as int),
                s@.subrange(a as int, h as int),
            ),
        decreases n,
    {
        assert(scopes@.subrange(0, n as int).drop_last() =~= scopes@.subrange(0, n - 1));
        match get_range(scopes[n - 1], s, a, h) {
            Some(v) => return Some(v),
            None => {},
        }
        n -= 1;
    }
    None
}

/// Resolves the path `s[a..b]` against `scopes`, innermost last.
fn lookup<'s, 'a>(scopes: &Vec<&'s Value<'a>>, s: &[char], a: usize, b: usize) -> (r: Option<
    &'s Value<'a>,
>)
    requires
        a <= b <= s@.len(),
    ensures
        match (r, lookup_spec(scopes@, s@.subrange(a as int, b as int))) {
            (None, None) => true,
            (Some(x), Some(y)) => *x == y,
            _ => false,
        },
{
    let ghost p = s@.subrange(a as int, b as int);
    proof { lemma_find_char_bounds(s@, a as int, b as int, '.'); }
    let h = match find_char(s, a, b, '.') {
        Some(k) => k,
        None => b,
    };
    proof { lemma_find_char_shift(s@, a as int, b as int, a as int, '.'); }
    assert(seg_end(p, 0) == h - a);
    assert(p.subrange(0, h - a) =~= s@.subrange(a as int, h as int));
    // The innermost scope that defines the head.
    let found = match innermost(scopes, s, a, h) {
        Some(v) => v,
        None => return None,
    };
    if !(h < b && h + 1 < b) {
        return Some(found);
    }
    // Down the rest of the path.
    let mut cur: &'s Value<'a> = found;
    let mut i = h + 1;
    loop
        invariant
            a < i <= b <= s@.len(),
            p == s@.subrange(a as int, b as int),
            lookup_spec(scopes@, p) == follow(*cur, p, i - a),
        decreases b - i,
    {
        proof {
            lemma_find_char_bounds(s@, i as int, b as int, '.');
            lemma_find_char_shift(s@, a as int, b as int, i as int, '.');
        }
        let e = match find_char(s, i, b, '.') {
            Some(k) => k,
            None => b,
        };
        assert(seg_end(p, i - a) == e - a);
        assert(p.subrange(i - a, e - a) =~= s@.subrange(i as int, e as int));
        let next: &'s Value<'a> = match cur {
            Value::Nil => &NIL,
            _ => match get_range(cur, s, i, e) {
                Some(v) => v,
                None => return None,
            },
        };
        if e < b {
            cur = next;
            i = e + 1;
        } else {
            return Some(next);
        }
    }
}

/// Finding a character in a subrange is finding it in the whole, shifted.
proof fn lemma_find_char_shift(s: Seq<char>, a: int, b: int, i: int, c: char)
    requires
        0 <= a <= i <= b <= s.len(),
    ensures
        find_char_spec(s.subrange(a, b), i - a, b - a, c) == match find_char_spec(s, i, b, c) {
            Some(k) => Some(k - a),
            None => None,
        },
    decreases b - i,
{
    if i < b {
        lemma_find_char_shift(s, a, b, i + 1, c);
        assert(s.subrange(a, b)[i - a] == s[i]);
    }
}


// -- Markers ------------------------------------------------------------------

#[derive(PartialEq, Eq, Structural, Clone, Copy)]
pub enum Kind {
    Slot,
    Html,
    Each,
    Include,
    /// Sets the attribute whose name is this span of the template.
    Attr(usize, usize),
    /// Binds a path solely so the drop rule can see it; emits nothing.
    When,
}

/// A marker attribute, as spans of the template.
#[derive(Clone, Copy)]
pub struct Marker {
    pub kind: Kind,
    /// A field path, or for `Include` a file name.
    pub path: (usize, usize),
    /// Span within the opening tag, including the whitespace before it, so
    /// deleting it leaves the tag well-formed.
    pub span: (usize, usize),
}

/// The marker an attribute of the tag at `lo` is, if it is one.
pub open spec fn marker_of_spec(s: Seq<char>, lo: int, a: AttrSpec) -> Option<Marker> {
    let name = s.subrange(a.0, a.1);
    let pre = "data-attr-"@;
    let kind = if name == "data-slot"@ {
        Some(Kind::Slot)
    } else if name == "data-html"@ {
        Some(Kind::Html)
    } else if name == "data-each"@ {
        Some(Kind::Each)
    } else if name == "data-include"@ {
        Some(Kind::Include)
    } else if name == "data-when"@ {
        Some(Kind::When)
    } else if name.len() >= pre.len() && name.subrange(0, pre.len() as int) == pre {
        Some(Kind::Attr((a.0 + pre.len()) as usize, a.1 as usize))
    } else {
        None
    };
    let path = match a.2 {
        Some((v0, v1)) => {
            let b = trim_start_pos(s, v0, v1);
            (b as usize, trim_end_pos(s, b, v1) as usize)
        },
        None => (a.1 as usize, a.1 as usize),
    };
    match kind {
        None => None,
        Some(k) => Some(Marker { kind: k, path, span: (trim_end_pos(s, lo, a.0) as usize, a.3 as usize) }),
    }
}

pub open spec fn markers_from(s: Seq<char>, lo: int, attrs: Seq<AttrSpec>, k: int) -> Seq<Marker>
    decreases attrs.len() - k,
{
    if !(0 <= k < attrs.len()) {
        seq![]
    } else {
        match marker_of_spec(s, lo, attrs[k]) {
            Some(m) => seq![m] + markers_from(s, lo, attrs, k + 1),
            None => markers_from(s, lo, attrs, k + 1),
        }
    }
}

/// The markers of the tag `s[lo..hi]`, in order.
pub open spec fn markers_spec(s: Seq<char>, lo: int, hi: int) -> Seq<Marker> {
    markers_from(s, lo, attrs_spec(s, lo, hi), 0)
}

/// Every marker lies inside its tag.
pub open spec fn markers_inside(ms: Seq<Marker>, lo: int, hi: int) -> bool {
    forall|k: int| 0 <= k < ms.len() ==> {
        let m = #[trigger] ms[k];
        &&& lo <= m.span.0 < m.span.1 <= hi
        &&& m.path.0 <= m.path.1 <= hi
        &&& (m.kind matches Kind::Attr(a, b) ==> a <= b <= hi)
    }
}

fn marker_of(s: &[char], lo: usize, a: &AttrPos) -> (r: Option<Marker>)
    requires
        lo <= a.name.0 < a.name.1 <= a.end <= s@.len(),
        a.value matches Some((v0, v1)) ==> a.name.1 <= v0 <= v1 <= a.end,
    ensures
        r == marker_of_spec(s@, lo as int, a.spec()),
        r matches Some(m) ==> lo <= m.span.0 < m.span.1 <= s@.len() && m.path.0 <= m.path.1
            <= s@.len() && (m.kind matches Kind::Attr(x, y) ==> x <= y <= s@.len()),
{
    let (n0, n1) = a.name;
    let plen = "data-attr-".unicode_len();
    let kind = if range_eq(s, n0, n1, "data-slot") {
        Some(Kind::Slot)
    } else if range_eq(s, n0, n1, "data-html") {
        Some(Kind::Html)
    } else if range_eq(s, n0, n1, "data-each") {
        Some(Kind::Each)
    } else if range_eq(s, n0, n1, "data-include") {
        Some(Kind::Include)
    } else if range_eq(s, n0, n1, "data-when") {
        Some(Kind::When)
    } else if n1 - n0 >= plen && starts_at(s, n0, n1, "data-attr-") {
        assert(s@.subrange(n0 as int, n1 as int).subrange(0, plen as int) =~= s@.subrange(
            n0 as int,
            n0 + plen,
        ));
        Some(Kind::Attr(n0 + plen, n1))
    } else {
        proof {
            if n1 - n0 >= plen {
                assert(s@.subrange(n0 as int, n1 as int).subrange(0, plen as int) =~= s@.subrange(
                    n0 as int,
                    n0 + plen,
                ));
            }
        }
        None
    };
    let path = match a.value {
        Some((v0, v1)) => {
            let b = trim_start(s, v0, v1);
            (b, trim_end(s, b, v1))
        },
        None => (n1, n1),
    };
    match kind {
        None => None,
        Some(k) => Some(Marker { kind: k, path, span: (trim_end(s, lo, n0), a.end) }),
    }
}

/// The markers of the tag `s[lo..hi]`.
fn markers(s: &[char], lo: usize, hi: usize) -> (r: Vec<Marker>)
    requires
        lo <= hi <= s@.len(),
    ensures
        r@ == markers_spec(s@, lo as int, hi as int),
        markers_inside(r@, lo as int, hi as int),
{
    let attrs = attributes_in(s, lo, hi);
    let ghost a = attr_specs(attrs@);
    let mut out: Vec<Marker> = Vec::new();
    let mut k: usize = 0;
    while k < attrs.len()
        invariant
            lo <= hi <= s@.len(),
            k <= attrs@.len(),
            a == attr_specs(attrs@),
            a == attrs_spec(s@, lo as int, hi as int),
            attrs_ordered(a, lo as int, hi as int),
            out@ + markers_from(s@, lo as int, a, k as int) == markers_spec(s@, lo as int, hi as int),
            markers_inside(out@, lo as int, hi as int),
        decreases attrs@.len() - k,
    {
        let p = attrs[k];
        assert(a[k as int] == p.spec());
        let ghost before = out@;
        match marker_of(s, lo, &p) {
            Some(m) => {
                out.push(m);
                assert(out@ + markers_from(s@, lo as int, a, k + 1) =~= before + markers_from(
                    s@,
                    lo as int,
                    a,
                    k as int,
                ));
                proof {
                    assert(s@.len() == s.len());
                    lemma_marker_inside(s@, lo as int, hi as int, p.spec());
                }
            },
            None => {},
        }
        k += 1;
    }
    assert(out@ + markers_from(s@, lo as int, a, k as int) =~= out@);
    out
}

proof fn lemma_marker_inside(s: Seq<char>, lo: int, hi: int, a: AttrSpec)
    requires
        0 <= lo <= a.0 < a.1 <= a.3 <= hi <= s.len() <= usize::MAX,
        a.2 matches Some((v0, v1)) ==> a.1 <= v0 <= v1 <= a.3,
    ensures
        marker_of_spec(s, lo, a) matches Some(m) ==> {
            &&& lo <= m.span.0 < m.span.1 <= hi
            &&& m.path.0 <= m.path.1 <= hi
            &&& (m.kind matches Kind::Attr(x, y) ==> x <= y <= hi)
        },
{
    crate::text::lemma_trim_end(s, lo, a.0);
    match a.2 {
        Some((v0, v1)) => {
            lemma_trim_start(s, v0, v1);
            crate::text::lemma_trim_end(s, trim_start_pos(s, v0, v1), v1);
        },
        None => {},
    }
}

proof fn lemma_trim_start(s: Seq<char>, from: int, to: int)
    requires
        0 <= from <= to <= s.len(),
    ensures
        from <= trim_start_pos(s, from, to) <= to,
    decreases to - from,
{
    if from < to && crate::text::is_whitespace(s[from]) {
        lemma_trim_start(s, from + 1, to);
    }
}


// -- Opening tags -------------------------------------------------------------

/// One edit of an opening tag: replace `s[.0...1]` with `.2`.
pub type Edit = (int, int, Seq<char>);

/// The first attribute among `attrs[k..]` whose name equals `s[a..b]` up to
/// ASCII case.
pub open spec fn find_attr(s: Seq<char>, attrs: Seq<AttrSpec>, a: int, b: int, k: int) -> Option<
    AttrSpec,
>
    decreases attrs.len() - k,
{
    if !(0 <= k < attrs.len()) {
        None
    } else if eq_ignore_case(s.subrange(attrs[k].0, attrs[k].1), s.subrange(a, b)) {
        Some(attrs[k])
    } else {
        find_attr(s, attrs, a, b, k + 1)
    }
}

/// ` name="value"`.
pub open spec fn appended(s: Seq<char>, a: int, b: int, v: Seq<char>) -> Seq<char> {
    " "@ + s.subrange(a, b) + "=\""@ + v + "\""@
}

/// The edits and the appended text once the first `k` attribute values are
/// placed: every marker is deleted, a value replaces the value of an existing
/// attribute of that name, and is appended when there is none.
pub open spec fn plan(
    s: Seq<char>,
    lo: int,
    hi: int,
    ms: Seq<Marker>,
    avs: Seq<(int, int, Seq<char>)>,
    k: int,
) -> (Seq<Edit>, Seq<char>)
    decreases k,
{
    if k <= 0 || k > avs.len() {
        (ms.map_values(|m: Marker| (m.span.0 as int, m.span.1 as int, Seq::<char>::empty())), seq![])
    } else {
        let (ed, ap) = plan(s, lo, hi, ms, avs, k - 1);
        let (a, b, v) = avs[k - 1];
        match find_attr(s, attrs_spec(s, lo, hi), a, b, 0) {
            Some(x) => match x.2 {
                Some((v0, v1)) => (ed.push((v0, v1, v)), ap),
                None => (ed, ap + appended(s, a, b, v)),
            },
            None => (ed, ap + appended(s, a, b, v)),
        }
    }
}

/// Where `e` goes in `ed`: after every edit that starts no later.
pub open spec fn ins_pos(ed: Seq<Edit>, e: Edit, k: int) -> int
    decreases ed.len() - k,
{
    if !(0 <= k < ed.len()) {
        ed.len() as int
    } else if ed[k].0 > e.0 {
        k
    } else {
        ins_pos(ed, e, k + 1)
    }
}

/// The first `k` edits, stably sorted by where they start.
pub open spec fn sorted_upto(ed: Seq<Edit>, k: int) -> Seq<Edit>
    decreases k,
{
    if k <= 0 || k > ed.len() {
        seq![]
    } else {
        let t = sorted_upto(ed, k - 1);
        t.insert(ins_pos(t, ed[k - 1], 0), ed[k - 1])
    }
}

/// The tag `s[lo..]` with the first `k` edits applied, and where the copy
/// stopped. An edit that overlaps one before it only adds its text.
pub open spec fn apply_upto(s: Seq<char>, lo: int, hi: int, ed: Seq<Edit>, k: int) -> (
    Seq<char>,
    int,
)
    decreases k,
{
    if k <= 0 || k > ed.len() {
        (seq![], lo)
    } else {
        let (o, last) = apply_upto(s, lo, hi, ed, k - 1);
        let e = ed[k - 1];
        if last <= e.0 <= e.1 <= hi {
            (o + s.subrange(last, e.0) + e.2, e.1)
        } else {
            (o + e.2, last)
        }
    }
}

/// The last `c` in `s[from..to]`.
pub open spec fn rfind_char(s: Seq<char>, from: int, to: int, c: char) -> Option<int>
    decreases to - from,
{
    if !(0 <= from < to <= s.len()) {
        None
    } else if s[to - 1] == c {
        Some(to - 1)
    } else {
        rfind_char(s, from, to - 1, c)
    }
}

/// Just before the `>` or `/>` that ends a tag.
pub open spec fn insert_point(t: Seq<char>) -> int {
    let close = match rfind_char(t, 0, t.len() as int, '>') {
        Some(k) => k,
        None => t.len() as int,
    };
    let body = trim_end_pos(t, 0, close);
    let bare = if body > 0 && t[body - 1] == '/' { body - 1 } else { body };
    trim_end_pos(t, 0, bare)
}

/// The opening tag `s[lo..hi]` with every marker removed and every
/// `data-attr-*` value applied.
pub open spec fn open_tag_spec(
    s: Seq<char>,
    lo: int,
    hi: int,
    ms: Seq<Marker>,
    avs: Seq<(int, int, Seq<char>)>,
) -> Seq<char> {
    let (ed, ap) = plan(s, lo, hi, ms, avs, avs.len() as int);
    let sorted = sorted_upto(ed, ed.len() as int);
    let (o, last) = apply_upto(s, lo, hi, sorted, sorted.len() as int);
    let out = o + s.subrange(last, hi);
    if ap.len() == 0 {
        out
    } else {
        let at = insert_point(out);
        out.subrange(0, at) + ap + out.subrange(at, out.len() as int)
    }
}

pub open spec fn edits_view(v: Seq<(usize, usize, String)>) -> Seq<Edit> {
    v.map_values(|e: (usize, usize, String)| (e.0 as int, e.1 as int, e.2@))
}

pub open spec fn avs_view(v: Seq<(usize, usize, String)>) -> Seq<(int, int, Seq<char>)> {
    v.map_values(|e: (usize, usize, String)| (e.0 as int, e.1 as int, e.2@))
}

/// The first attribute of `attrs[k..]` named `s[a..b]`.
fn find_attr_at(s: &[char], attrs: &Vec<AttrPos>, a: usize, b: usize) -> (r: Option<AttrPos>)
    requires
        a <= b <= s@.len(),
        forall|k: int| 0 <= k < attrs@.len() ==> #[trigger] attrs@[k].name.0 <= attrs@[k].name.1
            <= s@.len(),
    ensures
        match (r, find_attr(s@, attr_specs(attrs@), a as int, b as int, 0)) {
            (None, None) => true,
            (Some(x), Some(y)) => x.spec() == y,
            _ => false,
        },
{
    let ghost sp = attr_specs(attrs@);
    let mut k: usize = 0;
    while k < attrs.len()
        invariant
            a <= b <= s@.len(),
            k <= attrs@.len(),
            sp == attr_specs(attrs@),
            forall|j: int| 0 <= j < attrs@.len() ==> #[trigger] attrs@[j].name.0 <= attrs@[j].name.1
                <= s@.len(),
            find_attr(s@, sp, a as int, b as int, 0) == find_attr(s@, sp, a as int, b as int, k as int),
        decreases attrs@.len() - k,
    {
        let x = attrs[k];
        assert(sp[k as int] == x.spec());
        if ranges_eq_ignore_case(s, x.name.0, x.name.1, a, b) {
            return Some(x);
        }
        k += 1;
    }
    None
}

/// Inserts `e` after every edit of `ed` that starts no later.
fn insert_edit(ed: &mut Vec<(usize, usize, String)>, e: (usize, usize, String))
    ensures
        edits_view(final(ed)@) == edits_view(old(ed)@).insert(
            ins_pos(edits_view(old(ed)@), (e.0 as int, e.1 as int, e.2@), 0),
            (e.0 as int, e.1 as int, e.2@),
        ),
{
    let ghost v = edits_view(ed@);
    let ghost ev = (e.0 as int, e.1 as int, e.2@);
    let mut k: usize = 0;
    while k < ed.len()
        invariant
            k <= ed@.len(),
            v == edits_view(ed@),
            ev == (e.0 as int, e.1 as int, e.2@),
            ins_pos(v, ev, 0) == ins_pos(v, ev, k as int),
        ensures
            k <= ed@.len(),
            v == edits_view(ed@),
            ins_pos(v, ev, 0) == k,
        decreases ed@.len() - k,
    {
        let start = ed[k].0;
        assert(v[k as int].0 == start);
        if start > e.0 {
            break;
        }
        assert(ins_pos(v, ev, k as int) == ins_pos(v, ev, k + 1));
        k += 1;
    }
    ed.insert(k, e);
    assert(edits_view(ed@) =~= v.insert(k as int, ev));
}


/// The last `c` in `t[..to]`.
fn rfind_at(t: &[char], to: usize, c: char) -> (r: Option<usize>)
    requires
        to <= t@.len(),
    ensures
        match r {
            Some(k) => rfind_char(t@, 0, to as int, c) == Some(k as int),
            None => rfind_char(t@, 0, to as int, c) is None,
        },
{
    let mut j = to;
    while j > 0
        invariant
            j <= to <= t@.len(),
            rfind_char(t@, 0, to as int, c) == rfind_char(t@, 0, j as int, c),
        decreases j,
    {
        if t[j - 1] == c {
            return Some(j - 1);
        }
        j -= 1;
    }
    None
}

fn insert_point_at(t: &[char]) -> (r: usize)
    ensures
        r == insert_point(t@),
        r <= t@.len(),
{
    let close = match rfind_at(t, t.len(), '>') {
        Some(k) => {
            proof { lemma_rfind_bounds(t@, 0, t@.len() as int, '>'); }
            k
        },
        None => t.len(),
    };
    let body = trim_end(t, 0, close);
    let bare = if body > 0 && t[body - 1] == '/' { body - 1 } else { body };
    trim_end(t, 0, bare)
}

proof fn lemma_rfind_bounds(s: Seq<char>, from: int, to: int, c: char)
    ensures
        rfind_char(s, from, to, c) matches Some(k) ==> from <= k < to,
    decreases to - from,
{
    if 0 <= from < to <= s.len() && s[to - 1] != c {
        lemma_rfind_bounds(s, from, to - 1, c);
    }
}

/// The opening tag `s[lo..hi]` with every marker removed and every
/// `data-attr-*` value applied: replacing the value of an attribute of that
/// name if it has one, otherwise appended before the `>` or `/>`.
fn open_tag(s: &[char], lo: usize, hi: usize, ms: &Vec<Marker>, avs: &Vec<(usize, usize, String)>) -> (r:
    String)
    requires
        lo <= hi <= s@.len(),
        forall|k: int| 0 <= k < avs@.len() ==> #[trigger] avs@[k].0 <= avs@[k].1 <= s@.len(),
    ensures
        r@ == open_tag_spec(s@, lo as int, hi as int, ms@, avs_view(avs@)),
{
    let ghost av = avs_view(avs@);
    let attrs = attributes_in(s, lo, hi);
    proof {
        assert forall|k: int| 0 <= k < attrs@.len() implies #[trigger] attrs@[k].name.0
            <= attrs@[k].name.1 <= s@.len() by {
            assert(attr_specs(attrs@)[k] == attrs@[k].spec());
        }
    }
    // Every marker is deleted.
    let mut ed: Vec<(usize, usize, String)> = Vec::new();
    let mut j: usize = 0;
    while j < ms.len()
        invariant
            j <= ms@.len(),
            edits_view(ed@) == ms@.subrange(0, j as int).map_values(
                |m: Marker| (m.span.0 as int, m.span.1 as int, Seq::<char>::empty()),
            ),
        decreases ms@.len() - j,
    {
        let m = ms[j];
        let empty = String::new();
        assert(empty@ =~= Seq::<char>::empty());
        let ghost before = edits_view(ed@);
        ed.push((m.span.0, m.span.1, empty));
        assert(edits_view(ed@) =~= before.push((m.span.0 as int, m.span.1 as int, Seq::<char>::empty())));
        assert(edits_view(ed@) =~= ms@.subrange(0, j + 1).map_values(
            |m: Marker| (m.span.0 as int, m.span.1 as int, Seq::<char>::empty()),
        ));
        j += 1;
    }
    assert(ms@.subrange(0, ms@.len() as int) =~= ms@);
    // Every value replaces or appends.
    let mut ap = String::new();
    let mut k: usize = 0;
    while k < avs.len()
        invariant
            lo <= hi <= s@.len(),
            k <= avs@.len(),
            av == avs_view(avs@),
            attr_specs(attrs@) == attrs_spec(s@, lo as int, hi as int),
            forall|i: int| 0 <= i < avs@.len() ==> #[trigger] avs@[i].0 <= avs@[i].1 <= s@.len(),
            forall|i: int| 0 <= i < attrs@.len() ==> #[trigger] attrs@[i].name.0 <= attrs@[i].name.1
                <= s@.len(),
            (edits_view(ed@), ap@) == plan(s@, lo as int, hi as int, ms@, av, k as int),
        decreases avs@.len() - k,
    {
        let a = avs[k].0;
        let b = avs[k].1;
        assert(av[k as int] == (a as int, b as int, avs@[k as int].2@));
        let ghost before = edits_view(ed@);
        match find_attr_at(s, &attrs, a, b) {
            Some(x) => match x.value {
                Some((v0, v1)) => {
                    ed.push((v0, v1, avs[k].2.clone()));
                    assert(edits_view(ed@) =~= before.push((v0 as int, v1 as int, avs@[k as int].2@)));
                },
                None => {
                    push_str(&mut ap, " ");
                    push_range(&mut ap, s, a, b);
                    push_str(&mut ap, "=\"");
                    push_str(&mut ap, avs[k].2.as_str());
                    push_str(&mut ap, "\"");
                },
            },
            None => {
                push_str(&mut ap, " ");
                push_range(&mut ap, s, a, b);
                push_str(&mut ap, "=\"");
                push_str(&mut ap, avs[k].2.as_str());
                push_str(&mut ap, "\"");
            },
        }
        k += 1;
    }
    // Stably sorted by where each starts.
    let ghost ev = edits_view(ed@);
    let mut sorted: Vec<(usize, usize, String)> = Vec::new();
    let mut k: usize = 0;
    while k < ed.len()
        invariant
            k <= ed@.len(),
            ev == edits_view(ed@),
            edits_view(sorted@) == sorted_upto(ev, k as int),
        decreases ed@.len() - k,
    {
        let e = (ed[k].0, ed[k].1, ed[k].2.clone());
        assert(ev[k as int] == (e.0 as int, e.1 as int, e.2@));
        insert_edit(&mut sorted, e);
        k += 1;
    }
    // Applied in that order.
    let ghost sv = edits_view(sorted@);
    let mut out = String::new();
    let mut last = lo;
    let mut k: usize = 0;
    while k < sorted.len()
        invariant
            lo <= last <= hi <= s@.len(),
            k <= sorted@.len(),
            sv == edits_view(sorted@),
            (out@, last as int) == apply_upto(s@, lo as int, hi as int, sv, k as int),
        decreases sorted@.len() - k,
    {
        let e0 = sorted[k].0;
        let e1 = sorted[k].1;
        assert(sv[k as int] == (e0 as int, e1 as int, sorted@[k as int].2@));
        if last <= e0 && e0 <= e1 && e1 <= hi {
            push_range(&mut out, s, last, e0);
            push_str(&mut out, sorted[k].2.as_str());
            last = e1;
        } else {
            push_str(&mut out, sorted[k].2.as_str());
        }
        k += 1;
    }
    push_range(&mut out, s, last, hi);
    if ap.as_str().unicode_len() == 0 {
        return out;
    }
    let oc = chars_of(out.as_str());
    let at = insert_point_at(&oc);
    let mut r = String::new();
    push_range(&mut r, &oc, 0, at);
    push_str(&mut r, ap.as_str());
    push_range(&mut r, &oc, at, oc.len());
    r
}

// -- Messages -----------------------------------------------------------------

pub open spec fn msg_cycle(path: Seq<char>) -> Seq<char> {
    "includes nested more than 16 deep; `"@ + path + "` is probably a cycle"@
}

pub open spec fn msg_no_file(path: Seq<char>) -> Seq<char> {
    "no file named `"@ + path + "`"@
}

pub open spec fn msg_unknown(path: Seq<char>) -> Seq<char> {
    "unknown field `"@ + path + "`"@
}

pub open spec fn msg_markup(path: Seq<char>) -> Seq<char> {
    "`"@ + path + "` is markup; write data-html=\""@ + path + "\" to emit it unescaped"@
}

pub open spec fn msg_collection(path: Seq<char>) -> Seq<char> {
    "`"@ + path + "` is a collection; it has no text form"@
}

pub open spec fn msg_not_list(path: Seq<char>) -> Seq<char> {
    "`"@ + path + "` is not a list; `data-each` needs one"@
}

pub open spec fn msg_no_child(path: Seq<char>) -> Seq<char> {
    "`data-each` over `"@ + path + "` has no child element to repeat"@
}

pub open spec fn msg_unclosed(name: Seq<char>) -> Seq<char> {
    "<"@ + name + "> is never closed"@
}

/// `pre`, then `s[a..b]`, then `post`.
fn message(pre: &str, s: &[char], a: usize, b: usize, post: &str) -> (r: String)
    requires
        a <= b <= s@.len(),
    ensures
        r@ == pre@ + s@.subrange(a as int, b as int) + post@,
{
    let mut out = String::new();
    push_str(&mut out, pre);
    push_range(&mut out, s, a, b);
    push_str(&mut out, post);
    out
}

// -- Scalars ------------------------------------------------------------------

/// The text form of a value bound by an escaping marker.
pub open spec fn scalar_spec(src: Src, m: Marker, v: Value) -> Result<Seq<char>, ErrSpec> {
    let path = src.text@.subrange(m.path.0 as int, m.path.1 as int);
    match v {
        Value::Nil => Ok(seq![]),
        Value::Num(n) => Ok(crate::text::signed_decimal(n as int)),
        Value::Bool(b) => Ok(if b { "true"@ } else { "false"@ }),
        Value::Text(t) => Ok(esc_spec(t@)),
        Value::Html(_) => Err(err_at(src, m.span.0 as int, msg_markup(path))),
        Value::List(_) => Err(err_at(src, m.span.0 as int, msg_collection(path))),
        Value::Dict(_) => Err(err_at(src, m.span.0 as int, msg_collection(path))),
    }
}

/// The raw form of a value bound by `data-html`.
pub open spec fn raw_spec(src: Src, m: Marker, v: Value) -> Result<Seq<char>, ErrSpec> {
    let path = src.text@.subrange(m.path.0 as int, m.path.1 as int);
    match v {
        Value::Html(t) => Ok(t@),
        Value::Text(t) => Ok(t@),
        Value::List(_) => Err(err_at(src, m.span.0 as int, msg_collection(path))),
        Value::Dict(_) => Err(err_at(src, m.span.0 as int, msg_collection(path))),
        _ => scalar_spec(src, m, v),
    }
}

pub open spec fn result_view(r: Result<String, Error>) -> Result<Seq<char>, ErrSpec> {
    match r {
        Ok(x) => Ok(x@),
        Err(e) => Err(err_view(e)),
    }
}

pub open spec fn marker_ok(cs: Seq<char>, m: Marker) -> bool {
    m.path.0 <= m.path.1 <= cs.len() && m.span.0 < usize::MAX
}

fn scalar(src: Src, cs: &[char], m: &Marker, v: &Value) -> (r: Result<String, Error>)
    requires
        cs@ == src.text@,
        marker_ok(cs@, *m),
    ensures
        result_view(r) == scalar_spec(src, *m, *v),
{
    match v {
        Value::Nil => Ok(String::new()),
        Value::Num(n) => {
            let mut out = String::new();
            crate::text::push_signed(&mut out, *n);
            Ok(out)
        },
        Value::Bool(b) => Ok(if *b { "true".to_owned() } else { "false".to_owned() }),
        Value::Text(t) => Ok(esc(t.as_str())),
        Value::Html(_) => {
            let mut msg = message("`", cs, m.path.0, m.path.1, "` is markup; write data-html=\"");
            push_range(&mut msg, cs, m.path.0, m.path.1);
            push_str(&mut msg, "\" to emit it unescaped");
            Err(src.at(cs, m.span.0, msg))
        },
        Value::List(_) | Value::Dict(_) => {
            let msg = message("`", cs, m.path.0, m.path.1, "` is a collection; it has no text form");
            Err(src.at(cs, m.span.0, msg))
        },
    }
}

fn raw(src: Src, cs: &[char], m: &Marker, v: &Value) -> (r: Result<String, Error>)
    requires
        cs@ == src.text@,
        marker_ok(cs@, *m),
    ensures
        result_view(r) == raw_spec(src, *m, *v),
{
    match v {
        Value::Html(t) => Ok(t.clone()),
        Value::Text(t) => Ok(t.clone()),
        Value::List(_) | Value::Dict(_) => {
            let msg = message("`", cs, m.path.0, m.path.1, "` is a collection; it has no text form");
            Err(src.at(cs, m.span.0, msg))
        },
        _ => scalar(src, cs, m, v),
    }
}


// -- Rendering ----------------------------------------------------------------

/// An include may not nest deeper than this. Templates are hand-written and
/// shallow; anything deeper is a cycle.
pub const MAX_DEPTH: usize = 16;

pub open spec fn prepend(p: Seq<char>, r: Result<Seq<char>, ErrSpec>) -> Result<Seq<char>, ErrSpec> {
    match r {
        Ok(x) => Ok(p + x),
        Err(e) => Err(e),
    }
}

/// The first file among `inc[k..]` named `name`.
pub open spec fn find_inc<'a>(inc: Seq<(&'a str, &'a str)>, name: Seq<char>, k: int) -> Option<
    (&'a str, &'a str),
>
    decreases inc.len() - k,
{
    if !(0 <= k < inc.len()) {
        None
    } else if inc[k].0@ == name {
        Some(inc[k])
    } else {
        find_inc(inc, name, k + 1)
    }
}

/// The first marker among `ms[k..]` that includes a file.
pub open spec fn first_include(ms: Seq<Marker>, k: int) -> Option<int>
    decreases ms.len() - k,
{
    if !(0 <= k < ms.len()) {
        None
    } else if ms[k].kind is Include {
        Some(k)
    } else {
        first_include(ms, k + 1)
    }
}

pub open spec fn writes(k: Kind) -> bool {
    k is Slot || k is Html || k is Each
}

/// The first marker among `ms[k..]` that writes the content.
pub open spec fn first_writer(ms: Seq<Marker>, k: int) -> Option<int>
    decreases ms.len() - k,
{
    if !(0 <= k < ms.len()) {
        None
    } else if writes(ms[k].kind) {
        Some(k)
    } else {
        first_writer(ms, k + 1)
    }
}

pub open spec fn path_of(s: Seq<char>, m: Marker) -> Seq<char> {
    s.subrange(m.path.0 as int, m.path.1 as int)
}

/// The values the first `k` markers bind, or the first that binds nothing.
pub open spec fn bind_upto<'v>(src: Src, ms: Seq<Marker>, sc: Seq<&Value<'v>>, k: int) -> Result<
    Seq<Value<'v>>,
    ErrSpec,
>
    decreases k,
{
    if k <= 0 || k > ms.len() {
        Ok(seq![])
    } else {
        match bind_upto(src, ms, sc, k - 1) {
            Err(e) => Err(e),
            Ok(vs) => match lookup_spec(sc, path_of(src.text@, ms[k - 1])) {
                None => Err(err_at(src, ms[k - 1].span.0 as int, msg_unknown(path_of(src.text@, ms[k - 1])))),
                Some(v) => Ok(vs.push(v)),
            },
        }
    }
}

/// This binding removes its element: a `Nil`, or `data-each` over nothing.
pub open spec fn drops(m: Marker, v: Value) -> bool {
    match v {
        Value::Nil => true,
        Value::List(items) => m.kind is Each && items.len() == 0,
        _ => false,
    }
}

pub open spec fn dropped(ms: Seq<Marker>, vs: Seq<Value>) -> bool {
    exists|k: int| 0 <= k < ms.len() && k < vs.len() && #[trigger] drops(ms[k], vs[k])
}

/// The text of each `data-attr-*` among the first `k` markers, with the span
/// of the attribute name it sets.
pub open spec fn attr_upto(src: Src, ms: Seq<Marker>, vs: Seq<Value>, k: int) -> Result<
    Seq<(int, int, Seq<char>)>,
    ErrSpec,
>
    decreases k,
{
    if k <= 0 || k > ms.len() || k > vs.len() {
        Ok(seq![])
    } else {
        match attr_upto(src, ms, vs, k - 1) {
            Err(e) => Err(e),
            Ok(a) => match ms[k - 1].kind {
                Kind::Attr(x, y) => match scalar_spec(src, ms[k - 1], vs[k - 1]) {
                    Err(e) => Err(e),
                    Ok(t) => Ok(a.push((x as int, y as int, t))),
                },
                _ => Ok(a),
            },
        }
    }
}

/// The prototype a `data-each` repeats: the first child element of
/// `s[oe..ce]`, from its `<` to its end.
pub open spec fn proto_spec(s: Seq<char>, oe: int, ce: int) -> Option<(int, int)> {
    proto_from(s, oe, ce)
}

/// The first child element that opens in `s[i..ce]`, with where it ends:
/// comments, text and stray `<` before it are passed over.
pub open spec fn proto_from(s: Seq<char>, i: int, ce: int) -> Option<(int, int)>
    decreases ce - i,
{
    match find_char_spec(s, i, ce, '<') {
        None => None,
        Some(p) => if !(i <= p < ce) {
            None
        } else if is_comment(s, p, ce) {
            let st = comment_skip(s, p, ce);
            if p < st <= ce {
                proto_from(s, st, ce)
            } else {
                None
            }
        } else {
            match tag_name_spec(s, p, s.len() as int) {
                Some((_, _, false)) => match extent_spec(s, p) {
                    Some((_, _, pe)) => Some((p, pe)),
                    None => None,
                },
                _ => proto_from(s, p + 1, ce),
            }
        },
    }
}

/// Emits `s[i..end]` of the file `src`, filling any marked element it meets.
/// Elements without markers are copied through.
pub open spec fn walk_from<'a, 'v>(
    src: Src<'a>,
    inc: Seq<(&'a str, &'a str)>,
    depth: int,
    i: int,
    end: int,
    sc: Seq<&Value<'v>>,
) -> Result<Seq<char>, ErrSpec>
    decreases 16 - depth, src.text@.len() - i, 2int, 0int,
{
    let s = src.text@;
    if !(0 <= i <= end <= s.len()) {
        Ok(seq![])
    } else {
        match find_char_spec(s, i, end, '<') {
            None => Ok(s.subrange(i, end)),
            Some(at) => if !(i <= at < end) {
                Ok(seq![])
            } else {
                let pre = s.subrange(i, at);
                if is_comment(s, at, end) {
                    let st = comment_skip(s, at, end);
                    if st <= at || st > end {
                        Ok(seq![])
                    } else {
                        prepend(pre + s.subrange(at, st), walk_from(src, inc, depth, st, end, sc))
                    }
                } else if is_decl(s, at, end) {
                    let st = decl_skip(s, at, end);
                    if st <= at || st > end {
                        Ok(seq![])
                    } else {
                        prepend(pre + s.subrange(at, st), walk_from(src, inc, depth, st, end, sc))
                    }
                } else {
                    match tag_name_spec(s, at, end) {
                        None => prepend(pre + seq!['<'], walk_from(src, inc, depth, at + 1, end, sc)),
                        Some((n0, n1, closing)) => {
                            let te = tag_end_spec(s, at, end);
                            let ms = markers_spec(s, at, te);
                            if te <= at || te > end {
                                Ok(seq![])
                            } else if closing || ms.len() == 0 {
                                let rawtext = !closing && named_spec(s.subrange(n0, n1), RAWTEXT@);
                                match extent_spec(s, at) {
                                    Some((_, ce, _)) if rawtext && te <= ce <= end => prepend(
                                        pre + s.subrange(at, ce),
                                        walk_from(src, inc, depth, ce, end, sc),
                                    ),
                                    _ => prepend(
                                        pre + s.subrange(at, te),
                                        walk_from(src, inc, depth, te, end, sc),
                                    ),
                                }
                            } else {
                                match extent_spec(s, at) {
                                    Some((oe, ce, ee)) if at < oe <= ce <= ee <= end => match element_spec(
                                        src,
                                        inc,
                                        depth,
                                        at,
                                        oe,
                                        ce,
                                        ee,
                                        ms,
                                        sc,
                                    ) {
                                        Err(e) => Err(e),
                                        Ok(x) => prepend(pre + x, walk_from(src, inc, depth, ee, end, sc)),
                                    },
                                    _ => Err(err_at(src, at, msg_unclosed(s.subrange(n0, n1)))),
                                }
                            }
                        },
                    }
                }
            },
        }
    }
}

/// A marked element, `s[at..ee]`, whose opening tag ends at `oe` and content at
/// `ce`.
pub open spec fn element_spec<'a, 'v>(
    src: Src<'a>,
    inc: Seq<(&'a str, &'a str)>,
    depth: int,
    at: int,
    oe: int,
    ce: int,
    ee: int,
    ms: Seq<Marker>,
    sc: Seq<&Value<'v>>,
) -> Result<Seq<char>, ErrSpec>
    decreases 16 - depth, src.text@.len() - at, 1int, 0int,
{
    let s = src.text@;
    if !(0 <= at < oe <= ce <= ee <= s.len()) {
        Ok(seq![])
    } else {
        match first_include(ms, 0) {
            Some(k) => {
                let m = ms[k];
                let path = path_of(s, m);
                if depth >= 16 {
                    Err(err_at(src, m.span.0 as int, msg_cycle(path)))
                } else {
                    match find_inc(inc, path, 0) {
                        None => Err(err_at(src, m.span.0 as int, msg_no_file(path))),
                        Some((name, text)) => walk_from(
                            Src { name, text },
                            inc,
                            depth + 1,
                            0,
                            text@.len() as int,
                            sc,
                        ),
                    }
                }
            },
            None => match bind_upto(src, ms, sc, ms.len() as int) {
                Err(e) => Err(e),
                Ok(vs) => if dropped(ms, vs) {
                    Ok(seq![])
                } else {
                    match attr_upto(src, ms, vs, ms.len() as int) {
                        Err(e) => Err(e),
                        Ok(avs) => {
                            let open = open_tag_spec(s, at, oe, ms, avs);
                            let close = s.subrange(ce, ee);
                            let content = match first_writer(ms, 0) {
                                None => walk_from(src, inc, depth, oe, ce, sc),
                                Some(k) => match ms[k].kind {
                                    Kind::Slot => scalar_spec(src, ms[k], vs[k]),
                                    Kind::Html => raw_spec(src, ms[k], vs[k]),
                                    _ => match vs[k] {
                                        Value::List(items) => match proto_spec(s, oe, ce) {
                                            Some((p, pe)) => each_from(
                                                src,
                                                inc,
                                                depth,
                                                at,
                                                p,
                                                pe,
                                                items@,
                                                0,
                                                sc,
                                            ),
                                            None => Err(
                                                err_at(src, ms[k].span.0 as int, msg_no_child(path_of(s, ms[k]))),
                                            ),
                                        },
                                        _ => Err(
                                            err_at(src, ms[k].span.0 as int, msg_not_list(path_of(s, ms[k]))),
                                        ),
                                    },
                                },
                            };
                            match content {
                                Err(e) => Err(e),
                                Ok(x) => Ok(open + x + close),
                            }
                        },
                    }
                },
            },
        }
    }
}

/// The prototype `s[p..pe]` once for each of `items[k..]`, each in a scope of
/// its own.
pub open spec fn each_from<'a, 'v>(
    src: Src<'a>,
    inc: Seq<(&'a str, &'a str)>,
    depth: int,
    at: int,
    p: int,
    pe: int,
    items: Seq<Value<'v>>,
    k: int,
    sc: Seq<&Value<'v>>,
) -> Result<Seq<char>, ErrSpec>
    decreases 16 - depth, src.text@.len() - at, 0int, items.len() - k,
{
    if !(at < p <= src.text@.len()) || !(0 <= k < items.len()) {
        Ok(seq![])
    } else {
        match walk_from(src, inc, depth, p, pe, sc.push(&items[k])) {
            Err(e) => Err(e),
            Ok(x) => prepend(x, each_from(src, inc, depth, at, p, pe, items, k + 1, sc)),
        }
    }
}


/// What the walk carries: the file it is in, the files it may pull in, and how
/// deep the includes have nested.
#[derive(Clone, Copy)]
struct Ctx<'a> {
    src: Src<'a>,
    inc: &'a [(&'a str, &'a str)],
    depth: usize,
}

pub open spec fn derefs<'v>(v: Seq<&Value<'v>>) -> Seq<Value<'v>> {
    v.map_values(|r: &Value<'v>| *r)
}

proof fn lemma_prepend(a: Seq<char>, b: Seq<char>, r: Result<Seq<char>, ErrSpec>)
    ensures
        prepend(a, prepend(b, r)) == prepend(a + b, r),
{
    match r {
        Ok(x) => assert(a + (b + x) =~= (a + b) + x),
        Err(_) => {},
    }
}

/// The file of the includes named `s[a..b]`.
fn find_inc_at<'a>(inc: &'a [(&'a str, &'a str)], s: &[char], a: usize, b: usize) -> (r: Option<
    (&'a str, &'a str),
>)
    requires
        a <= b <= s@.len(),
    ensures
        r == find_inc(inc@, s@.subrange(a as int, b as int), 0),
{
    let mut k: usize = 0;
    while k < inc.len()
        invariant
            a <= b <= s@.len(),
            k <= inc@.len(),
            find_inc(inc@, s@.subrange(a as int, b as int), 0) == find_inc(
                inc@,
                s@.subrange(a as int, b as int),
                k as int,
            ),
        decreases inc@.len() - k,
    {
        if range_eq(s, a, b, inc[k].0) {
            return Some(inc[k]);
        }
        k += 1;
    }
    None
}

fn first_include_at(ms: &Vec<Marker>) -> (r: Option<usize>)
    ensures
        match r {
            Some(k) => first_include(ms@, 0) == Some(k as int) && k < ms@.len(),
            None => first_include(ms@, 0) is None,
        },
{
    let mut k: usize = 0;
    while k < ms.len()
        invariant
            k <= ms@.len(),
            first_include(ms@, 0) == first_include(ms@, k as int),
        decreases ms@.len() - k,
    {
        if matches!(ms[k].kind, Kind::Include) {
            return Some(k);
        }
        k += 1;
    }
    None
}

fn first_writer_at(ms: &Vec<Marker>) -> (r: Option<usize>)
    ensures
        match r {
            Some(k) => first_writer(ms@, 0) == Some(k as int) && k < ms@.len(),
            None => first_writer(ms@, 0) is None,
        },
{
    let mut k: usize = 0;
    while k < ms.len()
        invariant
            k <= ms@.len(),
            first_writer(ms@, 0) == first_writer(ms@, k as int),
        decreases ms@.len() - k,
    {
        match ms[k].kind {
            Kind::Slot | Kind::Html | Kind::Each => return Some(k),
            _ => {},
        }
        k += 1;
    }
    None
}

/// The scopes with `item` innermost.
fn with_scope<'s, 'v>(sc: &Vec<&'s Value<'v>>, item: &'s Value<'v>) -> (r: Vec<&'s Value<'v>>)
    ensures
        r@ == sc@.push(item),
{
    let mut out: Vec<&'s Value<'v>> = Vec::new();
    let mut k: usize = 0;
    while k < sc.len()
        invariant
            k <= sc@.len(),
            out@ == sc@.subrange(0, k as int),
        decreases sc@.len() - k,
    {
        out.push(sc[k]);
        assert(out@ =~= sc@.subrange(0, k + 1));
        k += 1;
    }
    out.push(item);
    assert(out@ =~= sc@.push(item));
    out
}

pub open spec fn markers_ok(cs: Seq<char>, ms: Seq<Marker>) -> bool {
    forall|k: int| 0 <= k < ms.len() ==> #[trigger] marker_ok(cs, ms[k])
}

/// Once binding fails it stays failed.
proof fn lemma_bind_err<'v>(src: Src, ms: Seq<Marker>, sc: Seq<&Value<'v>>, j: int, n: int)
    requires
        0 < j <= n <= ms.len(),
        bind_upto(src, ms, sc, j) is Err,
    ensures
        bind_upto(src, ms, sc, n) == bind_upto(src, ms, sc, j),
    decreases n - j,
{
    if j < n {
        lemma_bind_err(src, ms, sc, j, n - 1);
    }
}

/// Resolves every marker's path, in order.
fn bind<'a, 's, 'v>(src: Src<'a>, cs: &[char], ms: &Vec<Marker>, sc: &Vec<&'s Value<'v>>) -> (r:
    Result<Vec<&'s Value<'v>>, Error>)
    requires
        cs@ == src.text@,
        markers_ok(cs@, ms@),
    ensures
        match r {
            Ok(v) => bind_upto(src, ms@, sc@, ms@.len() as int) == Ok::<Seq<Value<'v>>, ErrSpec>(
                derefs(v@),
            ) && v@.len() == ms@.len(),
            Err(e) => bind_upto(src, ms@, sc@, ms@.len() as int) == Err::<Seq<Value<'v>>, ErrSpec>(
                err_view(e),
            ),
        },
{
    let mut out: Vec<&'s Value<'v>> = Vec::new();
    assert(derefs(out@) =~= Seq::<Value<'v>>::empty());
    let mut k: usize = 0;
    while k < ms.len()
        invariant
            cs@ == src.text@,
            markers_ok(cs@, ms@),
            k <= ms@.len(),
            out@.len() == k,
            bind_upto(src, ms@, sc@, k as int) == Ok::<Seq<Value<'v>>, ErrSpec>(derefs(out@)),
        decreases ms@.len() - k,
    {
        let m = ms[k];
        assert(marker_ok(cs@, ms@[k as int]));
        match lookup(sc, cs, m.path.0, m.path.1) {
            None => {
                let msg = message("unknown field `", cs, m.path.0, m.path.1, "`");
                let e = src.at(cs, m.span.0, msg);
                proof { lemma_bind_err(src, ms@, sc@, k + 1, ms@.len() as int); }
                return Err(e);
            },
            Some(v) => {
                let ghost before = out@;
                out.push(v);
                assert(derefs(out@) =~= derefs(before).push(*v));
            },
        }
        k += 1;
    }
    Ok(out)
}


/// Whether one binding removes the element.
fn any_drops<'s, 'v>(ms: &Vec<Marker>, vs: &Vec<&'s Value<'v>>) -> (r: bool)
    requires
        ms@.len() == vs@.len(),
    ensures
        r == dropped(ms@, derefs(vs@)),
{
    let ghost d = derefs(vs@);
    let mut k: usize = 0;
    while k < ms.len()
        invariant
            ms@.len() == vs@.len(),
            d == derefs(vs@),
            k <= ms@.len(),
            forall|j: int| 0 <= j < k ==> !#[trigger] drops(ms@[j], d[j]),
        decreases ms@.len() - k,
    {
        let gone = match vs[k] {
            Value::Nil => true,
            Value::List(items) => matches!(ms[k].kind, Kind::Each) && items.len() == 0,
            _ => false,
        };
        assert(d[k as int] == *vs@[k as int]);
        if gone {
            assert(drops(ms@[k as int], d[k as int]));
            return true;
        }
        k += 1;
    }
    false
}

/// Once the attribute texts fail they stay failed.
proof fn lemma_attr_err(src: Src, ms: Seq<Marker>, vs: Seq<Value>, j: int, n: int)
    requires
        0 < j <= n <= ms.len(),
        n <= vs.len(),
        attr_upto(src, ms, vs, j) is Err,
    ensures
        attr_upto(src, ms, vs, n) == attr_upto(src, ms, vs, j),
    decreases n - j,
{
    if j < n {
        lemma_attr_err(src, ms, vs, j, n - 1);
    }
}

/// The text of every `data-attr-*` binding, with the span of the name it sets.
fn attr_values<'a, 's, 'v>(src: Src<'a>, cs: &[char], ms: &Vec<Marker>, vs: &Vec<&'s Value<'v>>) -> (r:
    Result<Vec<(usize, usize, String)>, Error>)
    requires
        cs@ == src.text@,
        markers_ok(cs@, ms@),
        markers_inside(ms@, 0, cs@.len() as int),
        ms@.len() == vs@.len(),
    ensures
        match r {
            Ok(a) => attr_upto(src, ms@, derefs(vs@), ms@.len() as int) == Ok::<
                Seq<(int, int, Seq<char>)>,
                ErrSpec,
            >(avs_view(a@)) && forall|k: int| 0 <= k < a@.len() ==> #[trigger] a@[k].0 <= a@[k].1
                <= cs@.len(),
            Err(e) => attr_upto(src, ms@, derefs(vs@), ms@.len() as int) == Err::<
                Seq<(int, int, Seq<char>)>,
                ErrSpec,
            >(err_view(e)),
        },
{
    let ghost d = derefs(vs@);
    let mut out: Vec<(usize, usize, String)> = Vec::new();
    assert(avs_view(out@) =~= Seq::<(int, int, Seq<char>)>::empty());
    let mut k: usize = 0;
    while k < ms.len()
        invariant
            cs@ == src.text@,
            markers_ok(cs@, ms@),
            markers_inside(ms@, 0, cs@.len() as int),
            ms@.len() == vs@.len(),
            d == derefs(vs@),
            k <= ms@.len(),
            attr_upto(src, ms@, d, k as int) == Ok::<Seq<(int, int, Seq<char>)>, ErrSpec>(
                avs_view(out@),
            ),
            forall|j: int| 0 <= j < out@.len() ==> #[trigger] out@[j].0 <= out@[j].1 <= cs@.len(),
        decreases ms@.len() - k,
    {
        let m = ms[k];
        assert(marker_ok(cs@, ms@[k as int]));
        assert(d[k as int] == *vs@[k as int]);
        match m.kind {
            Kind::Attr(x, y) => {
                assert(x <= y <= cs@.len());
                match scalar(src, cs, &m, vs[k]) {
                    Err(e) => {
                        proof { lemma_attr_err(src, ms@, d, k + 1, ms@.len() as int); }
                        return Err(e);
                    },
                    Ok(t) => {
                        let ghost before = avs_view(out@);
                        let ghost tv = t@;
                        out.push((x, y, t));
                        assert(avs_view(out@) =~= before.push((x as int, y as int, tv)));
                    },
                }
            },
            _ => {},
        }
        k += 1;
    }
    Ok(out)
}

/// The first child element of `s[oe..ce]`, from its `<` to its end.
fn proto_at(s: &[char], oe: usize, ce: usize) -> (r: Option<(usize, usize)>)
    requires
        oe <= ce <= s@.len(),
    ensures
        match r {
            Some((p, pe)) => proto_spec(s@, oe as int, ce as int) == Some((p as int, pe as int)) && oe
                <= p < ce && p < pe <= s@.len(),
            None => proto_spec(s@, oe as int, ce as int) is None,
        },
{
    let mut i = oe;
    loop
        invariant
            oe <= i <= ce <= s@.len(),
            proto_spec(s@, oe as int, ce as int) == proto_from(s@, i as int, ce as int),
        decreases ce - i,
    {
        proof { lemma_find_char_bounds(s@, i as int, ce as int, '<'); }
        let p = match find_char(s, i, ce, '<') {
            None => return None,
            Some(p) => p,
        };
        if starts_at(s, p, ce, "<!--") {
            let st = comment_end(s, p, ce);
            i = st;
        } else {
            match tag_name_at(s, p, s.len()) {
                Some((_, _, false)) => {
                    return match extent_at(s, p) {
                        Some((_, _, pe)) => Some((p, pe)),
                        None => None,
                    };
                },
                _ => {
                    i = p + 1;
                },
            }
        }
    }
}


/// Emits `cs[start..end]` of the current file, filling any marked element it
/// meets. Elements without markers are copied through; the scan meets their
/// children on its own, so only a marked element needs its subtree recursed
/// into.
#[verifier::rlimit(60)]
#[verifier::spinoff_prover]
fn walk<'a, 's, 'v>(c: Ctx<'a>, cs: &[char], start: usize, end: usize, sc: &Vec<&'s Value<'v>>) -> (r:
    Result<String, Error>)
    requires
        cs@ == c.src.text@,
        start <= end <= cs@.len(),
        c.depth <= MAX_DEPTH,
    ensures
        result_view(r) == walk_from(c.src, c.inc@, c.depth as int, start as int, end as int, sc@),
    decreases 16 - c.depth, cs@.len() - start, 2int, 0int,
{
    let ghost s = cs@;
    let mut out = String::new();
    let mut i = start;
    loop
        invariant
            cs@ == c.src.text@,
            s == cs@,
            start <= i <= end <= cs@.len(),
            c.depth <= MAX_DEPTH,
            walk_from(c.src, c.inc@, c.depth as int, start as int, end as int, sc@) == prepend(
                out@,
                walk_from(c.src, c.inc@, c.depth as int, i as int, end as int, sc@),
            ),
        decreases end - i,
    {
        proof { lemma_find_char_bounds(s, i as int, end as int, '<'); }
        let at = match find_char(cs, i, end, '<') {
            None => {
                push_range(&mut out, cs, i, end);
                return Ok(out);
            },
            Some(k) => k,
        };
        let ghost pre = s.subrange(i as int, at as int);
        let ghost before = out@;
        push_range(&mut out, cs, i, at);
        // Comments and declarations are not tags and hold no markers.
        let next: usize;
        if starts_at(cs, at, end, "<!--") {
            next = comment_end(cs, at, end);
            push_range(&mut out, cs, at, next);
        } else if starts_at(cs, at, end, "<!") || starts_at(cs, at, end, "<?") {
            next = decl_end(cs, at, end);
            push_range(&mut out, cs, at, next);
        } else {
            match tag_name_at(cs, at, end) {
                None => {
                    next = at + 1;
                    push_char(&mut out, '<');
                    assert(s.subrange(at as int, next as int) =~= seq!['<']);
                },
                Some((n0, n1, closing)) => {
                    let te = tag_end_at(cs, at, end);
                    let ms = markers(cs, at, te);
                    if closing || ms.len() == 0 {
                        // Rawtext content is not markup: a `<` in it does not
                        // open a tag.
                        let rawtext = !closing && named(cs, n0, n1, &RAWTEXT);
                        let mut stop = te;
                        if rawtext {
                            match extent_at(cs, at) {
                                Some((_, ce, _)) => if te <= ce && ce <= end {
                                    stop = ce;
                                },
                                None => {},
                            }
                        }
                        next = stop;
                        push_range(&mut out, cs, at, next);
                    } else {
                        match extent_at(cs, at) {
                            Some((oe, ce, ee)) => {
                                if !(at < oe && oe <= ce && ce <= ee && ee <= end) {
                                    let msg = message("<", cs, n0, n1, "> is never closed");
                                    return Err(c.src.at(cs, at, msg));
                                }
                                assert(cs@.len() == cs.len());
                                assert(markers_ok(cs@, ms@));
                                let x = match element(c, cs, at, oe, ce, ee, &ms, sc) {
                                    Err(e) => return Err(e),
                                    Ok(x) => x,
                                };
                                next = ee;
                                push_str(&mut out, x.as_str());
                                proof {
                                    lemma_prepend(before, pre + x@, walk_from(c.src, c.inc@, c.depth as int, next as int, end as int, sc@));
                                    assert(out@ =~= before + (pre + x@));
                                }
                            },
                            None => {
                                let msg = message("<", cs, n0, n1, "> is never closed");
                                return Err(c.src.at(cs, at, msg));
                            },
                        }
                    }
                },
            }
        }
        proof {
            if out@ =~= before + (pre + s.subrange(at as int, next as int)) {
                lemma_prepend(
                    before,
                    pre + s.subrange(at as int, next as int),
                    walk_from(c.src, c.inc@, c.depth as int, next as int, end as int, sc@),
                );
            }
        }
        i = next;
    }
}

/// A marked element: an include replaces it, a binding that drops it removes
/// it, and otherwise its opening tag is rewritten and at most one marker writes
/// its content.
fn element<'a, 's, 'v>(
    c: Ctx<'a>,
    cs: &[char],
    at: usize,
    oe: usize,
    ce: usize,
    ee: usize,
    ms: &Vec<Marker>,
    sc: &Vec<&'s Value<'v>>,
) -> (r: Result<String, Error>)
    requires
        cs@ == c.src.text@,
        at < oe <= ce <= ee <= cs@.len(),
        c.depth <= MAX_DEPTH,
        markers_inside(ms@, at as int, cs@.len() as int),
        markers_ok(cs@, ms@),
    ensures
        result_view(r) == element_spec(
            c.src,
            c.inc@,
            c.depth as int,
            at as int,
            oe as int,
            ce as int,
            ee as int,
            ms@,
            sc@,
        ),
    decreases 16 - c.depth, cs@.len() - at, 1int, 0int,
{
    // An include replaces its element rather than filling it.
    match first_include_at(ms) {
        Some(k) => {
            let m = ms[k];
            assert(marker_ok(cs@, ms@[k as int]));
            if c.depth >= MAX_DEPTH {
                let msg = message(
                    "includes nested more than 16 deep; `",
                    cs,
                    m.path.0,
                    m.path.1,
                    "` is probably a cycle",
                );
                return Err(c.src.at(cs, m.span.0, msg));
            }
            match find_inc_at(c.inc, cs, m.path.0, m.path.1) {
                None => {
                    let msg = message("no file named `", cs, m.path.0, m.path.1, "`");
                    return Err(c.src.at(cs, m.span.0, msg));
                },
                Some((name, text)) => {
                    let inner = Ctx { src: Src { name, text }, inc: c.inc, depth: c.depth + 1 };
                    let tc = chars_of(text);
                    return walk(inner, &tc, 0, tc.len(), sc);
                },
            }
        },
        None => {},
    }
    // Every binding first: one that drops removes the element.
    let vs = match bind(c.src, cs, ms, sc) {
        Err(e) => return Err(e),
        Ok(v) => v,
    };
    let ghost d = derefs(vs@);
    if any_drops(ms, &vs) {
        return Ok(String::new());
    }
    let avs = match attr_values(c.src, cs, ms, &vs) {
        Err(e) => return Err(e),
        Ok(a) => a,
    };
    let open = open_tag(cs, at, oe, ms, &avs);
    // At most one marker writes the content; the rest are attributes.
    let content = match first_writer_at(ms) {
        None => walk(c, cs, oe, ce, sc),
        Some(k) => {
            let m = ms[k];
            assert(marker_ok(cs@, ms@[k as int]));
            assert(d[k as int] == *vs@[k as int]);
            match m.kind {
                Kind::Slot => scalar(c.src, cs, &m, vs[k]),
                Kind::Html => raw(c.src, cs, &m, vs[k]),
                _ => match vs[k] {
                    Value::List(items) => match proto_at(cs, oe, ce) {
                        Some((p, pe)) => each(c, cs, at, p, pe, items, sc),
                        None => {
                            let msg = message(
                                "`data-each` over `",
                                cs,
                                m.path.0,
                                m.path.1,
                                "` has no child element to repeat",
                            );
                            Err(c.src.at(cs, m.span.0, msg))
                        },
                    },
                    _ => {
                        let msg = message(
                            "`",
                            cs,
                            m.path.0,
                            m.path.1,
                            "` is not a list; `data-each` needs one",
                        );
                        Err(c.src.at(cs, m.span.0, msg))
                    },
                },
            }
        },
    };
    match content {
        Err(e) => Err(e),
        Ok(x) => {
            let mut out = open;
            push_str(&mut out, x.as_str());
            push_range(&mut out, cs, ce, ee);
            Ok(out)
        },
    }
}

/// The prototype `cs[p..pe]` once per item, each item scoped innermost, so the
/// prototype still sees the page's fields.
fn each<'a, 's, 'v>(
    c: Ctx<'a>,
    cs: &[char],
    at: usize,
    p: usize,
    pe: usize,
    items: &'s Vec<Value<'v>>,
    sc: &Vec<&'s Value<'v>>,
) -> (r: Result<String, Error>)
    requires
        cs@ == c.src.text@,
        at < p <= pe <= cs@.len(),
        c.depth <= MAX_DEPTH,
    ensures
        result_view(r) == each_from(
            c.src,
            c.inc@,
            c.depth as int,
            at as int,
            p as int,
            pe as int,
            items@,
            0,
            sc@,
        ),
    decreases 16 - c.depth, cs@.len() - at, 0int, 0int,
{
    let mut out = String::new();
    let mut k: usize = 0;
    while k < items.len()
        invariant
            cs@ == c.src.text@,
            at < p <= pe <= cs@.len(),
            c.depth <= MAX_DEPTH,
            k <= items@.len(),
            each_from(c.src, c.inc@, c.depth as int, at as int, p as int, pe as int, items@, 0, sc@)
                == prepend(
                out@,
                each_from(c.src, c.inc@, c.depth as int, at as int, p as int, pe as int, items@, k as int, sc@),
            ),
        decreases items@.len() - k,
    {
        let inner = with_scope(sc, &items[k]);
        match walk(c, cs, p, pe, &inner) {
            Err(e) => return Err(e),
            Ok(x) => {
                let ghost before = out@;
                push_str(&mut out, x.as_str());
                proof {
                    lemma_prepend(
                        before,
                        x@,
                        each_from(c.src, c.inc@, c.depth as int, at as int, p as int, pe as int, items@, k + 1, sc@),
                    );
                }
            },
        }
        k += 1;
    }
    assert(out@ + Seq::<char>::empty() =~= out@);
    Ok(out)
}

/// Fills the template `src`. Two scopes: what the page itself binds, falling
/// back to what the site provides. A page shadows the site rather than copying
/// it, and `Nil` shadows too.
pub fn render<'a, 'v>(src: Src<'a>, page: &Value<'v>, site: &Value<'v>, inc: &'a [(&'a str, &'a str)]) -> (r:
    Result<String, Error>)
    ensures
        result_view(r) == walk_from(src, inc@, 0, 0, src.text@.len() as int, seq![site, page]),
{
    let mut sc: Vec<&Value<'v>> = Vec::new();
    sc.push(site);
    sc.push(page);
    assert(sc@ =~= seq![site, page]);
    let cs = chars_of(src.text);
    walk(Ctx { src, inc, depth: 0 }, &cs, 0, cs.len(), &sc)
}


} // verus!
