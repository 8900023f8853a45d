//! HTML Standard §13.2.5 tokenization
//! <https://html.spec.whatwg.org/multipage/parsing.html>
//!
//! Deliberately missing: character-reference decoding, foreign content, and `srcset`.
//!
//! Positions are indices into the `char` sequence of the text.
use vstd::prelude::*;

use crate::bytes::{byte_offsets, bytes_upto, char_of_byte, chars_before, on_boundary};

use crate::text::{
    alpha, at_pat, find, find_char, find_char_spec, find_pat, lemma_find_char_bounds,
    lemma_find_pat_bounds, lemma_trim_end, push_range, push_str, starts_at, trim_end, trim_end_pos, chars_of, eq_ignore_case, in_class, is_ascii_alpha, is_html_space, lemma_run_end,
    range_eq_ignore_case, ranges_eq_ignore_case, run, run_end, Class,
};

verus! {

pub const URL_ATTRS: [&'static str; 5] = ["href", "src", "poster", "cite", "data"];

pub const RAWTEXT: [&'static str; 4] = ["script", "style", "textarea", "title"];

/// §13.1.2 void elements: they have no closing tag, so they have no content and
/// cannot nest.
pub const VOID: [&'static str; 14] = [
    "area", "base", "br", "col", "embed", "hr", "img", "input", "link", "meta", "param", "source",
    "track", "wbr",
];

/// `name` is one of `set`, ignoring ASCII case.
pub open spec fn named_spec(name: Seq<char>, set: Seq<&str>) -> bool {
    exists|k: int| 0 <= k < set.len() && eq_ignore_case(name, #[trigger] set[k]@)
}

pub(crate) fn named(s: &[char], a: usize, b: usize, set: &[&str]) -> (r: bool)
    requires
        a <= b <= s@.len(),
    ensures
        r == named_spec(s@.subrange(a as int, b as int), set@),
{
    let mut k: usize = 0;
    while k < set.len()
        invariant
            a <= b <= s@.len(),
            k <= set@.len(),
            forall|j: int| 0 <= j < k ==> !eq_ignore_case(s@.subrange(a as int, b as int), #[trigger] set@[j]@),
        decreases set@.len() - k,
    {
        if range_eq_ignore_case(s, a, b, set[k]) {
            return true;
        }
        k += 1;
    }
    false
}

/// An element whose content is text, not markup: `<script>`, `<style>`,
/// `<textarea>`, `<title>`.
pub fn named_rawtext(name: &str) -> (r: bool)
    ensures
        r == named_spec(name@, RAWTEXT@),
{
    let cs = chars_of(name);
    assert(cs@.subrange(0, cs@.len() as int) =~= cs@);
    named(&cs, 0, cs.len(), &RAWTEXT)
}

// -- Tag names and tag ends ---------------------------------------------------

/// The name of the tag that starts at `at`, as a span, and whether it closes.
pub open spec fn tag_name_spec(s: Seq<char>, at: int, end: int) -> Option<(int, int, bool)> {
    if !(0 <= at < end && end <= s.len()) || s[at] != '<' {
        None
    } else {
        let closing = at + 1 < end && s[at + 1] == '/';
        let b = if closing { at + 2 } else { at + 1 };
        if b < end && is_ascii_alpha(s[b]) {
            Some((b, run_end(s, b, end, Class::Alnum), closing))
        } else {
            None
        }
    }
}

pub open spec fn span3(r: Option<(usize, usize, bool)>) -> Option<(int, int, bool)> {
    match r {
        Some((a, b, c)) => Some((a as int, b as int, c)),
        None => None,
    }
}

pub(crate) fn tag_name_at(s: &[char], at: usize, end: usize) -> (r: Option<(usize, usize, bool)>)
    requires
        at <= end <= s@.len(),
    ensures
        span3(r) == tag_name_spec(s@, at as int, end as int),
        r matches Some((a, b, _)) ==> at < a <= b <= end,
{
    if at >= end || s[at] != '<' {
        return None;
    }
    let closing = at + 1 < end && s[at + 1] == '/';
    let b = if closing { at + 2 } else { at + 1 };
    if b < end && alpha(s[b]) {
        let e = run(s, b, end, Class::Alnum);
        Some((b, e, closing))
    } else {
        None
    }
}

/// Where the tag that starts `s[at..end]` ends: just past its `>`, skipping a
/// `>` inside a quoted attribute value, or `end` if it never closes.
pub open spec fn tag_end_from(s: Seq<char>, i: int, end: int, quote: Option<char>) -> int
    decreases end - i,
{
    if !(0 <= i < end && end <= s.len()) {
        end
    } else {
        match quote {
            Some(q) => tag_end_from(s, i + 1, end, if s[i] == q { None } else { quote }),
            None => if s[i] == '"' || s[i] == '\'' {
                tag_end_from(s, i + 1, end, Some(s[i]))
            } else if s[i] == '>' {
                i + 1
            } else {
                tag_end_from(s, i + 1, end, None)
            },
        }
    }
}

pub open spec fn tag_end_spec(s: Seq<char>, at: int, end: int) -> int {
    tag_end_from(s, at + 1, end, None)
}

pub proof fn lemma_tag_end_from(s: Seq<char>, i: int, end: int, quote: Option<char>)
    requires
        0 <= i <= end <= s.len(),
    ensures
        i < tag_end_from(s, i, end, quote) <= end || (i == end && tag_end_from(s, i, end, quote) == end),
    decreases end - i,
{
    if i < end {
        match quote {
            Some(q) => lemma_tag_end_from(s, i + 1, end, if s[i] == q { None } else { quote }),
            None => if s[i] == '"' || s[i] == '\'' {
                lemma_tag_end_from(s, i + 1, end, Some(s[i]))
            } else if s[i] == '>' {
            } else {
                lemma_tag_end_from(s, i + 1, end, None)
            },
        }
    }
}

pub(crate) fn tag_end_at(s: &[char], at: usize, end: usize) -> (r: usize)
    requires
        at < end <= s@.len(),
    ensures
        r == tag_end_spec(s@, at as int, end as int),
        at < r <= end,
{
    proof { lemma_tag_end_from(s@, at + 1, end as int, None); }
    let mut i = at + 1;
    let mut quote: Option<char> = None;
    while i < end
        invariant
            at < i <= end <= s@.len(),
            tag_end_spec(s@, at as int, end as int) == tag_end_from(s@, i as int, end as int, quote),
        decreases end - i,
    {
        let c = s[i];
        match quote {
            Some(q) => {
                if c == q {
                    quote = None;
                }
            },
            None => {
                if c == '"' || c == '\'' {
                    quote = Some(c);
                } else if c == '>' {
                    return i + 1;
                }
            },
        }
        i += 1;
    }
    end
}

/// The name, as it appears in the source, of the tag that `tag` starts with,
/// and whether it is a closing tag.
pub fn tag_name(tag: &str) -> (r: Option<(&str, bool)>)
    ensures
        match tag_name_spec(tag@, 0, tag@.len() as int) {
            None => r is None,
            Some((a, b, c)) => r matches Some((n, c2)) && n@ == tag@.subrange(a, b) && c2 == c,
        },
{
    let cs = chars_of(tag);
    match tag_name_at(&cs, 0, cs.len()) {
        Some((a, b, c)) => Some((tag.substring_char(a, b), c)),
        None => None,
    }
}

/// Where the tag that `tag` starts with ends, as a byte offset: just past its
/// `>`, or the end of `tag`.
pub fn tag_end(tag: &str) -> (r: usize)
    ensures
        tag@.len() == 0 ==> r == 0,
        tag@.len() > 0 ==> r == bytes_upto(tag@, tag_end_spec(tag@, 0, tag@.len() as int)),
{
    let cs = chars_of(tag);
    if cs.len() == 0 {
        return 0;
    }
    let e = tag_end_at(&cs, 0, cs.len());
    let offs = byte_offsets(tag, &cs);
    offs[e]
}

// -- Rawtext ------------------------------------------------------------------

/// A `</name` (any case) starts at `k`.
pub open spec fn closes_at(s: Seq<char>, k: int, end: int, name: Seq<char>) -> bool {
    0 <= k && k + 2 + name.len() <= end && end <= s.len() && s[k] == '<' && s[k + 1] == '/'
        && eq_ignore_case(s.subrange(k + 2, k + 2 + name.len()), name)
}

/// Where rawtext content that starts at `k` stops: at the first `</name`, or
/// at `end`.
pub open spec fn rawtext_end_spec(s: Seq<char>, k: int, end: int, name: Seq<char>) -> int
    decreases end - k,
{
    if !(0 <= k < end && end <= s.len()) {
        end
    } else if closes_at(s, k, end, name) {
        k
    } else {
        rawtext_end_spec(s, k + 1, end, name)
    }
}

pub proof fn lemma_rawtext_end(s: Seq<char>, k: int, end: int, name: Seq<char>)
    requires
        0 <= k <= end <= s.len(),
    ensures
        k <= rawtext_end_spec(s, k, end, name) <= end,
    decreases end - k,
{
    if k < end && !closes_at(s, k, end, name) {
        lemma_rawtext_end(s, k + 1, end, name);
    }
}

pub(crate) fn rawtext_end(s: &[char], from: usize, end: usize, n0: usize, n1: usize) -> (r: usize)
    requires
        from <= end <= s@.len(),
        n0 <= n1 <= s@.len(),
    ensures
        r == rawtext_end_spec(s@, from as int, end as int, s@.subrange(n0 as int, n1 as int)),
        from <= r <= end,
{
    let ghost name = s@.subrange(n0 as int, n1 as int);
    proof { lemma_rawtext_end(s@, from as int, end as int, name); }
    let len = n1 - n0;
    let mut k = from;
    while k < end
        invariant
            from <= k <= end <= s@.len(),
            n0 <= n1 <= s@.len(),
            len == n1 - n0,
            name == s@.subrange(n0 as int, n1 as int),
            rawtext_end_spec(s@, from as int, end as int, name) == rawtext_end_spec(
                s@,
                k as int,
                end as int,
                name,
            ),
        decreases end - k,
    {
        if s[k] == '<' && k + 1 < end && s[k + 1] == '/' && len <= end - (k + 2)
            && ranges_eq_ignore_case(s, k + 2, k + 2 + len, n0, n1) {
            return k;
        }
        k += 1;
    }
    end
}

// -- Attributes ---------------------------------------------------------------

/// An attribute found in a tag: the span of its name, the span of its value
/// inside any quotes, and where the whole `name="value"` ends.
pub type AttrSpec = (int, int, Option<(int, int)>, int);

/// Where attribute parsing begins in the tag `s[lo..hi]`: past `<`, an optional
/// `/`, and the tag name.
pub open spec fn attrs_begin(s: Seq<char>, lo: int, hi: int) -> int {
    let i = lo + 1;
    let i = if i < hi && s[i] == '/' { i + 1 } else { i };
    run_end(s, i, hi, Class::TagName)
}

pub open spec fn skip_space(s: Seq<char>, i: int, hi: int) -> int {
    run_end(s, i, hi, Class::HtmlSpace)
}

/// The value that follows the `=` at `m`, and where parsing continues.
pub open spec fn value_after_eq(s: Seq<char>, m: int, hi: int) -> (Option<(int, int)>, int) {
    let v = skip_space(s, m + 1, hi);
    if v < hi && (s[v] == '"' || s[v] == '\'') {
        let e = run_end(s, v + 1, hi, Class::NotQuote(s[v]));
        (Some((v + 1, e)), if e < hi { e + 1 } else { hi })
    } else if v < hi {
        let e = run_end(s, v, hi, Class::Unquoted);
        (Some((v, e)), e)
    } else {
        (None, v)
    }
}

/// One round of the attribute scanner at `i`: `None` when the tag is over,
/// otherwise where to continue and the attribute read, if any.
pub open spec fn attr_step(s: Seq<char>, i: int, hi: int) -> Option<(int, Option<AttrSpec>)> {
    let j = skip_space(s, i, hi);
    if !(0 <= j < hi && hi <= s.len()) || s[j] == '>' {
        None
    } else if s[j] == '/' {
        Some((j + 1, None))
    } else {
        let k = run_end(s, j, hi, Class::AttrName);
        let m = skip_space(s, k, hi);
        let (value, next) = if m < hi && s[m] == '=' { value_after_eq(s, m, hi) } else { (None, m) };
        Some((next, if k > j { Some((j, k, value, next)) } else { None }))
    }
}

pub open spec fn attrs_from(s: Seq<char>, i: int, hi: int) -> Seq<AttrSpec>
    decreases hi - i,
{
    match attr_step(s, i, hi) {
        None => seq![],
        Some((next, a)) => if i < next <= hi {
            match a {
                Some(a) => seq![a] + attrs_from(s, next, hi),
                None => attrs_from(s, next, hi),
            }
        } else {
            seq![]
        },
    }
}

/// Every attribute of the tag `s[lo..hi]`, in order.
pub open spec fn attrs_spec(s: Seq<char>, lo: int, hi: int) -> Seq<AttrSpec> {
    if lo < hi {
        attrs_from(s, attrs_begin(s, lo, hi), hi)
    } else {
        seq![]
    }
}

/// An attribute read by the scanner, as spans of the text it was read from.
#[derive(Clone, Copy)]
pub struct AttrPos {
    pub name: (usize, usize),
    pub value: Option<(usize, usize)>,
    pub end: usize,
}

impl AttrPos {
    pub open spec fn spec(self) -> AttrSpec {
        (
            self.name.0 as int,
            self.name.1 as int,
            match self.value {
                Some((a, b)) => Some((a as int, b as int)),
                None => None,
            },
            self.end as int,
        )
    }
}

pub open spec fn attr_specs(v: Seq<AttrPos>) -> Seq<AttrSpec> {
    v.map_values(|a: AttrPos| a.spec())
}

/// The attributes of a well-ordered tag lie in order inside it.
pub open spec fn attrs_ordered(a: Seq<AttrSpec>, from: int, hi: int) -> bool {
    &&& forall|k: int| 0 <= k < a.len() ==> {
        let (n0, n1, v, e) = #[trigger] a[k];
        &&& from <= n0 < n1 <= e <= hi
        &&& (v matches Some((v0, v1)) ==> n1 <= v0 <= v1 <= e)
    }
    &&& forall|k: int| 0 <= k < a.len() - 1 ==> (#[trigger] a[k]).3 <= a[k + 1].0
}

proof fn lemma_ordered_weaken(a: Seq<AttrSpec>, from: int, lower: int, hi: int)
    requires
        attrs_ordered(a, from, hi),
        lower <= from,
    ensures
        attrs_ordered(a, lower, hi),
{
    assert forall|k: int| 0 <= k < a.len() implies {
        let (n0, n1, v, e) = #[trigger] a[k];
        &&& lower <= n0 < n1 <= e <= hi
        &&& (v matches Some((v0, v1)) ==> n1 <= v0 <= v1 <= e)
    } by {
        let (n0, n1, v, e) = a[k];
    }
}

proof fn lemma_skip_space(s: Seq<char>, i: int, hi: int)
    requires
        0 <= i <= hi <= s.len(),
    ensures
        i <= skip_space(s, i, hi) <= hi,
        skip_space(s, i, hi) < hi ==> !is_html_space(s[skip_space(s, i, hi)]),
{
    lemma_run_end(s, i, hi, Class::HtmlSpace);
}

proof fn lemma_attr_step(s: Seq<char>, i: int, hi: int)
    requires
        0 <= i <= hi <= s.len(),
    ensures
        attr_step(s, i, hi) matches Some((next, a)) ==> i < next <= hi && (a matches Some(
            x,
        ) ==> {
            let (n0, n1, v, e) = x;
            &&& i <= n0 < n1 <= e && e == next
            &&& (v matches Some((v0, v1)) ==> n1 <= v0 <= v1 <= e)
        }),
{
    let j = skip_space(s, i, hi);
    lemma_skip_space(s, i, hi);
    if j < hi && s[j] != '>' && s[j] != '/' {
        let k = run_end(s, j, hi, Class::AttrName);
        lemma_run_end(s, j, hi, Class::AttrName);
        let m = skip_space(s, k, hi);
        lemma_skip_space(s, k, hi);
        if m < hi && s[m] == '=' {
            let v = skip_space(s, m + 1, hi);
            lemma_skip_space(s, m + 1, hi);
            if v < hi && (s[v] == '"' || s[v] == '\'') {
                lemma_run_end(s, v + 1, hi, Class::NotQuote(s[v]));
            } else if v < hi {
                lemma_run_end(s, v, hi, Class::Unquoted);
            }
        } else {
            if k == j {
                assert(in_class(Class::AttrName, s[j]));
            }
        }
    }
}

pub(crate) proof fn lemma_attrs_from(s: Seq<char>, i: int, hi: int)
    requires
        0 <= i <= hi <= s.len(),
    ensures
        attrs_ordered(attrs_from(s, i, hi), i, hi),
        attrs_from(s, i, hi).len() > 0 ==> attrs_from(s, i, hi)[0].0 >= i,
    decreases hi - i,
{
    lemma_attr_step(s, i, hi);
    match attr_step(s, i, hi) {
        None => {},
        Some((next, a)) => {
            if i < next {
                lemma_attrs_from(s, next, hi);
                let rest = attrs_from(s, next, hi);
                match a {
                    Some(x) => {
                        let all = seq![x] + rest;
                        assert(all =~= attrs_from(s, i, hi));
                        assert forall|k: int| 0 <= k < all.len() - 1 implies (#[trigger] all[k]).3
                            <= all[k + 1].0 by {
                            if k > 0 {
                                assert(all[k] == rest[k - 1]);
                                assert(all[k + 1] == rest[k]);
                            }
                        }
                        assert forall|k: int| 0 <= k < all.len() implies {
                            let (n0, n1, v, e) = #[trigger] all[k];
                            &&& i <= n0 < n1 <= e <= hi
                            &&& (v matches Some((v0, v1)) ==> n1 <= v0 <= v1 <= e)
                        } by {
                            if k > 0 {
                                assert(all[k] == rest[k - 1]);
                            }
                        }
                    },
                    None => {},
                }
            }
        },
    }
}

pub(crate) proof fn lemma_attrs_begin(s: Seq<char>, lo: int, hi: int)
    requires
        0 <= lo < hi <= s.len(),
    ensures
        lo < attrs_begin(s, lo, hi) <= hi,
{
    let i = lo + 1;
    let i = if i < hi && s[i] == '/' { i + 1 } else { i };
    lemma_run_end(s, i, hi, Class::TagName);
}

fn skip_spaces(s: &[char], i: usize, hi: usize) -> (r: usize)
    requires
        i <= hi <= s@.len(),
    ensures
        r == skip_space(s@, i as int, hi as int),
        i <= r <= hi,
{
    run(s, i, hi, Class::HtmlSpace)
}

fn attr_step_at(s: &[char], i: usize, hi: usize) -> (r: Option<(usize, Option<AttrPos>)>)
    requires
        i <= hi <= s@.len(),
    ensures
        match (r, attr_step(s@, i as int, hi as int)) {
            (None, None) => true,
            (Some((n, a)), Some((n2, a2))) => n == n2 && match (a, a2) {
                (None, None) => true,
                (Some(x), Some(y)) => x.spec() == y,
                _ => false,
            },
            _ => false,
        },
{
    let j = skip_spaces(s, i, hi);
    if j >= hi || s[j] == '>' {
        return None;
    }
    if s[j] == '/' {
        return Some((j + 1, None));
    }
    let k = run(s, j, hi, Class::AttrName);
    let m = skip_spaces(s, k, hi);
    let (value, next): (Option<(usize, usize)>, usize) = if m < hi && s[m] == '=' {
        let v = skip_spaces(s, m + 1, hi);
        if v < hi && (s[v] == '"' || s[v] == '\'') {
            let e = run(s, v + 1, hi, Class::NotQuote(s[v]));
            (Some((v + 1, e)), if e < hi { e + 1 } else { hi })
        } else if v < hi {
            let e = run(s, v, hi, Class::Unquoted);
            (Some((v, e)), e)
        } else {
            (None, v)
        }
    } else {
        (None, m)
    };
    Some((next, if k > j { Some(AttrPos { name: (j, k), value, end: next }) } else { None }))
}

proof fn lemma_attr_specs_step(
    v: Seq<AttrPos>,
    a: Option<AttrPos>,
    s: Seq<char>,
    i: int,
    next: int,
    hi: int,
)
    requires
        0 <= i < next <= hi <= s.len(),
        attr_step(s, i, hi) == Some((next, match a { Some(x) => Some(x.spec()), None => None })),
    ensures
        ({
            let w = match a { Some(x) => v.push(x), None => v };
            attr_specs(w) + attrs_from(s, next, hi) == attr_specs(v) + attrs_from(s, i, hi)
        }),
{
    match a {
        Some(x) => {
            assert(attr_specs(v.push(x)) =~= attr_specs(v).push(x.spec()));
            assert(attrs_from(s, i, hi) == seq![x.spec()] + attrs_from(s, next, hi));
            assert(attr_specs(v.push(x)) + attrs_from(s, next, hi) =~= attr_specs(v) + attrs_from(s, i, hi));
        },
        None => {},
    }
}

/// Every attribute of the tag `s[lo..hi]`.
pub(crate) fn attributes_in(s: &[char], lo: usize, hi: usize) -> (r: Vec<AttrPos>)
    requires
        lo <= hi <= s@.len(),
    ensures
        attr_specs(r@) == attrs_spec(s@, lo as int, hi as int),
        attrs_ordered(attr_specs(r@), lo as int, hi as int),
{
    let mut out: Vec<AttrPos> = Vec::new();
    if lo >= hi {
        assert(attr_specs(out@) =~= seq![]);
        return out;
    }
    proof { lemma_attrs_begin(s@, lo as int, hi as int); }
    let mut i = lo + 1;
    if i < hi && s[i] == '/' {
        i += 1;
    }
    i = run(s, i, hi, Class::TagName);
    let ghost i0 = i as int;
    proof { lemma_attrs_from(s@, i0, hi as int); }
    while i < hi
        invariant
            lo < i0 <= i <= hi <= s@.len(),
            i0 == attrs_begin(s@, lo as int, hi as int),
            attr_specs(out@) + attrs_from(s@, i as int, hi as int) == attrs_from(s@, i0, hi as int),
            attrs_ordered(attrs_from(s@, i0, hi as int), i0, hi as int),
        decreases hi - i,
    {
        proof { lemma_attr_step(s@, i as int, hi as int); }
        match attr_step_at(s, i, hi) {
            None => {
                assert(attrs_from(s@, i as int, hi as int) =~= seq![]);
                assert(attr_specs(out@) =~= attr_specs(out@) + seq![]);
                assert(attr_specs(out@) == attrs_from(s@, i0, hi as int));
                proof { lemma_ordered_weaken(attr_specs(out@), i0, lo as int, hi as int); }
                return out;
            },
            Some((next, a)) => {
                proof { lemma_attr_specs_step(out@, a, s@, i as int, next as int, hi as int); }
                match a {
                    Some(x) => {
                        out.push(x);
                    },
                    None => {},
                }
                i = next;
            },
        }
    }
    assert(attrs_from(s@, i as int, hi as int) =~= seq![]);
    assert(attr_specs(out@) =~= attr_specs(out@) + seq![]);
    out
}

pub struct Attribute<'a> {
    pub name: &'a str,
    /// Span of the value inside its quotes, relative to the tag.
    pub value: Option<(usize, usize)>,
    /// Span of the whole `name="value"`, relative to the tag. `fill` deletes
    /// this range to strip a marker from the output.
    pub span: (usize, usize),
}

/// Every attribute of `tag`, in the order written; spans are byte offsets into
/// `tag`.
pub fn attributes(tag: &str) -> (r: Vec<Attribute<'_>>)
    ensures
        r@.len() == attrs_spec(tag@, 0, tag@.len() as int).len(),
        forall|k: int| 0 <= k < r@.len() ==> {
            let (n0, n1, v, e) = attrs_spec(tag@, 0, tag@.len() as int)[k];
            &&& (#[trigger] r@[k]).name@ == tag@.subrange(n0, n1)
            &&& r@[k].span == (bytes_upto(tag@, n0) as usize, bytes_upto(tag@, e) as usize)
            &&& r@[k].value == match v {
                Some((a, b)) => Some((bytes_upto(tag@, a) as usize, bytes_upto(tag@, b) as usize)),
                None => None,
            }
        },
{
    let cs = chars_of(tag);
    let offs = byte_offsets(tag, &cs);
    let ps = attributes_in(&cs, 0, cs.len());
    let mut out: Vec<Attribute> = Vec::new();
    let mut k: usize = 0;
    while k < ps.len()
        invariant
            cs@ == tag@,
            offs@.len() == cs@.len() + 1,
            forall|j: int| 0 <= j <= cs@.len() ==> offs@[j] == bytes_upto(cs@, j),
            attr_specs(ps@) == attrs_spec(tag@, 0, tag@.len() as int),
            attrs_ordered(attr_specs(ps@), 0, tag@.len() as int),
            k <= ps@.len(),
            out@.len() == k,
            forall|j: int| 0 <= j < k ==> {
                let (n0, n1, v, e) = attrs_spec(tag@, 0, tag@.len() as int)[j];
                &&& (#[trigger] out@[j]).name@ == tag@.subrange(n0, n1)
                &&& out@[j].span == (bytes_upto(tag@, n0) as usize, bytes_upto(tag@, e) as usize)
                &&& out@[j].value == match v {
                    Some((a, b)) => Some((bytes_upto(tag@, a) as usize, bytes_upto(tag@, b) as usize)),
                    None => None,
                }
            },
        decreases ps@.len() - k,
    {
        let p = ps[k];
        assert(attr_specs(ps@)[k as int] == p.spec());
        let name = tag.substring_char(p.name.0, p.name.1);
        let value = match p.value {
            Some((a, b)) => Some((offs[a], offs[b])),
            None => None,
        };
        out.push(Attribute { name, value, span: (offs[p.name.0], offs[p.end]) });
        k += 1;
    }
    out
}


// -- Element extents -----------------------------------------------------------

/// `tag` (the span `s[a..b]`) ends in `/>`, allowing whitespace before the `>`.
pub open spec fn self_closing_spec(s: Seq<char>, a: int, b: int) -> bool {
    let e = if a < b && s[b - 1] == '>' { b - 1 } else { b };
    let t = trim_end_pos(s, a, e);
    a < t && s[t - 1] == '/'
}

fn self_closing(s: &[char], a: usize, b: usize) -> (r: bool)
    requires
        a <= b <= s@.len(),
    ensures
        r == self_closing_spec(s@, a as int, b as int),
{
    let e = if a < b && s[b - 1] == '>' { b - 1 } else { b };
    let t = trim_end(s, a, e);
    a < t && s[t - 1] == '/'
}

/// The length of the closing tag for `name` at `at`, or 0 if there is none.
pub open spec fn close_len_spec(s: Seq<char>, at: int, end: int, name: Seq<char>) -> int {
    match tag_name_spec(s, at, end) {
        Some((n0, n1, true)) => if eq_ignore_case(s.subrange(n0, n1), name) {
            tag_end_spec(s, at, end) - at
        } else {
            0
        },
        _ => 0,
    }
}

fn close_len(s: &[char], at: usize, end: usize, n0: usize, n1: usize) -> (r: usize)
    requires
        at <= end <= s@.len(),
        n0 <= n1 <= s@.len(),
    ensures
        r == close_len_spec(s@, at as int, end as int, s@.subrange(n0 as int, n1 as int)),
        at + r <= end,
{
    match tag_name_at(s, at, end) {
        Some((a, b, true)) => {
            if ranges_eq_ignore_case(s, a, b, n0, n1) {
                tag_end_at(s, at, end) - at
            } else {
                0
            }
        },
        _ => 0,
    }
}

/// Past the end of the comment `<!--` at `at`, or `end`.
pub open spec fn comment_skip(s: Seq<char>, at: int, end: int) -> int {
    match find_pat(s, at + 4, end, "-->"@) {
        Some(k) => k + 3,
        None => end,
    }
}

/// Past the `>` that ends the declaration at `at`, or `end`.
pub open spec fn decl_skip(s: Seq<char>, at: int, end: int) -> int {
    match find_char_spec(s, at, end, '>') {
        Some(k) => k + 1,
        None => end,
    }
}

pub open spec fn is_comment(s: Seq<char>, at: int, end: int) -> bool {
    at_pat(s, at, end, "<!--"@)
}

pub open spec fn is_decl(s: Seq<char>, at: int, end: int) -> bool {
    at_pat(s, at, end, "<!"@) || at_pat(s, at, end, "<?"@)
}

pub(crate) fn comment_end(s: &[char], at: usize, end: usize) -> (r: usize)
    requires
        at <= end <= s@.len(),
        is_comment(s@, at as int, end as int),
    ensures
        r == comment_skip(s@, at as int, end as int),
        at < r <= end,
{
    proof {
        reveal_strlit("<!--");
        reveal_strlit("-->");
        lemma_find_pat_bounds(s@, at + 4, end as int, "-->"@);
    }
    match find(s, at + 4, end, "-->") {
        Some(k) => k + 3,
        None => end,
    }
}

pub(crate) fn decl_end(s: &[char], at: usize, end: usize) -> (r: usize)
    requires
        at < end <= s@.len(),
    ensures
        r == decl_skip(s@, at as int, end as int),
        at < r <= end,
{
    proof { lemma_find_char_bounds(s@, at as int, end as int, '>'); }
    match find_char(s, at, end, '>') {
        Some(k) => k + 1,
        None => end,
    }
}

/// One `<` met while looking for the close of an element named `name` at
/// `depth`: where to look next, the new depth, and the element's content end
/// and end if this is its closing tag.
pub open spec fn extent_step(s: Seq<char>, at: int, name: Seq<char>, depth: int) -> (
    int,
    int,
    Option<(int, int)>,
) {
    let len = s.len() as int;
    if is_comment(s, at, len) {
        (comment_skip(s, at, len), depth, None)
    } else if is_decl(s, at, len) {
        (decl_skip(s, at, len), depth, None)
    } else {
        match tag_name_spec(s, at, len) {
            None => (at + 1, depth, None),
            Some((n0, n1, close)) => {
                let end = tag_end_spec(s, at, len);
                let same = eq_ignore_case(s.subrange(n0, n1), name);
                if same && close && depth == 1 {
                    (end, 0, Some((at, end)))
                } else {
                    let d = if !same {
                        depth
                    } else if close {
                        depth - 1
                    } else if !self_closing_spec(s, at, end) {
                        depth + 1
                    } else {
                        depth
                    };
                    let next = if !close && named_spec(s.subrange(n0, n1), RAWTEXT@) {
                        rawtext_end_spec(s, end, len, s.subrange(n0, n1))
                    } else {
                        end
                    };
                    (next, d, None)
                }
            },
        }
    }
}

/// The content end and end of the element named `name`, scanning from `i`
/// with `depth` elements of that name open.
pub open spec fn extent_scan(s: Seq<char>, i: int, name: Seq<char>, depth: int) -> Option<(int, int)>
    decreases s.len() - i,
{
    if !(0 <= i <= s.len()) {
        None
    } else {
        match find_char_spec(s, i, s.len() as int, '<') {
            None => None,
            Some(at) => {
                let (next, d, found) = extent_step(s, at, name, depth);
                match found {
                    Some(r) => Some(r),
                    None => if i < next <= s.len() {
                        extent_scan(s, next, name, d)
                    } else {
                        None
                    },
                }
            },
        }
    }
}

/// Where the element whose opening tag starts at `at` has its opening tag end,
/// its content end, and its end.
pub open spec fn extent_spec(s: Seq<char>, at: int) -> Option<(int, int, int)> {
    let len = s.len() as int;
    if !(0 <= at <= len) {
        None
    } else {
        match tag_name_spec(s, at, len) {
            None => None,
            Some((n0, n1, closing)) => if closing {
                None
            } else {
                let open_end = tag_end_spec(s, at, len);
                let name = s.subrange(n0, n1);
                if named_spec(name, VOID@) || self_closing_spec(s, at, open_end) {
                    Some((open_end, open_end, open_end))
                } else if named_spec(name, RAWTEXT@) {
                    let ce = rawtext_end_spec(s, open_end, len, name);
                    Some((open_end, ce, ce + close_len_spec(s, ce, len, name)))
                } else {
                    match extent_scan(s, open_end, name, 1) {
                        Some((ce, e)) => Some((open_end, ce, e)),
                        None => None,
                    }
                }
            },
        }
    }
}

fn extent_step_at(s: &[char], at: usize, n0: usize, n1: usize, depth: usize) -> (r: (
    usize,
    usize,
    Option<(usize, usize)>,
))
    requires
        at < s@.len(),
        s@[at as int] == '<',
        n0 <= n1 <= s@.len(),
        1 <= depth <= at,
    ensures
        ({
            let (next, d, found) = extent_step(s@, at as int, s@.subrange(n0 as int, n1 as int), depth as int);
            &&& r.0 == next
            &&& r.1 == d
            &&& match (r.2, found) {
                (None, None) => true,
                (Some((a, b)), Some((c, d))) => a == c && b == d,
                _ => false,
            }
        }),
        at < r.0 <= s@.len(),
        r.2 is None ==> 1 <= r.1 <= r.0,
        r.2 matches Some((a, b)) ==> a <= b <= s@.len(),
{
    let len = s.len();
    if starts_at(s, at, len, "<!--") {
        return (comment_end(s, at, len), depth, None);
    }
    if starts_at(s, at, len, "<!") || starts_at(s, at, len, "<?") {
        return (decl_end(s, at, len), depth, None);
    }
    match tag_name_at(s, at, len) {
        None => (at + 1, depth, None),
        Some((t0, t1, close)) => {
            let end = tag_end_at(s, at, len);
            let same = ranges_eq_ignore_case(s, t0, t1, n0, n1);
            if same && close && depth == 1 {
                (end, 0, Some((at, end)))
            } else {
                let d = if !same {
                    depth
                } else if close {
                    depth - 1
                } else if !self_closing(s, at, end) {
                    depth + 1
                } else {
                    depth
                };
                let next = if !close && named(s, t0, t1, &RAWTEXT) {
                    rawtext_end(s, end, len, t0, t1)
                } else {
                    end
                };
                (next, d, None)
            }
        },
    }
}

pub(crate) fn extent_at(s: &[char], at: usize) -> (r: Option<(usize, usize, usize)>)
    ensures
        match (r, extent_spec(s@, at as int)) {
            (None, None) => true,
            (Some((a, b, c)), Some((x, y, z))) => a == x && b == y && c == z,
            _ => false,
        },
        r matches Some((a, b, c)) ==> at < a <= b <= c <= s@.len(),
{
    let len = s.len();
    if at > len {
        return None;
    }
    let (n0, n1, closing) = match tag_name_at(s, at, len) {
        Some(t) => t,
        None => return None,
    };
    if closing {
        return None;
    }
    let open_end = tag_end_at(s, at, len);
    if named(s, n0, n1, &VOID) || self_closing(s, at, open_end) {
        return Some((open_end, open_end, open_end));
    }
    if named(s, n0, n1, &RAWTEXT) {
        let ce = rawtext_end(s, open_end, len, n0, n1);
        let cl = close_len(s, ce, len, n0, n1);
        return Some((open_end, ce, ce + cl));
    }
    let ghost name = s@.subrange(n0 as int, n1 as int);
    let mut i = open_end;
    let mut depth: usize = 1;
    loop
        invariant
            at < open_end <= i <= len == s@.len(),
            n0 <= n1 <= len,
            name == s@.subrange(n0 as int, n1 as int),
            1 <= depth <= i,
            extent_spec(s@, at as int) == match extent_scan(s@, i as int, name, depth as int) {
                Some((ce, e)) => Some((open_end as int, ce, e)),
                None => None,
            },
        decreases len - i,
    {
        proof { lemma_find_char_bounds(s@, i as int, len as int, '<'); }
        let lt = match find_char(s, i, len, '<') {
            None => return None,
            Some(k) => k,
        };
        let (next, d, found) = extent_step_at(s, lt, n0, n1, depth);
        match found {
            Some((ce, e)) => {
                assert(open_end <= ce);
                return Some((open_end, ce, e));
            },
            None => {
                i = next;
                depth = d;
            },
        }
    }
}

/// Where an element begins, where its content ends, and where it ends. A void
/// or self-closing element has no content, so all three collapse to the
/// position after `>`.
#[derive(Debug, PartialEq, Eq)]
pub struct Extent {
    pub open_end: usize,
    pub content_end: usize,
    pub end: usize,
}

/// The extent of the element whose opening tag starts at `at`, found by
/// counting depth over same-named tags. `None` if `at` is not an opening tag or
/// the element is never closed.
/// Offsets are bytes; an `at` that is not a character boundary of `src`, or
/// lies past its end, has no extent.
pub fn extent(src: &str, at: usize) -> (r: Option<Extent>)
    ensures
        match r {
            None => !on_boundary(src@, at as int) || extent_spec(src@, chars_before(src@, at as int)) is None,
            Some(e) => on_boundary(src@, at as int) && (extent_spec(src@, chars_before(src@, at as int)) matches Some((a, b, c))
                && e.open_end == bytes_upto(src@, a) && e.content_end == bytes_upto(src@, b) && e.end
                == bytes_upto(src@, c)),
        },
{
    let cs = chars_of(src);
    let (k, b) = char_of_byte(&cs, at);
    if b != at {
        return None;
    }
    match extent_at(&cs, k) {
        Some((a, bb, c)) => {
            let offs = byte_offsets(src, &cs);
            Some(Extent { open_end: offs[a], content_end: offs[bb], end: offs[c] })
        },
        None => None,
    }
}


// -- Absolute URLs -------------------------------------------------------------

/// The value `s[v0..v1]` is a root-relative URL: `/x`, but not `//host/x`.
pub open spec fn root_relative(s: Seq<char>, v0: int, v1: int) -> bool {
    v0 < v1 && s[v0] == '/' && !(v0 + 1 < v1 && s[v0 + 1] == '/')
}

fn is_root_relative(s: &[char], v0: usize, v1: usize) -> (r: bool)
    requires
        v0 <= v1 <= s@.len(),
    ensures
        r == root_relative(s@, v0 as int, v1 as int),
{
    v0 < v1 && s[v0] == '/' && !(v0 + 1 < v1 && s[v0 + 1] == '/')
}

/// The attribute `a` holds a URL that `base` is to be put in front of.
pub open spec fn inserts(s: Seq<char>, a: AttrSpec) -> bool {
    named_spec(s.subrange(a.0, a.1), URL_ATTRS@) && match a.2 {
        Some((v0, v1)) => root_relative(s, v0, v1),
        None => false,
    }
}

pub open spec fn value_start(a: AttrSpec) -> int {
    match a.2 {
        Some((v0, _)) => v0,
        None => a.0,
    }
}

/// The tag up to `hi`, from `last` on, with `base` put in front of every
/// root-relative URL value among `attrs[k..]`.
pub open spec fn splice_from(
    s: Seq<char>,
    attrs: Seq<AttrSpec>,
    k: int,
    last: int,
    hi: int,
    base: Seq<char>,
) -> Seq<char>
    decreases attrs.len() - k,
{
    if k < 0 || k >= attrs.len() {
        s.subrange(last, hi)
    } else if inserts(s, attrs[k]) {
        let v0 = value_start(attrs[k]);
        s.subrange(last, v0) + base + splice_from(s, attrs, k + 1, v0, hi, base)
    } else {
        splice_from(s, attrs, k + 1, last, hi, base)
    }
}

/// The tag `s[lo..hi]` with `base` put in front of every root-relative URL in
/// its `href`, `src`, `poster`, `cite` and `data` attributes.
pub open spec fn rewrite_spec(s: Seq<char>, lo: int, hi: int, base: Seq<char>) -> Seq<char> {
    splice_from(s, attrs_spec(s, lo, hi), 0, lo, hi, base)
}

fn rewrite_tag(out: &mut String, s: &[char], lo: usize, hi: usize, base: &str)
    requires
        lo <= hi <= s@.len(),
    ensures
        final(out)@ == old(out)@ + rewrite_spec(s@, lo as int, hi as int, base@),
{
    let attrs = attributes_in(s, lo, hi);
    let ghost a = attr_specs(attrs@);
    let ghost start = out@;
    let mut last = lo;
    let mut k: usize = 0;
    while k < attrs.len()
        invariant
            lo <= last <= hi <= s@.len(),
            a == attr_specs(attrs@),
            a == attrs_spec(s@, lo as int, hi as int),
            attrs_ordered(a, lo as int, hi as int),
            k <= a.len(),
            k < a.len() ==> last <= a[k as int].0,
            out@ + splice_from(s@, a, k as int, last as int, hi as int, base@) == start
                + rewrite_spec(s@, lo as int, hi as int, base@),
        decreases a.len() - k,
    {
        let p = attrs[k];
        assert(a[k as int] == p.spec());
        let ghost before = out@;
        let ghost rest = splice_from(s@, a, k + 1, last as int, hi as int, base@);
        let hit = named(s, p.name.0, p.name.1, &URL_ATTRS) && match p.value {
            Some((v0, v1)) => is_root_relative(s, v0, v1),
            None => false,
        };
        if hit {
            let v0 = match p.value {
                Some((v0, _)) => v0,
                None => last,
            };
            push_range(out, s, last, v0);
            push_str(out, base);
            assert(out@ + splice_from(s@, a, k + 1, v0 as int, hi as int, base@) =~= before
                + splice_from(s@, a, k as int, last as int, hi as int, base@));
            last = v0;
        }
        if k + 1 < attrs.len() {
            assert(a[k as int].3 <= a[k + 1].0);
        }
        k += 1;
    }
    push_range(out, s, last, hi);
}

/// One `<` met while making URLs absolute: what to emit for it and where to
/// continue.
pub open spec fn abs_step(s: Seq<char>, lt: int, base: Seq<char>) -> (Seq<char>, int) {
    let len = s.len() as int;
    if is_comment(s, lt, len) {
        let e = comment_skip(s, lt, len);
        (s.subrange(lt, e), e)
    } else if is_decl(s, lt, len) {
        let e = decl_skip(s, lt, len);
        (s.subrange(lt, e), e)
    } else {
        match tag_name_spec(s, lt, len) {
            None => (seq!['<'], lt + 1),
            Some((n0, n1, closing)) => {
                let end = tag_end_spec(s, lt, len);
                let t = rewrite_spec(s, lt, end, base);
                if !closing && named_spec(s.subrange(n0, n1), RAWTEXT@) {
                    let stop = rawtext_end_spec(s, end, len, s.subrange(n0, n1));
                    (t + s.subrange(end, stop), stop)
                } else {
                    (t, end)
                }
            },
        }
    }
}

/// `s[i..]` with every root-relative URL made absolute against `base`.
pub open spec fn absolutize_from(s: Seq<char>, i: int, base: Seq<char>) -> Seq<char>
    decreases s.len() - i,
{
    if !(0 <= i <= s.len()) {
        seq![]
    } else {
        match find_char_spec(s, i, s.len() as int, '<') {
            None => s.subrange(i, s.len() as int),
            Some(lt) => {
                let (emitted, next) = abs_step(s, lt, base);
                if i < next <= s.len() {
                    s.subrange(i, lt) + emitted + absolutize_from(s, next, base)
                } else {
                    seq![]
                }
            },
        }
    }
}

fn abs_step_at(out: &mut String, s: &[char], lt: usize, base: &str) -> (next: usize)
    requires
        lt < s@.len(),
        s@[lt as int] == '<',
    ensures
        ({
            let (emitted, n) = abs_step(s@, lt as int, base@);
            &&& final(out)@ == old(out)@ + emitted
            &&& next == n
        }),
        lt < next <= s@.len(),
{
    let len = s.len();
    if starts_at(s, lt, len, "<!--") {
        let e = comment_end(s, lt, len);
        push_range(out, s, lt, e);
        return e;
    }
    if starts_at(s, lt, len, "<!") || starts_at(s, lt, len, "<?") {
        let e = decl_end(s, lt, len);
        push_range(out, s, lt, e);
        return e;
    }
    match tag_name_at(s, lt, len) {
        None => {
            crate::text::push_char(out, '<');
            lt + 1
        },
        Some((n0, n1, closing)) => {
            let end = tag_end_at(s, lt, len);
            let ghost before = out@;
            rewrite_tag(out, s, lt, end, base);
            if !closing && named(s, n0, n1, &RAWTEXT) {
                let stop = rawtext_end(s, end, len, n0, n1);
                push_range(out, s, end, stop);
                assert(out@ =~= before + (rewrite_spec(s@, lt as int, end as int, base@)
                    + s@.subrange(end as int, stop as int)));
                stop
            } else {
                end
            }
        },
    }
}

/// `html` with every root-relative URL in a URL attribute made absolute against
/// `base`. Text, comments, declarations and rawtext content are left as they are.
pub fn absolutize(html: &str, base: &str) -> (r: String)
    ensures
        r@ == absolutize_from(html@, 0, base@),
{
    let s = chars_of(html);
    let len = s.len();
    let mut out = String::new();
    let mut i: usize = 0;
    loop
        invariant
            i <= len == s@.len(),
            s@ == html@,
            out@ + absolutize_from(s@, i as int, base@) == absolutize_from(s@, 0, base@),
        decreases len - i,
    {
        proof { lemma_find_char_bounds(s@, i as int, len as int, '<'); }
        match find_char(&s, i, len, '<') {
            None => {
                push_range(&mut out, &s, i, len);
                return out;
            },
            Some(lt) => {
                let ghost before = out@;
                push_range(&mut out, &s, i, lt);
                let next = abs_step_at(&mut out, &s, lt, base);
                let ghost (emitted, _n) = abs_step(s@, lt as int, base@);
                assert(out@ + absolutize_from(s@, next as int, base@) =~= before
                    + absolutize_from(s@, i as int, base@));
                i = next;
            },
        }
    }
}

} // verus!
