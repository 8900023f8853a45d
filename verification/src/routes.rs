//! Binds the model to the `templates/` route tree.
//!
//! A template's path *is* its output path, so the directory is the route table:
//!
//! ```text
//! templates/index.html             -> dist/index.html              canonical /
//! templates/blog/index.html        -> dist/blog/index.html         canonical /blog
//! templates/blog/[slug]/index.html -> dist/blog/<slug>/index.html  one per post
//! ```
//!
//! Two rules: a basename starting with `_` is an include rather than a route,
//! and a route named `index.html` is wrapped in `_layout.html` while any other
//! file is emitted bare.
//!
//! A page declares the rest of itself in an HTML comment at the top of the
//! file -- invisible in a browser, so the template still opens standalone, and
//! parsed by the same frontmatter parser posts use:
//!
//! ```text
//! each:  a collection in the model; the page is emitted once per item, and the
//!        `[field]` segment of its path is filled from that item
//! title: the document title, where `{field}` interpolates the page's own
//!        fields and then the site's
//! class: goes on <body>; column width and footer layout co-vary with nothing
//!        but which kind of page this is
//! ```
//!
//! Any other key is an alias binding a page-scope name to a field of the site
//! map, which is how home shows `posts: recent`.
//!
//! Nothing here emits HTML -- the markup is in `templates/`, the values are in
//! `model`, and `fill` puts the two together.
use std::borrow::Cow;
use vstd::prelude::*;

use crate::copies::same_value;
use crate::fill::{self, err_view, get_spec, walk_from, ErrSpec, Src, Value};
use crate::frontmatter::{self, cow_view, ScalarSpec, ValueSpec};
use crate::text::{
    chars_of, debug_str, decimal, find, find_char, find_char_spec, find_pat, lemma_find_char_bounds,
    lemma_find_pat_bounds, push_range, push_str, range_eq, starts_at, str_debug, str_eq,
};
use crate::xml::replace_from;

verus! {

pub struct Route<'a> {
    /// Output path, still holding its `[name]` segment if it has one.
    pub out: &'a str,
    pub param: Option<&'a str>,
    pub layout: bool,
    pub src: &'a str,
    pub meta: Vec<(&'a str, Cow<'a, str>)>,
}

/// The metadata of a route as plain values.
pub open spec fn meta_view(m: Seq<(&str, Cow<str>)>) -> Seq<(Seq<char>, ScalarSpec)> {
    m.map_values(|e: (&str, Cow<str>)| (e.0@, cow_view(e.1)))
}

/// The first value among `m[k..]` under `key`.
pub open spec fn meta_from(m: Seq<(Seq<char>, ScalarSpec)>, key: Seq<char>, k: int) -> Option<Seq<char>>
    decreases m.len() - k,
{
    if !(0 <= k < m.len()) {
        None
    } else if m[k].0 == key {
        Some(m[k].1.0)
    } else {
        meta_from(m, key, k + 1)
    }
}

pub open spec fn opt_view(o: Option<&str>) -> Option<Seq<char>> {
    match o {
        Some(x) => Some(x@),
        None => None,
    }
}

impl<'a> Route<'a> {
    /// The value of one metadata key.
    pub fn meta(&self, key: &str) -> (r: Option<&str>)
        ensures
            opt_view(r) == meta_from(meta_view(self.meta@), key@, 0),
    {
        let ghost mv = meta_view(self.meta@);
        let mut k: usize = 0;
        while k < self.meta.len()
            invariant
                k <= self.meta@.len(),
                mv == meta_view(self.meta@),
                meta_from(mv, key@, 0) == meta_from(mv, key@, k as int),
            decreases self.meta@.len() - k,
        {
            assert(mv[k as int] == (self.meta@[k as int].0@, cow_view(self.meta@[k as int].1)));
            if str_eq(self.meta[k].0, key) {
                return match &self.meta[k].1 {
                    Cow::Borrowed(b) => Some(*b),
                    Cow::Owned(o) => Some(o.as_str()),
                };
            }
            k += 1;
        }
        None
    }

    /// The collection this page is emitted once per item of.
    pub fn each(&self) -> (r: Option<&str>)
        ensures
            opt_view(r) == meta_from(meta_view(self.meta@), "each"@, 0),
    {
        self.meta("each")
    }
}

// -- Paths --------------------------------------------------------------------

/// Where the `/`-separated segment that starts at `i` ends.
pub open spec fn seg_end(s: Seq<char>, i: int) -> int {
    match find_char_spec(s, i, s.len() as int, '/') {
        Some(k) => k,
        None => s.len() as int,
    }
}

/// The inside of the first `[name]` segment from `i` on.
pub open spec fn param_from(s: Seq<char>, i: int) -> Option<(int, int)>
    decreases s.len() + 1 - i,
{
    if !(0 <= i <= s.len()) {
        None
    } else {
        let e = seg_end(s, i);
        if !(i <= e <= s.len()) {
            None
        } else if e - i >= 2 && s[i] == '[' && s[e - 1] == ']' {
            Some((i + 1, e - 1))
        } else if e < s.len() {
            param_from(s, e + 1)
        } else {
            None
        }
    }
}

pub open spec fn param_spec(out: Seq<char>) -> Option<Seq<char>> {
    match param_from(out, 0) {
        Some((a, b)) => Some(out.subrange(a, b)),
        None => None,
    }
}

/// The `[name]` segment of an output path, if it has one.
pub fn param_of(out: &str) -> (r: Option<&str>)
    ensures
        opt_view(r) == param_spec(out@),
{
    let s = chars_of(out);
    let len = s.len();
    let mut i: usize = 0;
    while i <= len
        invariant
            i <= len + 1,
            len == s@.len(),
            s@ == out@,
            param_from(s@, 0) == param_from(s@, i as int),
        decreases len + 1 - i,
    {
        proof { lemma_find_char_bounds(s@, i as int, len as int, '/'); }
        let e = match find_char(&s, i, len, '/') {
            Some(k) => k,
            None => len,
        };
        if e - i >= 2 && s[i] == '[' && s[e - 1] == ']' {
            return Some(out.substring_char(i + 1, e - 1));
        }
        if e >= len {
            return None;
        }
        i = e + 1;
    }
    None
}

/// Whether the basename of `out` starts with `_`.
pub open spec fn is_partial_spec(out: Seq<char>) -> bool {
    let start = match last_slash(out, out.len() as int) {
        Some(k) => k + 1,
        None => 0,
    };
    start < out.len() && out[start] == '_'
}

/// The last `/` in `s[..to]`.
pub open spec fn last_slash(s: Seq<char>, to: int) -> Option<int>
    decreases to,
{
    if !(0 < to <= s.len()) {
        None
    } else if s[to - 1] == '/' {
        Some(to - 1)
    } else {
        last_slash(s, to - 1)
    }
}

/// A basename starting with `_` is an include rather than a route.
pub fn is_partial(out: &str) -> (r: bool)
    ensures
        r == is_partial_spec(out@),
{
    let s = chars_of(out);
    let mut j = s.len();
    while j > 0 && s[j - 1] != '/'
        invariant
            j <= s@.len(),
            s@ == out@,
            last_slash(s@, s@.len() as int) == last_slash(s@, j as int),
        decreases j,
    {
        j -= 1;
    }
    j < s.len() && s[j] == '_'
}

/// The canonical URL path of an output path: `blog/foo/index.html` ->
/// `/blog/foo`; `index.html` -> `/`.
pub open spec fn canonical_spec(out: Seq<char>) -> Seq<char> {
    let n = out.len() as int;
    let suffix = "index.html"@;
    let end = if n >= 10 && out.subrange(n - 10, n) == suffix { n - 10 } else { n };
    "/"@ + out.subrange(0, slash_trim(out, end))
}

/// `s[..to]` with every trailing `/` dropped, as an end.
pub open spec fn slash_trim(s: Seq<char>, to: int) -> int
    decreases to,
{
    if 0 < to <= s.len() && s[to - 1] == '/' {
        slash_trim(s, to - 1)
    } else {
        to
    }
}

pub fn canonical(out: &str) -> (r: String)
    ensures
        r@ == canonical_spec(out@),
{
    let s = chars_of(out);
    let n = s.len();
    proof { reveal_strlit("index.html"); }
    let end = if n >= 10 && starts_at(&s, n - 10, n, "index.html") { n - 10 } else { n };
    let mut t = end;
    while t > 0 && s[t - 1] == '/'
        invariant
            t <= end <= s@.len(),
            slash_trim(s@, end as int) == slash_trim(s@, t as int),
        decreases t,
    {
        t -= 1;
    }
    let mut r = String::new();
    push_str(&mut r, "/");
    push_range(&mut r, &s, 0, t);
    r
}


// -- Loading ------------------------------------------------------------------

/// Keeps the scalars of the metadata bindings `bs[k..]`; a list is an error.
pub open spec fn scalars_from(out: Seq<char>, bs: Seq<(Seq<char>, ValueSpec)>, k: int) -> Result<
    Seq<(Seq<char>, ScalarSpec)>,
    Seq<char>,
>
    decreases bs.len() - k,
{
    if !(0 <= k < bs.len()) {
        Ok(seq![])
    } else {
        match bs[k].1 {
            ValueSpec::Scalar(v) => match scalars_from(out, bs, k + 1) {
                Err(e) => Err(e),
                Ok(rest) => Ok(seq![(bs[k].0, v)] + rest),
            },
            ValueSpec::List(_) => Err(out + ": `"@ + bs[k].0 + "` must be a single value"@),
        }
    }
}

/// The metadata a template declares in a comment at its very top.
pub open spec fn meta_spec(out: Seq<char>, text: Seq<char>) -> Result<Seq<(Seq<char>, ScalarSpec)>, Seq<char>> {
    let len = text.len() as int;
    if !crate::text::at_pat(text, 0, len, "<!--"@) {
        Ok(seq![])
    } else {
        match find_pat(text, 4, len, "-->"@) {
            None => Err(out + ": the metadata comment is never closed"@),
            Some(end) => match frontmatter::parse_any_spec(text.subrange(4, end)) {
                Err((line, msg)) => Err(out + ": line "@ + crate::text::decimal(line as nat) + ": "@ + msg),
                Ok(bs) => scalars_from(out, bs, 0),
            },
        }
    }
}

fn parse_meta<'a>(out: &str, text: &'a str) -> (r: Result<Vec<(&'a str, Cow<'a, str>)>, String>)
    ensures
        match r {
            Ok(m) => meta_spec(out@, text@) == Ok::<Seq<(Seq<char>, ScalarSpec)>, Seq<char>>(meta_view(m@)),
            Err(e) => meta_spec(out@, text@) == Err::<Seq<(Seq<char>, ScalarSpec)>, Seq<char>>(e@),
        },
{
    let s = chars_of(text);
    let len = s.len();
    if !starts_at(&s, 0, len, "<!--") {
        let v: Vec<(&'a str, Cow<'a, str>)> = Vec::new();
        assert(meta_view(v@) =~= Seq::<(Seq<char>, ScalarSpec)>::empty());
        return Ok(v);
    }
    proof {
        reveal_strlit("<!--");
        lemma_find_pat_bounds(s@, 4, len as int, "-->"@);
    }
    let end = match find(&s, 4, len, "-->") {
        None => {
            let mut e = String::new();
            push_str(&mut e, out);
            push_str(&mut e, ": the metadata comment is never closed");
            return Err(e);
        },
        Some(k) => k,
    };
    let front = text.substring_char(4, end);
    assert(s@.len() == s.len());
    let mut parsed = match frontmatter::parse_any(front) {
        Err(fe) => {
            let mut e = String::new();
            push_str(&mut e, out);
            push_str(&mut e, ": ");
            let d = fe.describe();
            push_str(&mut e, d.as_str());
            proof {
                reveal_strlit(": ");
                reveal_strlit("line ");
                reveal_strlit(": line ");
                assert(e@ =~= out@ + ": line "@ + crate::text::decimal(fe.line as nat) + ": "@ + fe.msg@);
            }
            return Err(e);
        },
        Ok(p) => p,
    };
    let ghost bs = frontmatter::bindings_view(parsed@);
    let count = parsed.len();
    assert(bs.len() == count);
    let mut m: Vec<(&'a str, Cow<'a, str>)> = Vec::new();
    let mut k: usize = 0;
    assert(meta_view(m@) =~= Seq::<(Seq<char>, ScalarSpec)>::empty());
    assert(frontmatter::bindings_view(parsed@).subrange(0, parsed@.len() as int) =~= bs);
    proof {
        match scalars_from(out@, bs, 0) {
            Ok(rest) => assert(meta_view(m@) + rest =~= rest),
            Err(_) => {},
        }
    }
    while parsed.len() > 0
        invariant
            k + parsed@.len() == bs.len() <= usize::MAX,
            frontmatter::bindings_view(parsed@) == bs.subrange(k as int, bs.len() as int),
            meta_spec(out@, text@) == match scalars_from(out@, bs, k as int) {
                Ok(rest) => Ok(meta_view(m@) + rest),
                Err(e) => Err(e),
            },
        decreases parsed@.len(),
    {
        let ghost pv = frontmatter::bindings_view(parsed@);
        let ghost first = parsed@[0];
        let (key, value) = parsed.remove(0);
        assert(frontmatter::bindings_view(parsed@) =~= pv.subrange(1, pv.len() as int));
        assert(pv[0] == (first.0@, frontmatter::value_view(first.1)));
        assert(bs[k as int] == (key@, frontmatter::value_view(value)));
        match value {
            frontmatter::Value::Scalar(c) => {
                let ghost before = meta_view(m@);
                let ghost cv = cow_view(c);
                m.push((key, c));
                assert(meta_view(m@) =~= before.push((key@, cv)));
                proof {
                    match scalars_from(out@, bs, k + 1) {
                        Ok(rest) => assert(before + (seq![(key@, cv)] + rest) =~= before.push((key@, cv)) + rest),
                        Err(_) => {},
                    }
                }
            },
            frontmatter::Value::List(_) => {
                let mut e = String::new();
                push_str(&mut e, out);
                push_str(&mut e, ": `");
                push_str(&mut e, key);
                push_str(&mut e, "` must be a single value");
                return Err(e);
            },
        }
        k += 1;
    }
    assert(meta_view(m@) + Seq::<(Seq<char>, ScalarSpec)>::empty() =~= meta_view(m@));
    Ok(m)
}


pub struct Templates<'a> {
    pub routes: Vec<Route<'a>>,
    pub includes: Vec<(&'a str, &'a str)>,
    pub layout: Option<&'a str>,
}

/// A route as plain values: output path, `[name]` segment, whether it gets
/// the layout, its source, and its metadata.
pub type RouteSpec = (Seq<char>, Option<Seq<char>>, bool, Seq<char>, Seq<(Seq<char>, ScalarSpec)>);

pub open spec fn route_view(r: Route) -> RouteSpec {
    (r.out@, opt_view(r.param), r.layout, r.src@, meta_view(r.meta@))
}

pub open spec fn routes_view(v: Seq<Route>) -> Seq<RouteSpec> {
    v.map_values(|r: Route| route_view(r))
}

pub open spec fn pairs_view(v: Seq<(&str, &str)>) -> Seq<(Seq<char>, Seq<char>)> {
    v.map_values(|p: (&str, &str)| (p.0@, p.1@))
}

pub open spec fn files_view(v: Seq<(String, String)>) -> Seq<(Seq<char>, Seq<char>)> {
    v.map_values(|p: (String, String)| (p.0@, p.1@))
}

/// Only `index.html` routes get the layout.
pub open spec fn gets_layout(out: Seq<char>) -> bool {
    let n = out.len() as int;
    out == "index.html"@ || (n >= 11 && out.subrange(n - 11, n) == "/index.html"@)
}

/// The routes among the first `k` files, or the first metadata error.
pub open spec fn routes_upto(files: Seq<(Seq<char>, Seq<char>)>, k: int) -> Result<Seq<RouteSpec>, Seq<char>>
    decreases k,
{
    if k <= 0 || k > files.len() {
        Ok(seq![])
    } else {
        match routes_upto(files, k - 1) {
            Err(e) => Err(e),
            Ok(rs) => {
                let (out, src) = files[k - 1];
                if is_partial_spec(out) {
                    Ok(rs)
                } else {
                    match meta_spec(out, src) {
                        Err(e) => Err(e),
                        Ok(m) => Ok(rs.push((out, param_spec(out), gets_layout(out), src, m))),
                    }
                }
            },
        }
    }
}

/// The includes among `files`, in order.
pub open spec fn includes_spec(files: Seq<(Seq<char>, Seq<char>)>) -> Seq<(Seq<char>, Seq<char>)> {
    files.filter(|f: (Seq<char>, Seq<char>)| is_partial_spec(f.0))
}

/// The source of the first include named `_layout.html`.
pub open spec fn layout_from(incs: Seq<(Seq<char>, Seq<char>)>, k: int) -> Option<Seq<char>>
    decreases incs.len() - k,
{
    if !(0 <= k < incs.len()) {
        None
    } else if incs[k].0 == "_layout.html"@ {
        Some(incs[k].1)
    } else {
        layout_from(incs, k + 1)
    }
}

fn ends_with_index(s: &[char]) -> (r: bool)
    ensures
        r == gets_layout(s@),
{
    let n = s.len();
    proof {
        reveal_strlit("index.html");
        reveal_strlit("/index.html");
    }
    if n == 10 && starts_at(s, 0, n, "index.html") {
        assert(s@.subrange(0, 10) =~= s@);
        return true;
    }
    if n >= 11 && starts_at(s, n - 11, n, "/index.html") {
        return true;
    }
    proof {
        if s@ == "index.html"@ {
            assert(s@.subrange(0, 10) =~= s@);
        }
    }
    false
}

/// Sorts the template files into routes, includes and the layout, reading each
/// route's metadata block. An include is looked up by file name where it is
/// used; nothing else is parsed here.
pub fn load(files: &[(String, String)]) -> (r: Result<Templates<'_>, String>)
    ensures
        match r {
            Ok(t) => routes_upto(files_view(files@), files@.len() as int) == Ok::<Seq<RouteSpec>, Seq<char>>(
                routes_view(t.routes@),
            ) && pairs_view(t.includes@) == includes_spec(files_view(files@)) && opt_view(t.layout)
                == layout_from(includes_spec(files_view(files@)), 0),
            Err(e) => routes_upto(files_view(files@), files@.len() as int) == Err::<Seq<RouteSpec>, Seq<char>>(e@),
        },
{
    let ghost fv = files_view(files@);
    let mut routes: Vec<Route<'_>> = Vec::new();
    let mut includes: Vec<(&str, &str)> = Vec::new();
    assert(routes_view(routes@) =~= Seq::<RouteSpec>::empty());
    assert(pairs_view(includes@) =~= Seq::<(Seq<char>, Seq<char>)>::empty());
    assert(fv.subrange(0, 0).filter(|f: (Seq<char>, Seq<char>)| is_partial_spec(f.0)) =~= Seq::<(Seq<char>, Seq<char>)>::empty());
    let mut k: usize = 0;
    while k < files.len()
        invariant
            k <= files@.len(),
            fv == files_view(files@),
            routes_upto(fv, k as int) == Ok::<Seq<RouteSpec>, Seq<char>>(routes_view(routes@)),
            pairs_view(includes@) == fv.subrange(0, k as int).filter(|f: (Seq<char>, Seq<char>)| is_partial_spec(f.0)),
        decreases files@.len() - k,
    {
        let out = files[k].0.as_str();
        let src = files[k].1.as_str();
        assert(fv[k as int] == (out@, src@));
        proof {
            reveal(Seq::filter);
            assert(fv.subrange(0, k + 1).drop_last() =~= fv.subrange(0, k as int));
        }
        if is_partial(out) {
            let ghost before = pairs_view(includes@);
            includes.push((out, src));
            assert(pairs_view(includes@) =~= before.push((out@, src@)));
        } else {
            let meta = match parse_meta(out, src) {
                Err(e) => {
                    proof { lemma_routes_err(fv, k + 1, fv.len() as int); }
                    return Err(e);
                },
                Ok(m) => m,
            };
            let cs = chars_of(out);
            let layout = ends_with_index(&cs);
            let ghost before = routes_view(routes@);
            let r = Route { out, param: param_of(out), layout, src, meta };
            let ghost rv = route_view(r);
            routes.push(r);
            assert(routes_view(routes@) =~= before.push(rv));
        }
        k += 1;
    }
    assert(fv.subrange(0, fv.len() as int) =~= fv);
    let ghost incs = pairs_view(includes@);
    let mut layout: Option<&str> = None;
    let mut j: usize = 0;
    while j < includes.len()
        invariant_except_break
            layout is None,
        invariant
            j <= includes@.len(),
            incs == pairs_view(includes@),
            layout_from(incs, 0) == layout_from(incs, j as int),
        ensures
            opt_view(layout) == layout_from(incs, 0),
        decreases includes@.len() - j,
    {
        assert(incs[j as int] == (includes@[j as int].0@, includes@[j as int].1@));
        if str_eq(includes[j].0, "_layout.html") {
            layout = Some(includes[j].1);
            break;
        }
        j += 1;
    }
    Ok(Templates { routes, includes, layout })
}

proof fn lemma_routes_err(files: Seq<(Seq<char>, Seq<char>)>, j: int, n: int)
    requires
        0 < j <= n <= files.len(),
        routes_upto(files, j) is Err,
    ensures
        routes_upto(files, n) == routes_upto(files, j),
    decreases n - j,
{
    if j < n {
        lemma_routes_err(files, j, n - 1);
    }
}


/// Where the rendered page starts once its metadata block is dropped: past the
/// block's `-->` and the newlines after it.
pub open spec fn body_start(s: Seq<char>) -> int {
    let len = s.len() as int;
    if !crate::text::at_pat(s, 0, len, "<!--"@) {
        0
    } else {
        match find_pat(s, 4, len, "-->"@) {
            None => 0,
            Some(end) => newline_end(s, end + 3),
        }
    }
}

/// The end of a run of `\n` from `j`.
pub open spec fn newline_end(s: Seq<char>, j: int) -> int
    decreases s.len() - j,
{
    if 0 <= j < s.len() && s[j] == '\n' {
        newline_end(s, j + 1)
    } else {
        j
    }
}

/// The rendered page without its metadata block. `fill` copies comments through
/// verbatim, so the block is dropped from the output rather than the input --
/// which keeps the line numbers in an error the ones in the file.
pub fn without_meta(html: &str) -> (r: &str)
    ensures
        0 <= body_start(html@) <= html@.len(),
        r@ == html@.subrange(body_start(html@), html@.len() as int),
{
    let s = chars_of(html);
    let len = s.len();
    if !starts_at(&s, 0, len, "<!--") {
        assert(html@.subrange(0, len as int) =~= html@);
        return html;
    }
    proof {
        reveal_strlit("<!--");
        lemma_find_pat_bounds(s@, 4, len as int, "-->"@);
    }
    match find(&s, 4, len, "-->") {
        None => {
            assert(html@.subrange(0, len as int) =~= html@);
            html
        },
        Some(end) => {
            proof { reveal_strlit("-->"); }
            let mut j = end + 3;
            while j < len && s[j] == '\n'
                invariant
                    end + 3 <= j <= len == s@.len(),
                    newline_end(s@, end + 3) == newline_end(s@, j as int),
                decreases len - j,
            {
                j += 1;
            }
            html.substring_char(j, len)
        },
    }
}

/// The collections claimed by layout routes, in route order: `(name, out)`.
pub open spec fn claims_upto(routes: Seq<RouteSpec>, k: int) -> Seq<(Seq<char>, Seq<char>)>
    decreases k,
{
    if k <= 0 || k > routes.len() {
        seq![]
    } else {
        let r = routes[k - 1];
        match meta_from(r.4, "each"@, 0) {
            Some(name) if r.2 => claims_upto(routes, k - 1).push((name, r.0)),
            _ => claims_upto(routes, k - 1),
        }
    }
}

/// The first claim among `claims[k..]` whose name an earlier claim has.
pub open spec fn first_dup(claims: Seq<(Seq<char>, Seq<char>)>, k: int) -> Option<int>
    decreases claims.len() - k,
{
    if !(0 <= k < claims.len()) {
        None
    } else if exists|j: int| 0 <= j < k && claims[j].0 == claims[k].0 {
        Some(k)
    } else {
        first_dup(claims, k + 1)
    }
}

pub open spec fn collections_spec(routes: Seq<RouteSpec>) -> Result<Seq<(Seq<char>, Seq<char>)>, Seq<char>> {
    let claims = claims_upto(routes, routes.len() as int);
    match first_dup(claims, 0) {
        None => Ok(claims),
        Some(i) => Err(claims[i].1 + ": `"@ + claims[i].0 + "` is already claimed by another page"@),
    }
}

/// The collection each page expands, which is where every URL in the model
/// comes from. Only `index.html` routes define one, and two routes claiming the
/// same collection would make an item's URL ambiguous.
pub fn collections<'a>(templates: &'a Templates) -> (r: Result<Vec<(&'a str, &'a str)>, String>)
    ensures
        match r {
            Ok(c) => collections_spec(routes_view(templates.routes@)) == Ok::<Seq<(Seq<char>, Seq<char>)>, Seq<char>>(pairs_view(c@)),
            Err(e) => collections_spec(routes_view(templates.routes@)) == Err::<Seq<(Seq<char>, Seq<char>)>, Seq<char>>(e@),
        },
{
    let ghost rv = routes_view(templates.routes@);
    let mut claims: Vec<(&'a str, &'a str)> = Vec::new();
    assert(pairs_view(claims@) =~= Seq::<(Seq<char>, Seq<char>)>::empty());
    let mut k: usize = 0;
    while k < templates.routes.len()
        invariant
            k <= templates.routes@.len(),
            rv == routes_view(templates.routes@),
            pairs_view(claims@) == claims_upto(rv, k as int),
        decreases templates.routes@.len() - k,
    {
        let r = &templates.routes[k];
        assert(rv[k as int] == route_view(templates.routes@[k as int]));
        if r.layout {
            match r.each() {
                Some(name) => {
                    let ghost before = pairs_view(claims@);
                    claims.push((name, r.out));
                    assert(pairs_view(claims@) =~= before.push((name@, r.out@)));
                },
                None => {},
            }
        }
        k += 1;
    }
    let ghost cv = pairs_view(claims@);
    let mut i: usize = 0;
    while i < claims.len()
        invariant
            i <= claims@.len(),
            cv == pairs_view(claims@),
            rv == routes_view(templates.routes@),
            cv == claims_upto(rv, rv.len() as int),
            first_dup(cv, 0) == first_dup(cv, i as int),
        decreases claims@.len() - i,
    {
        let mut j: usize = 0;
        while j < i
            invariant
                j <= i < claims@.len(),
                cv == pairs_view(claims@),
                rv == routes_view(templates.routes@),
                cv == claims_upto(rv, rv.len() as int),
                first_dup(cv, 0) == first_dup(cv, i as int),
                forall|x: int| 0 <= x < j ==> cv[x].0 != cv[i as int].0,
            decreases i - j,
        {
            assert(cv[j as int] == (claims@[j as int].0@, claims@[j as int].1@));
            assert(cv[i as int] == (claims@[i as int].0@, claims@[i as int].1@));
            if str_eq(claims[j].0, claims[i].0) {
                assert(first_dup(cv, i as int) == Some(i as int));
                let mut e = String::new();
                push_str(&mut e, claims[i].1);
                push_str(&mut e, ": `");
                push_str(&mut e, claims[i].0);
                push_str(&mut e, "` is already claimed by another page");
                return Err(e);
            }
            j += 1;
        }
        assert(!(exists|x: int| 0 <= x < i && cv[x].0 == cv[i as int].0));
        i += 1;
    }
    Ok(claims)
}


// -- Pages --------------------------------------------------------------------

/// One output file: where it goes, and the item it is about.
pub struct Page<'a> {
    pub out: String,
    pub item: Option<&'a Value<'a>>,
}

pub type PageSpec<'a> = (Seq<char>, Option<Value<'a>>);

pub open spec fn pages_view<'a>(v: Seq<Page<'a>>) -> Seq<PageSpec<'a>> {
    v.map_values(|p: Page<'a>| (p.out@, match p.item { Some(x) => Some(*x), None => None }))
}

/// The pages for `items[k..]`: the `[field]` segment of `out` filled from each.
pub open spec fn pages_from<'a>(out: Seq<char>, name: Seq<char>, field: Seq<char>, items: Seq<Value<'a>>, k: int) -> Result<
    Seq<PageSpec<'a>>,
    Seq<char>,
>
    decreases items.len() - k,
{
    if !(0 <= k < items.len()) {
        Ok(seq![])
    } else {
        match get_spec(items[k], field) {
            Some(Value::Text(seg)) => match pages_from(out, name, field, items, k + 1) {
                Err(e) => Err(e),
                Ok(rest) => Ok(
                    seq![(replace_from(out, 0, "["@ + field + "]"@, seg@), Some(items[k]))] + rest,
                ),
            },
            _ => Err(out + ": items of `"@ + name + "` have no text field `"@ + field + "`"@),
        }
    }
}

/// The pages a route expands to: one, or one per item of its collection.
pub open spec fn expand_spec<'a>(route: RouteSpec, site: Value<'a>) -> Result<Seq<PageSpec<'a>>, Seq<char>> {
    let out = route.0;
    match (meta_from(route.4, "each"@, 0), route.1) {
        (None, None) => Ok(seq![(out, None)]),
        (Some(name), Some(field)) => match get_spec(site, name) {
            Some(Value::List(items)) => pages_from(out, name, field, items@, 0),
            _ => Err(out + ": no collection named `"@ + name + "`"@),
        },
        (Some(_), None) => Err(out + ": `each:` needs a [field] segment in the path"@),
        (None, Some(f)) => Err(out + ": ["@ + f + "] segment but no `each:` to fill it"@),
    }
}

pub fn expand<'a>(route: &Route, site: &'a Value<'a>) -> (r: Result<Vec<Page<'a>>, String>)
    ensures
        match r {
            Ok(ps) => expand_spec(route_view(*route), *site) == Ok::<Seq<PageSpec<'a>>, Seq<char>>(pages_view(ps@)),
            Err(e) => expand_spec(route_view(*route), *site) == Err::<Seq<PageSpec<'a>>, Seq<char>>(e@),
        },
{
    match (route.each(), route.param) {
        (None, None) => {
            let mut v: Vec<Page<'a>> = Vec::new();
            v.push(Page { out: route.out.to_owned(), item: None });
            assert(pages_view(v@) =~= seq![(route.out@, None::<Value<'a>>)]);
            Ok(v)
        },
        (Some(name), Some(field)) => {
            let items = match site.get(name) {
                Some(Value::List(items)) => items,
                _ => {
                    let mut e = String::new();
                    push_str(&mut e, route.out);
                    push_str(&mut e, ": no collection named `");
                    push_str(&mut e, name);
                    push_str(&mut e, "`");
                    return Err(e);
                },
            };
            let mut pat = String::new();
            push_str(&mut pat, "[");
            push_str(&mut pat, field);
            push_str(&mut pat, "]");
            let pc = chars_of(pat.as_str());
            proof { reveal_strlit("["); }
            let oc = chars_of(route.out);
            let mut pages: Vec<Page<'a>> = Vec::new();
            let mut k: usize = 0;
            assert(pages_view(pages@) =~= Seq::<PageSpec<'a>>::empty());
            while k < items.len()
                invariant
                    k <= items@.len(),
                    pc@ == "["@ + field@ + "]"@,
                    pc@.len() > 0,
                    oc@ == route.out@,
                    expand_spec(route_view(*route), *site) == match pages_from(route.out@, name@, field@, items@, k as int) {
                        Ok(rest) => Ok(pages_view(pages@) + rest),
                        Err(e) => Err(e),
                    },
                decreases items@.len() - k,
            {
                let item = &items[k];
                match item.get(field) {
                    Some(Value::Text(seg)) => {
                        let out = crate::xml::replace_all(&oc, &pc, seg.as_str());
                        let ghost before = pages_view(pages@);
                        let ghost pv = (out@, Some(*item));
                        pages.push(Page { out, item: Some(item) });
                        assert(pages_view(pages@) =~= before.push(pv));
                        proof {
                            match pages_from(route.out@, name@, field@, items@, k + 1) {
                                Ok(rest) => assert(before + (seq![pv] + rest) =~= before.push(pv) + rest),
                                Err(_) => {},
                            }
                        }
                    },
                    _ => {
                        let mut e = String::new();
                        push_str(&mut e, route.out);
                        push_str(&mut e, ": items of `");
                        push_str(&mut e, name);
                        push_str(&mut e, "` have no text field `");
                        push_str(&mut e, field);
                        push_str(&mut e, "`");
                        return Err(e);
                    },
                }
                k += 1;
            }
            assert(pages_view(pages@) + Seq::<PageSpec<'a>>::empty() =~= pages_view(pages@));
            Ok(pages)
        },
        (Some(_), None) => {
            let mut e = String::new();
            push_str(&mut e, route.out);
            push_str(&mut e, ": `each:` needs a [field] segment in the path");
            Err(e)
        },
        (None, Some(f)) => {
            let mut e = String::new();
            push_str(&mut e, route.out);
            push_str(&mut e, ": [");
            push_str(&mut e, f);
            push_str(&mut e, "] segment but no `each:` to fill it");
            Err(e)
        },
    }
}


// -- Interpolation ------------------------------------------------------------

/// What `{key}` names: the page's own field, then the site's.
pub open spec fn field_of<'a>(fields: Seq<(&str, Value<'a>)>, site: Value<'a>, key: Seq<char>) -> Option<Value<'a>> {
    match fill::entry_spec(fields, key, 0) {
        Some(v) => Some(v),
        None => get_spec(site, key),
    }
}

pub open spec fn prepend_text(p: Seq<char>, r: Result<Seq<char>, Seq<char>>) -> Result<Seq<char>, Seq<char>> {
    match r {
        Ok(x) => Ok(p + x),
        Err(e) => Err(e),
    }
}

/// `t[i..]` with each `{field}` replaced by its text.
pub open spec fn interp_from<'a>(t: Seq<char>, i: int, fields: Seq<(&str, Value<'a>)>, site: Value<'a>) -> Result<
    Seq<char>,
    Seq<char>,
>
    decreases t.len() - i,
{
    if !(0 <= i <= t.len()) {
        Ok(seq![])
    } else {
        match find_char_spec(t, i, t.len() as int, '{') {
            None => Ok(t.subrange(i, t.len() as int)),
            Some(open) => match find_char_spec(t, open, t.len() as int, '}') {
                None => Err("unclosed `{` in "@ + str_debug(t)),
                Some(close) => {
                    let key = t.subrange(open + 1, close);
                    if !(i <= open < close < t.len()) {
                        Ok(seq![])
                    } else {
                        match field_of(fields, site, key) {
                            Some(Value::Text(s)) => prepend_text(
                                t.subrange(i, open) + s@,
                                interp_from(t, close + 1, fields, site),
                            ),
                            Some(Value::Num(n)) => prepend_text(
                                t.subrange(i, open) + crate::text::signed_decimal(n as int),
                                interp_from(t, close + 1, fields, site),
                            ),
                            _ => Err("`{"@ + key + "}` names no text field"@),
                        }
                    }
                },
            },
        }
    }
}

/// The field `s[a..b]` among `fields`, the first if it repeats.
fn field_at<'s, 'a>(fields: &'s [(&'a str, Value<'a>)], s: &[char], a: usize, b: usize) -> (r: Option<&'s Value<'a>>)
    requires
        a <= b <= s@.len(),
    ensures
        match (r, fill::entry_spec(fields@, s@.subrange(a as int, b as int), 0)) {
            (None, None) => true,
            (Some(x), Some(y)) => *x == y,
            _ => false,
        },
{
    let mut k: usize = 0;
    while k < fields.len()
        invariant
            a <= b <= s@.len(),
            k <= fields@.len(),
            fill::entry_spec(fields@, s@.subrange(a as int, b as int), 0) == fill::entry_spec(
                fields@,
                s@.subrange(a as int, b as int),
                k as int,
            ),
        decreases fields@.len() - k,
    {
        if range_eq(s, a, b, fields[k].0) {
            return Some(&fields[k].1);
        }
        k += 1;
    }
    None
}

/// The only interpolation in the project, and it is confined to metadata
/// strings: `{field}` is replaced from the page's own fields, then the site's.
pub fn interpolate(text: &str, fields: &[(&str, Value)], site: &Value) -> (r: Result<String, String>)
    ensures
        match r {
            Ok(x) => interp_from(text@, 0, fields@, *site) == Ok::<Seq<char>, Seq<char>>(x@),
            Err(e) => interp_from(text@, 0, fields@, *site) == Err::<Seq<char>, Seq<char>>(e@),
        },
{
    let t = chars_of(text);
    let len = t.len();
    let mut out = String::new();
    let mut i: usize = 0;
    loop
        invariant
            i <= len == t@.len(),
            t@ == text@,
            interp_from(text@, 0, fields@, *site) == prepend_text(out@, interp_from(text@, i as int, fields@, *site)),
        decreases len - i,
    {
        proof { lemma_find_char_bounds(t@, i as int, len as int, '{'); }
        let open = match find_char(&t, i, len, '{') {
            None => {
                push_range(&mut out, &t, i, len);
                return Ok(out);
            },
            Some(k) => k,
        };
        proof { lemma_find_char_bounds(t@, open as int, len as int, '}'); }
        let close = match find_char(&t, open, len, '}') {
            None => {
                let mut e = String::new();
                push_str(&mut e, "unclosed `{` in ");
                let q = debug_str(text);
                push_str(&mut e, q.as_str());
                return Err(e);
            },
            Some(k) => k,
        };
        let found = match field_at(fields, &t, open + 1, close) {
            Some(v) => Some(v),
            None => fill::get_range(site, &t, open + 1, close),
        };
        let ghost before = out@;
        let ghost key = t@.subrange(open + 1, close as int);
        assert(field_of(fields@, *site, key) == match found { Some(v) => Some(*v), None => None::<Value> });
        push_range(&mut out, &t, i, open);
        let ghost mid = out@;
        let ghost tail = interp_from(text@, close + 1, fields@, *site);
        assert(t@[open as int] == '{');
        assert(open < close);
        match found {
            Some(Value::Text(s)) => {
                push_str(&mut out, s.as_str());
                assert(interp_from(text@, i as int, fields@, *site) == prepend_text(
                    t@.subrange(i as int, open as int) + s@,
                    tail,
                ));
                proof {
                    match tail {
                        Ok(x) => assert(before + ((t@.subrange(i as int, open as int) + s@) + x) =~= out@ + x),
                        Err(_) => {},
                    }
                }
            },
            Some(Value::Num(n)) => {
                crate::text::push_signed(&mut out, *n);
                assert(interp_from(text@, i as int, fields@, *site) == prepend_text(
                    t@.subrange(i as int, open as int) + crate::text::signed_decimal(*n as int),
                    tail,
                ));
                proof {
                    match tail {
                        Ok(x) => assert(before + ((t@.subrange(i as int, open as int) + crate::text::signed_decimal(*n as int)) + x) =~= out@ + x),
                        Err(_) => {},
                    }
                }
            },
            _ => {
                let mut e = String::new();
                push_str(&mut e, "`{");
                push_range(&mut e, &t, open + 1, close);
                push_str(&mut e, "}` names no text field");
                return Err(e);
            },
        }
        i = close + 1;
    }
}


// -- Rendering ----------------------------------------------------------------

/// Metadata keys a page uses for itself. Anything else is an alias.
pub open spec fn reserved(key: Seq<char>) -> bool {
    key == "each"@ || key == "title"@ || key == "class"@
}

/// The aliases among the metadata `m[k..]`: each key that is not reserved
/// names a field of the site map, which must exist.
pub open spec fn aliases_from<'a>(out: Seq<char>, m: Seq<(Seq<char>, ScalarSpec)>, site: Value<'a>, k: int) -> Result<
    Seq<(Seq<char>, Value<'a>)>,
    Seq<char>,
>
    decreases m.len() - k,
{
    if !(0 <= k < m.len()) {
        Ok(seq![])
    } else {
        let (key, (target, _)) = m[k];
        if reserved(key) {
            aliases_from(out, m, site, k + 1)
        } else {
            match get_spec(site, target) {
                None => Err(
                    out + ": `"@ + key + ": "@ + target + "` -- the site has no `"@ + target + "`"@,
                ),
                Some(v) => match aliases_from(out, m, site, k + 1) {
                    Err(e) => Err(e),
                    Ok(rest) => Ok(seq![(key, v)] + rest),
                },
            }
        }
    }
}

fn is_reserved(key: &str) -> (r: bool)
    ensures
        r == reserved(key@),
{
    str_eq(key, "each") || str_eq(key, "title") || str_eq(key, "class")
}

/// `b` holds the entries of `a`, in order: the same keys, and copies of the
/// values.
pub open spec fn copies_of<'a>(a: Seq<(Seq<char>, Value<'a>)>, b: Seq<(&'a str, Value<'a>)>) -> bool {
    a.len() == b.len() && forall|j: int|
        0 <= j < b.len() ==> (#[trigger] b[j]).0@ == a[j].0 && same_value(a[j].1, b[j].1)
}

proof fn lemma_copies_append<'a>(
    a1: Seq<(Seq<char>, Value<'a>)>,
    b1: Seq<(&'a str, Value<'a>)>,
    a2: Seq<(Seq<char>, Value<'a>)>,
    b2: Seq<(&'a str, Value<'a>)>,
)
    requires
        copies_of(a1, b1),
        copies_of(a2, b2),
    ensures
        copies_of(a1 + a2, b1 + b2),
{
    let a = a1 + a2;
    let b = b1 + b2;
    assert forall|j: int| 0 <= j < b.len() implies (#[trigger] b[j]).0@ == a[j].0 && same_value(
        a[j].1,
        b[j].1,
    ) by {
        if j < b1.len() {
            assert(b[j] == b1[j]);
        } else {
            assert(b[j] == b2[j - b1.len()]);
        }
    }
}

/// A metadata key that is not reserved binds a page-scope name to a field of
/// the site map: home writes `posts: recent` and gets the five newest under the
/// name the list include already binds.
fn aliases<'a>(route: &Route<'a>, site: &Value<'a>) -> (r: Result<Vec<(&'a str, Value<'a>)>, String>)
    ensures
        match r {
            Ok(v) => aliases_from(route.out@, meta_view(route.meta@), *site, 0) matches Ok(al)
                && copies_of(al, v@),
            Err(e) => aliases_from(route.out@, meta_view(route.meta@), *site, 0) == Err::<
                Seq<(Seq<char>, Value<'a>)>,
                Seq<char>,
            >(e@),
        },
{
    let ghost mv = meta_view(route.meta@);
    let mut out: Vec<(&'a str, Value<'a>)> = Vec::new();
    let ghost mut pre: Seq<(Seq<char>, Value<'a>)> = seq![];
    let mut k: usize = 0;
    while k < route.meta.len()
        invariant
            k <= route.meta@.len(),
            mv == meta_view(route.meta@),
            copies_of(pre, out@),
            match aliases_from(route.out@, mv, *site, k as int) {
                Ok(rest) => aliases_from(route.out@, mv, *site, 0) == Ok::<
                    Seq<(Seq<char>, Value<'a>)>,
                    Seq<char>,
                >(pre + rest),
                Err(e) => aliases_from(route.out@, mv, *site, 0) == Err::<Seq<(Seq<char>, Value<'a>)>, Seq<char>>(e),
            },
        decreases route.meta@.len() - k,
    {
        let key = route.meta[k].0;
        let target: &str = match &route.meta[k].1 {
            Cow::Borrowed(b) => *b,
            Cow::Owned(o) => o.as_str(),
        };
        assert(mv[k as int] == (key@, cow_view(route.meta@[k as int].1)));
        assert(mv[k as int].1.0 == target@);
        if !is_reserved(key) {
            match site.get(target) {
                Some(v) => {
                    let ghost before = out@;
                    let c = v.duplicate();
                    out.push((key, c));
                    proof {
                        let pre2 = pre.push((key@, *v));
                        assert forall|j: int| 0 <= j < out@.len() implies (#[trigger] out@[j]).0@ == pre2[j].0
                            && same_value(pre2[j].1, out@[j].1) by {
                            if j < before.len() {
                                assert(out@[j] == before[j]);
                            }
                        }
                        match aliases_from(route.out@, mv, *site, k + 1) {
                            Ok(rest) => {
                                assert(pre + (seq![(key@, *v)] + rest) =~= pre2 + rest);
                            },
                            Err(_) => {},
                        }
                        pre = pre2;
                    }
                },
                None => {
                    let mut e = String::new();
                    push_str(&mut e, route.out);
                    push_str(&mut e, ": `");
                    push_str(&mut e, key);
                    push_str(&mut e, ": ");
                    push_str(&mut e, target);
                    push_str(&mut e, "` -- the site has no `");
                    push_str(&mut e, target);
                    push_str(&mut e, "`");
                    return Err(e);
                },
            }
        }
        k += 1;
    }
    assert(pre + Seq::<(Seq<char>, Value<'a>)>::empty() =~= pre);
    Ok(out)
}

pub open spec fn str_result(r: Result<String, String>) -> Result<Seq<char>, Seq<char>> {
    match r {
        Ok(x) => Ok(x@),
        Err(e) => Err(e@),
    }
}

/// The fields of the item a page is about, if it is about one.
pub open spec fn item_entries<'a>(item: Option<&'a Value<'a>>) -> Seq<(Seq<char>, Value<'a>)> {
    match item {
        Some(v) => match *v {
            Value::Dict(e) => e@.map_values(|x: (&'a str, Value<'a>)| (x.0@, x.1)),
            _ => seq![],
        },
        None => seq![],
    }
}

/// `file: line N: message`, for an error of the template filler.
pub open spec fn describe_spec(e: ErrSpec) -> Seq<char> {
    e.0 + ": line "@ + decimal(e.1 as nat) + ": "@ + e.2
}

pub open spec fn described(r: Result<Seq<char>, ErrSpec>) -> Result<Seq<char>, Seq<char>> {
    match r {
        Ok(x) => Ok(x),
        Err(e) => Err(describe_spec(e)),
    }
}

/// `sc` is the scope a page is filled in: its head title, its canonical URL,
/// its body class, then `fields`.
pub open spec fn page_scope<'a>(
    sc: Value<'a>,
    title: Seq<char>,
    out: Seq<char>,
    class: Seq<char>,
    fields: Seq<(&'a str, Value<'a>)>,
) -> bool {
    &&& sc matches Value::Dict(e)
    &&& e@.len() == fields.len() + 3
    &&& e@[0].0@ == "head_title"@
    &&& (e@[0].1 matches Value::Text(t) && t@ == title)
    &&& e@[1].0@ == "canonical"@
    &&& (e@[1].1 matches Value::Text(t) && t@ == crate::config::WEBSITE@ + canonical_spec(out))
    &&& e@[2].0@ == "body_class"@
    &&& (e@[2].1 matches Value::Text(t) && t@ == class)
    &&& e@.subrange(3, e@.len() as int) == fields
}

/// `sc2` is the layout's scope: the entries of `sc`, then the page's body as
/// `body`.
pub open spec fn layout_scope<'a>(sc2: Value<'a>, sc: Value<'a>, body: Seq<char>) -> bool {
    &&& sc matches Value::Dict(e)
    &&& sc2 matches Value::Dict(e2)
    &&& e2@.len() == e@.len() + 1
    &&& e2@.subrange(0, e@.len() as int) == e@
    &&& e2@[e@.len() as int].0@ == "body"@
    &&& (e2@[e@.len() as int].1 matches Value::Html(h) && h@ == body)
}

/// The title a route gives its pages, before interpolation.
pub open spec fn title_source(route: Route) -> Seq<char> {
    match meta_from(meta_view(route.meta@), "title"@, 0) {
        Some(t) => t,
        None => "{site_title}"@,
    }
}

/// The class a route gives its pages' bodies.
pub open spec fn body_class(route: Route) -> Seq<char> {
    match meta_from(meta_view(route.meta@), "class"@, 0) {
        Some(c) => c,
        None => "page"@,
    }
}

/// What filling the layout around `body` comes to, in a scope `sc2` built on
/// the page's scope `sc`.
pub open spec fn laid_out<'a>(
    templates: Templates<'a>,
    site: Value<'a>,
    sc: Value<'a>,
    body: Seq<char>,
    res: Result<Seq<char>, Seq<char>>,
) -> bool {
    match templates.layout {
        None => res == Ok::<Seq<char>, Seq<char>>(body),
        Some(l) => exists|sc2: Value<'a>|
            #[trigger] layout_scope(sc2, sc, body) && described(
                walk_from(
                    Src { name: "_layout.html", text: l },
                    templates.includes@,
                    0,
                    0,
                    l@.len() as int,
                    seq![&site, &sc2],
                ),
            ) == res,
    }
}

/// What filling the page template in scope `sc` comes to: the filled
/// template, its metadata comment dropped, and the layout around it if the
/// route has one.
pub open spec fn page_outcome<'a>(
    route: Route<'a>,
    templates: Templates<'a>,
    site: Value<'a>,
    sc: Value<'a>,
    res: Result<Seq<char>, Seq<char>>,
) -> bool {
    match walk_from(
        Src { name: route.out, text: route.src },
        templates.includes@,
        0,
        0,
        route.src@.len() as int,
        seq![&site, &sc],
    ) {
        Err(fe) => res == Err::<Seq<char>, Seq<char>>(describe_spec(fe)),
        Ok(filled) => {
            let body = filled.subrange(body_start(filled), filled.len() as int);
            if !route.layout {
                res == Ok::<Seq<char>, Seq<char>>(body)
            } else {
                laid_out(templates, site, sc, body, res)
            }
        },
    }
}

/// What rendering `page` of `route` comes to, once the page's own fields are
/// `fields`: the title interpolated, then the template filled in the page's
/// scope.
pub open spec fn rendered<'a>(
    route: Route<'a>,
    templates: Templates<'a>,
    site: Value<'a>,
    page: Page<'a>,
    fields: Seq<(&'a str, Value<'a>)>,
    res: Result<Seq<char>, Seq<char>>,
) -> bool {
    match interp_from(title_source(route), 0, fields, site) {
        Err(e) => res == Err::<Seq<char>, Seq<char>>(route.out@ + ": "@ + e),
        Ok(title) => exists|sc: Value<'a>|
            #[trigger] page_scope(sc, title, page.out@, body_class(route), fields) && page_outcome(
                route,
                templates,
                site,
                sc,
                res,
            ),
    }
}

proof fn lemma_rendered<'a>(
    route: Route<'a>,
    templates: Templates<'a>,
    site: Value<'a>,
    page: Page<'a>,
    fields: Seq<(&'a str, Value<'a>)>,
    title: Seq<char>,
    sc: Value<'a>,
    res: Result<Seq<char>, Seq<char>>,
)
    requires
        interp_from(title_source(route), 0, fields, site) == Ok::<Seq<char>, Seq<char>>(title),
        page_scope(sc, title, page.out@, body_class(route), fields),
        page_outcome(route, templates, site, sc, res),
    ensures
        rendered(route, templates, site, page, fields, res),
{
    let t = interp_from(title_source(route), 0, fields, site)->Ok_0;
    assert(t == title);
    assert(page_scope(sc, t, page.out@, body_class(route), fields) && page_outcome(route, templates, site, sc, res));
}

/// Renders one page of a route: its own fields (the item it is about, then its
/// aliases) shadow the site map, the title is interpolated, and an
/// `index.html` route is wrapped in the layout.
pub fn render<'a>(route: &Route<'a>, templates: &Templates<'a>, site: &Value<'a>, page: &Page<'a>) -> (r: Result<
    String,
    String,
>)
    ensures
        match aliases_from(route.out@, meta_view(route.meta@), *site, 0) {
            Err(m) => str_result(r) == Err::<Seq<char>, Seq<char>>(m),
            Ok(al) => exists|fields: Seq<(&'a str, Value<'a>)>|
                #[trigger] copies_of(item_entries(page.item) + al, fields) && rendered(
                    *route,
                    *templates,
                    *site,
                    *page,
                    fields,
                    str_result(r),
                ),
        },
{
    let ghost items = item_entries(page.item);
    let mut fields: Vec<(&'a str, Value<'a>)> = Vec::new();
    match page.item {
        Some(Value::Dict(entries)) => {
            let mut k: usize = 0;
            while k < entries.len()
                invariant
                    k <= entries@.len(),
                    items == entries@.map_values(|x: (&'a str, Value<'a>)| (x.0@, x.1)),
                    copies_of(items.subrange(0, k as int), fields@),
                decreases entries@.len() - k,
            {
                let ghost before = fields@;
                let c = entries[k].1.duplicate();
                fields.push((entries[k].0, c));
                proof {
                    let pre = items.subrange(0, k + 1);
                    assert forall|j: int| 0 <= j < fields@.len() implies (#[trigger] fields@[j]).0@ == pre[j].0
                        && same_value(pre[j].1, fields@[j].1) by {
                        if j < before.len() {
                            assert(fields@[j] == before[j]);
                            assert(pre[j] == items.subrange(0, k as int)[j]);
                        }
                    }
                }
                k += 1;
            }
            assert(items.subrange(0, entries@.len() as int) =~= items);
        },
        _ => {
            assert(items =~= Seq::<(Seq<char>, Value<'a>)>::empty());
        },
    }
    let mut al = match aliases(route, site) {
        Err(e) => return Err(e),
        Ok(a) => a,
    };
    let ghost al_spec = aliases_from(route.out@, meta_view(route.meta@), *site, 0)->Ok_0;
    let ghost f0 = fields@;
    proof {
        lemma_copies_append(items, f0, al_spec, al@);
    }
    fields.append(&mut al);
    let ghost fields_g = fields@;
    assert(copies_of(items + al_spec, fields_g));
    let title_src = match route.meta("title") {
        Some(t) => t,
        None => "{site_title}",
    };
    assert(title_src@ == title_source(*route));
    let title = match interpolate(title_src, &fields, site) {
        Err(e) => {
            let mut m = String::new();
            push_str(&mut m, route.out);
            push_str(&mut m, ": ");
            push_str(&mut m, e.as_str());
            assert(rendered(*route, *templates, *site, *page, fields_g, str_result(Err::<String, String>(m))));
            return Err(m);
        },
        Ok(t) => t,
    };
    assert(interp_from(title_source(*route), 0, fields_g, *site) == Ok::<Seq<char>, Seq<char>>(title@));
    let mut canon = String::new();
    push_str(&mut canon, crate::config::WEBSITE);
    let path = canonical(page.out.as_str());
    push_str(&mut canon, path.as_str());
    let class = match route.meta("class") {
        Some(c) => c,
        None => "page",
    };
    assert(class@ == body_class(*route));
    // `head_title`, not `title`: a post page binds its own `title` for the
    // <h1>, and the two must not shadow each other.
    let ghost title_g = title@;
    let mut entries: Vec<(&'a str, Value<'a>)> = Vec::new();
    entries.push(("head_title", Value::Text(title)));
    entries.push(("canonical", Value::Text(canon)));
    entries.push(("body_class", Value::text(class)));
    entries.append(&mut fields);
    let scope = Value::Dict(entries);
    let ghost sc_g = scope;
    proof {
        reveal_strlit("head_title");
        reveal_strlit("canonical");
        reveal_strlit("body_class");
        assert(entries@.subrange(3, entries@.len() as int) =~= fields_g);
        assert(page_scope(sc_g, title_g, page.out@, body_class(*route), fields_g));
    }
    let inc = templates.includes.as_slice();
    let src = Src { name: route.out, text: route.src };
    let filled = match fill::render(src, &scope, site, inc) {
        Err(e) => {
            let d = e.describe();
            assert(inc@ == templates.includes@);
            assert(d@ == describe_spec(err_view(e)));
            assert(page_outcome(*route, *templates, *site, sc_g, str_result(Err::<String, String>(d))));
            proof {
                lemma_rendered(*route, *templates, *site, *page, fields_g, title_g, sc_g, str_result(Err::<String, String>(d)));
            }
            return Err(d);
        },
        Ok(x) => x,
    };
    let body = without_meta(filled.as_str());
    if !route.layout {
        let out = body.to_owned();
        assert(page_outcome(*route, *templates, *site, sc_g, str_result(Ok::<String, String>(out))));
        proof {
            lemma_rendered(*route, *templates, *site, *page, fields_g, title_g, sc_g, str_result(Ok::<String, String>(out)));
        }
        return Ok(out);
    }
    let layout = match templates.layout {
        None => {
            let out = body.to_owned();
            assert(page_outcome(*route, *templates, *site, sc_g, str_result(Ok::<String, String>(out))));
        proof {
            lemma_rendered(*route, *templates, *site, *page, fields_g, title_g, sc_g, str_result(Ok::<String, String>(out)));
        }
            return Ok(out);
        },
        Some(l) => l,
    };
    let mut entries = match scope {
        Value::Dict(e) => e,
        _ => Vec::new(),
    };
    let ghost e0 = entries@;
    entries.push(("body", Value::html(body)));
    let scope2 = Value::Dict(entries);
    proof {
        reveal_strlit("body");
        assert(entries@.subrange(0, e0.len() as int) =~= e0);
        assert(layout_scope(scope2, sc_g, body@));
    }
    let res = match fill::render(Src { name: "_layout.html", text: layout }, &scope2, site, inc) {
        Err(e) => Err(e.describe()),
        Ok(x) => Ok(x),
    };
    assert(laid_out(*templates, *site, sc_g, body@, str_result(res)));
    assert(page_outcome(*route, *templates, *site, sc_g, str_result(res)));
    proof {
        lemma_rendered(*route, *templates, *site, *page, fields_g, title_g, sc_g, str_result(res));
    }
    res
}

} // verus!
